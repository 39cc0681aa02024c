//! Fuzzy name matching and an ordered store of student marks.
//!
//! The scorer ranks candidate names against a partial query by cosine
//! similarity over byte unigram and bigram counts; the store keeps an
//! ordered list of (identifier, name, marks) records, supports
//! promote-to-top editing driven by similarity reordering, and offers a
//! lossless transport encoding plus a tab-separated export.

pub mod command;
pub mod transport;
pub mod records;
pub mod text;
pub mod trigram;

pub use command::parse_input;
pub use command::CommandError;
pub use command::Input;
pub use records::init_marks_records;
pub use transport::DecodeFault;
pub use transport::TransportError;

pub use records::MarksRecords;
pub use records::Record;
pub use records::StoreError;
pub use records::FIRST_RECORD_ID;
pub use records::NULL_RECORD_ID;
pub use trigram::score_components;
pub use trigram::score_parts;
