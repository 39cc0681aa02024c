//! Ordered store of per-student marks records.
//!
//! A record is `(identifier, student name, marks)`. The identifier starts
//! at the null value and is minted from a monotonically increasing counter
//! the first time marks are written to the record; it never changes
//! afterwards. The order of the sequence is significant: marks are always
//! written to the record at position zero, and `sort_with` reorders the
//! sequence by descending similarity of each name with a query.

use vstd::prelude::*;
use vstd::multiset::Multiset;
use crate::trigram::{
    dot, sum_sq, lower_bytes_of, score_ge_nums, score_ge, ngram_dot, score_ge_parts,
    lemma_score_ge_total, lemma_score_ge_trans, lemma_sum_sq_zero, MAX_TEXT_LEN, PART_BOUND,
};
use crate::text::{
    str_chars, chars_to_string, push_dec_u64, push_dec_u128, push_spaces, dec_of, spaces,
    pad_right, pad_left, trunc, lines_of, first_nl, strip_cr, tabs_to_spaces, lemma_first_nl_at,
    lemma_first_nl_none,
};

verus! {

broadcast use vstd::seq_lib::group_to_multiset_ensures;

/// Identifier of a record that has never had marks written to it.
pub const NULL_RECORD_ID: u32 = 0;

/// First identifier the counter mints.
pub const FIRST_RECORD_ID: u32 = 1;

/// One student row: identifier (null until marks are first written), name,
/// and the marks last written.
pub struct Record {
    pub record_id: u32,
    pub student_id: String,
    pub marks: Vec<u32>,
}

/// Mathematical image of a `Record`.
pub ghost struct RecV {
    pub id: u32,
    pub name: Seq<char>,
    pub marks: Seq<u32>,
}

/// Mathematical image of the whole store.
pub ghost struct StoreV {
    pub next_id: u32,
    pub recs: Seq<RecV>,
}

pub open spec fn rec_v(r: Record) -> RecV {
    RecV { id: r.record_id, name: r.student_id@, marks: r.marks@ }
}

pub open spec fn recs_v(rs: Seq<Record>) -> Seq<RecV> {
    rs.map_values(|r: Record| rec_v(r))
}

/// Failure of a store mutation.
#[derive(PartialEq, Eq, Structural, Clone, Copy, Debug)]
pub enum StoreError {
    /// A mutation needed a top record, but the store holds none.
    EmptyStore,
}

/// Every lower-cased name, and the lower-cased query, fit the scorer's
/// length bound, so the whole store can be reordered.
pub open spec fn sortable(recs: Seq<RecV>, q: Seq<char>) -> bool {
    &&& lower_bytes_of(q).len() <= 8192
    &&& forall|i: int| 0 <= i < recs.len() ==> lower_bytes_of(#[trigger] recs[i].name).len() <= 8192
}

/// The records are ordered by descending similarity of their names with
/// the query `q` (given as lower-cased bytes).
pub open spec fn sorted_by_score(recs: Seq<RecV>, q: Seq<u8>) -> bool {
    forall|i: int, j: int|
        0 <= i < j < recs.len() ==> score_ge(
            lower_bytes_of(#[trigger] recs[i].name),
            lower_bytes_of(#[trigger] recs[j].name),
            q,
        )
}

/// A similarity key `(dot, sum_sq)` computed for the given name against
/// the lower-cased query `lq`, within the scorer's bounds.
pub open spec fn key_ok(k: (u64, u64), name: Seq<char>, lq: Seq<u8>) -> bool {
    &&& k.0 == dot(lower_bytes_of(name), lq)
    &&& k.1 == sum_sq(lower_bytes_of(name))
    &&& k.0 <= PART_BOUND
    &&& k.1 <= PART_BOUND
    &&& (k.1 == 0 ==> k.0 == 0)
}

/// Container of student marks records.
pub struct MarksRecords {
    pub next_record_id: u32,
    pub records: Vec<Record>,
}

impl View for MarksRecords {
    type V = StoreV;

    open spec fn view(&self) -> StoreV {
        StoreV { next_id: self.next_record_id, recs: recs_v(self.records@) }
    }
}

impl MarksRecords {
    /// The identifier counter is live: at or above the first identifier.
    pub open spec fn wf(self) -> bool {
        self.next_record_id >= 1
    }

    /// Fresh empty store: no records, counter at the first identifier.
    pub fn new() -> (r: MarksRecords)
        ensures
            r@.next_id == 1,
            r@.recs.len() == 0,
            r.wf(),
    {
        MarksRecords { next_record_id: FIRST_RECORD_ID, records: Vec::new() }
    }

    /// Number of records held.
    pub fn len(&self) -> (r: usize)
        ensures
            r == self@.recs.len(),
    {
        self.records.len()
    }

    /// Whether the store holds no record.
    pub fn is_empty(&self) -> (r: bool)
        ensures
            r == (self@.recs.len() == 0),
    {
        self.records.is_empty()
    }

    /// Discards every record; the identifier counter keeps its value, so
    /// identifiers are never reused even across a clear.
    pub fn clear(&mut self)
        ensures
            final(self)@.recs.len() == 0,
            final(self)@.next_id == old(self)@.next_id,
    {
        self.records.clear();
    }

    /// Appends a new record with a null identifier and no marks.
    pub fn add_student(&mut self, student_id: String)
        ensures
            final(self)@.recs == old(self)@.recs.push(
                RecV { id: NULL_RECORD_ID, name: student_id@, marks: Seq::<u32>::empty() },
            ),
            final(self)@.next_id == old(self)@.next_id,
    {
        let ghost name = student_id@;
        self.records.push(Record { record_id: NULL_RECORD_ID, student_id, marks: Vec::new() });
        proof {
            assert(recs_v(self.records@) =~= recs_v(old(self).records@).push(
                RecV { id: NULL_RECORD_ID, name: name, marks: Seq::<u32>::empty() },
            ));
        }
    }

    /// Replaces the marks of the record at position zero; if that record
    /// has a null identifier it is given the next counter value and the
    /// counter advances (only that path asks that the counter has not
    /// wrapped). On an empty store it fails with `EmptyStore` and changes
    /// nothing, for any store.
    pub fn set_marks_at_top(&mut self, marks: Vec<u32>) -> (r: Result<(), StoreError>)
        requires
            old(self)@.recs.len() > 0 && old(self)@.recs[0].id == NULL_RECORD_ID ==> old(
                self,
            ).next_record_id < u32::MAX,
        ensures
            old(self)@.recs.len() == 0 ==> r == Result::<(), StoreError>::Err(
                StoreError::EmptyStore,
            ) && final(self)@ == old(self)@,
            old(self)@.recs.len() > 0 ==> r == Result::<(), StoreError>::Ok(()) && ({
                let top = old(self)@.recs[0];
                if top.id == NULL_RECORD_ID {
                    final(self)@.recs == old(self)@.recs.update(
                        0,
                        RecV { id: old(self)@.next_id, name: top.name, marks: marks@ },
                    ) && final(self)@.next_id == old(self)@.next_id + 1
                } else {
                    final(self)@.recs == old(self)@.recs.update(
                        0,
                        RecV { id: top.id, name: top.name, marks: marks@ },
                    ) && final(self)@.next_id == old(self)@.next_id
                }
            }),
    {
        if self.records.len() == 0 {
            return Err(StoreError::EmptyStore);
        }
        let mut top = self.records.remove(0);
        top.marks = marks;
        if top.record_id == NULL_RECORD_ID {
            top.record_id = self.next_record_id;
            self.next_record_id = self.next_record_id + 1;
        }
        self.records.insert(0, top);
        proof {
            assert(recs_v(self.records@) =~= recs_v(old(self).records@).update(
                0,
                rec_v(self.records@[0]),
            ));
        }
        Ok(())
    }

    /// Reorders the records by descending similarity of each student name
    /// with `s` (case-insensitive). Records with equal score keep a
    /// deterministic but otherwise unspecified relative order. If some
    /// lower-cased name or the query exceeds the scorer's length bound the
    /// store is left unchanged.
    pub fn sort_with(&mut self, s: &str)
        ensures
            final(self)@.next_id == old(self)@.next_id,
            sortable(old(self)@.recs, s@) ==> final(self)@.recs.to_multiset() == old(
                self,
            )@.recs.to_multiset() && sorted_by_score(final(self)@.recs, lower_bytes_of(s@)),
            !sortable(old(self)@.recs, s@) ==> final(self)@ == old(self)@,
    {
        let lq = crate::trigram::lower_bytes(s);
        if lq.len() > MAX_TEXT_LEN {
            return ;
        }
        // compute a similarity key for every record
        let mut keys: Vec<(u64, u64)> = Vec::new();
        let mut i: usize = 0;
        while i < self.records.len()
            invariant
                self.records@ == old(self).records@,
                self.next_record_id == old(self).next_record_id,
                i <= self.records@.len(),
                lq@ == lower_bytes_of(s@),
                lq@.len() <= 8192,
                keys@.len() == i,
                forall|k: int|
                    0 <= k < i ==> key_ok(#[trigger] keys@[k], self.records@[k].student_id@, lq@),
                forall|k: int|
                    0 <= k < i ==> lower_bytes_of(#[trigger] self.records@[k].student_id@).len()
                        <= 8192,
            decreases self.records@.len() - i,
        {
            let lb = crate::trigram::lower_bytes(self.records[i].student_id.as_str());
            if lb.len() > MAX_TEXT_LEN {
                proof {
                    assert(lower_bytes_of(old(self)@.recs[i as int].name).len() > 8192);
                }
                return ;
            }
            let d = ngram_dot(&lb, &lq);
            let ss = ngram_dot(&lb, &lb);
            proof {
                if ss == 0 {
                    lemma_sum_sq_zero(lb@, lq@);
                }
            }
            keys.push((d, ss));
            i += 1;
        }
        proof {
            assert(sortable(old(self)@.recs, s@));
        }
        // insert each record into a fresh sequence, keeping it ordered
        let ghost orig_ms = recs_v(self.records@).to_multiset();
        let mut pending: Vec<Record> = self.records.split_off(0);
        let mut out: Vec<Record> = Vec::new();
        let mut okeys: Vec<(u64, u64)> = Vec::new();
        proof {
            assert(pending@ =~= old(self).records@);
            assert(recs_v(out@) =~= Seq::<RecV>::empty());
            assert(recs_v(out@).to_multiset().add(recs_v(pending@).to_multiset()) =~= recs_v(
                pending@,
            ).to_multiset());
        }
        while pending.len() > 0
            invariant
                self.next_record_id == old(self).next_record_id,
                lq@ == lower_bytes_of(s@),
                okeys@.len() == out@.len(),
                keys@.len() == pending@.len(),
                forall|k: int|
                    0 <= k < pending@.len() ==> key_ok(
                        #[trigger] keys@[k],
                        pending@[k].student_id@,
                        lq@,
                    ),
                forall|k: int|
                    0 <= k < out@.len() ==> key_ok(#[trigger] okeys@[k], out@[k].student_id@, lq@),
                forall|x: int, y: int|
                    0 <= x < y < out@.len() ==> score_ge_nums(
                        #[trigger] okeys@[x].0 as nat,
                        okeys@[x].1 as nat,
                        #[trigger] okeys@[y].0 as nat,
                        okeys@[y].1 as nat,
                    ),
                recs_v(out@).to_multiset().add(recs_v(pending@).to_multiset()) == orig_ms,
            decreases pending@.len(),
        {
            let ghost pending_before = pending@;
            let ghost out_before = out@;
            let r = pending.remove(0);
            let k = keys.remove(0);
            proof {
                assert(recs_v(pending_before).remove(0) =~= recs_v(pending@));
                assert(recs_v(pending_before).to_multiset().count(rec_v(r)) > 0) by {
                    assert(recs_v(pending_before)[0] == rec_v(r));
                    assert(recs_v(pending_before).contains(rec_v(r)));
                }
            }
            let mut j: usize = 0;
            let mut stop = false;
            while !stop && j < out.len()
                invariant
                    okeys@.len() == out@.len(),
                    j <= out@.len(),
                    k.0 <= PART_BOUND,
                    k.1 <= PART_BOUND,
                    forall|m: int|
                        0 <= m < out@.len() ==> (#[trigger] okeys@[m]).0 <= PART_BOUND
                            && okeys@[m].1 <= PART_BOUND,
                    forall|m: int|
                        0 <= m < j ==> score_ge_nums(
                            (#[trigger] okeys@[m]).0 as nat,
                            okeys@[m].1 as nat,
                            k.0 as nat,
                            k.1 as nat,
                        ),
                    stop ==> j < out@.len() && !score_ge_nums(
                        okeys@[j as int].0 as nat,
                        okeys@[j as int].1 as nat,
                        k.0 as nat,
                        k.1 as nat,
                    ),
                decreases out@.len() - j + if stop {
                    0int
                } else {
                    1int
                },
            {
                let kj = okeys[j];
                if score_ge_parts(kj.0, kj.1, k.0, k.1) {
                    j += 1;
                } else {
                    stop = true;
                }
            }
            // everything from position j on scores no higher than the new record
            proof {
                if j < out@.len() {
                    lemma_score_ge_total(
                        okeys@[j as int].0 as nat,
                        okeys@[j as int].1 as nat,
                        k.0 as nat,
                        k.1 as nat,
                    );
                    assert forall|m: int| j < m < out@.len() implies score_ge_nums(
                        k.0 as nat,
                        k.1 as nat,
                        (#[trigger] okeys@[m]).0 as nat,
                        okeys@[m].1 as nat,
                    ) by {
                        lemma_score_ge_trans(
                            k.0 as nat,
                            k.1 as nat,
                            okeys@[j as int].0 as nat,
                            okeys@[j as int].1 as nat,
                            okeys@[m].0 as nat,
                            okeys@[m].1 as nat,
                        );
                    }
                }
            }
            let ghost okeys_before = okeys@;
            out.insert(j, r);
            okeys.insert(j, k);
            proof {
                assert forall|x: int, y: int| 0 <= x < y < out@.len() implies score_ge_nums(
                    (#[trigger] okeys@[x]).0 as nat,
                    okeys@[x].1 as nat,
                    (#[trigger] okeys@[y]).0 as nat,
                    okeys@[y].1 as nat,
                ) by {
                    assert(okeys@ == okeys_before.insert(j as int, k));
                    if x < j && y == j {
                    } else if x == j && y > j {
                    } else if x < j && y > j {
                        assert(okeys@[x] == okeys_before[x]);
                        assert(okeys@[y] == okeys_before[y - 1]);
                    }
                }
                assert(recs_v(out@) =~= recs_v(out_before).insert(j as int, rec_v(r)));
                assert(recs_v(out@).to_multiset() == recs_v(out_before).to_multiset().insert(
                    rec_v(r),
                ));
                assert(recs_v(out@).to_multiset().add(recs_v(pending@).to_multiset()) =~= recs_v(
                    out_before,
                ).to_multiset().add(recs_v(pending_before).to_multiset()));
            }
        }
        self.records = out;
        proof {
            assert(recs_v(pending@).to_multiset() =~= Multiset::<RecV>::empty());
            assert(recs_v(self.records@).to_multiset() =~= orig_ms);
            assert forall|x: int, y: int|
                0 <= x < y < self@.recs.len() implies score_ge(
                lower_bytes_of(#[trigger] self@.recs[x].name),
                lower_bytes_of(#[trigger] self@.recs[y].name),
                lower_bytes_of(s@),
            ) by {
                assert(key_ok(okeys@[x], out@[x].student_id@, lq@));
                assert(key_ok(okeys@[y], out@[y].student_id@, lq@));
            }
        }
    }

    /// Tab-separated export: one header line, then per record its
    /// identifier (blank when none has been assigned), name, the sum of
    /// its marks and the marks themselves, tab-joined, each line ending in
    /// a newline.
    pub fn export_string(&self) -> (r: String)
        ensures
            r@ == export_of(self@.recs),
    {
        let mut out = str_chars("Record Id\tStudent Id\tTotal Marks\tItem Marks\n");
        let ghost header = out@;
        let mut i: usize = 0;
        while i < self.records.len()
            invariant
                i <= self.records@.len(),
                header == ("Record Id\tStudent Id\tTotal Marks\tItem Marks\n")@,
                out@ == header + export_lines(self@.recs.take(i as int)),
            decreases self.records@.len() - i,
        {
            let ghost line_base = out@;
            let rec = &self.records[i];
            if rec.record_id != NULL_RECORD_ID {
                push_dec_u64(rec.record_id as u64, &mut out);
            } else {
                proof {
                    assert(out@ =~= line_base + Seq::<char>::empty());
                }
            }
            out.push('\t');
            let mut name = str_chars(rec.student_id.as_str());
            out.append(&mut name);
            out.push('\t');
            let total = marks_total(&rec.marks);
            push_dec_u128(total, &mut out);
            out.push('\t');
            let ghost items_base = out@;
            let mut j: usize = 0;
            while j < rec.marks.len()
                invariant
                    j <= rec.marks@.len(),
                    out@ == items_base + marks_items(rec.marks@.take(j as int)),
                decreases rec.marks@.len() - j,
            {
                let ghost out_prev = out@;
                if j > 0 {
                    out.push('\t');
                }
                push_dec_u64(rec.marks[j] as u64, &mut out);
                proof {
                    let tk = rec.marks@.take(j as int + 1);
                    assert(tk.drop_last() =~= rec.marks@.take(j as int));
                    assert(tk.last() == rec.marks@[j as int]);
                    if j == 0 {
                        assert(out@ =~= items_base + marks_items(tk));
                    } else {
                        assert(marks_items(tk) == marks_items(rec.marks@.take(j as int)) + seq![
                            '\t',
                        ] + dec_of(rec.marks@[j as int] as nat));
                        assert(out@ =~= items_base + marks_items(tk));
                    }
                }
                j += 1;
            }
            out.push('\n');
            proof {
                assert(rec.marks@.take(rec.marks@.len() as int) =~= rec.marks@);
                let tk = self@.recs.take(i as int + 1);
                assert(tk.drop_last() =~= self@.recs.take(i as int));
                assert(tk.last() == self@.recs[i as int]);
                assert(self@.recs[i as int] == rec_v(self.records@[i as int]));
                assert(out@ =~= line_base + export_line(self@.recs[i as int]));
                assert(out@ =~= header + export_lines(tk));
            }
            i += 1;
        }
        proof {
            assert(self@.recs.take(self@.recs.len() as int) =~= self@.recs);
        }
        chars_to_string(&out)
    }

    /// Fixed-width rendering for on-screen display: per record a row with
    /// the identifier left-justified in four columns (blank when null), the
    /// name truncated and padded to twenty-four columns, and, when marks
    /// are present, the sum right-justified in ten columns followed by the
    /// literal marks list.
    pub fn display_string(&self) -> (r: String)
        ensures
            r@ == display_of(self@.recs),
    {
        let mut out: Vec<char> = Vec::new();
        let mut i: usize = 0;
        proof {
            assert(out@ =~= display_of(self@.recs.take(0)));
        }
        while i < self.records.len()
            invariant
                i <= self.records@.len(),
                out@ == display_of(self@.recs.take(i as int)),
            decreases self.records@.len() - i,
        {
            push_display_row(&self.records[i], &mut out);
            proof {
                let tk = self@.recs.take(i as int + 1);
                assert(tk.drop_last() =~= self@.recs.take(i as int));
                assert(tk.last() == self@.recs[i as int]);
                assert(self@.recs[i as int] == rec_v(self.records@[i as int]));
                assert(out@ =~= display_of(tk));
            }
            i += 1;
        }
        proof {
            assert(self@.recs.take(self@.recs.len() as int) =~= self@.recs);
        }
        chars_to_string(&out)
    }
}

/// Appends the identifier column: blank when null, else the identifier
/// left-justified in four columns.
fn push_id_col(record_id: u32, out: &mut Vec<char>)
    ensures
        final(out)@ == old(out)@ + (if record_id == 0 {
            spaces(4)
        } else {
            pad_right(dec_of(record_id as nat), 4)
        }),
{
    if record_id == 0 {
        push_spaces(4, out);
    } else {
        let mut tmp: Vec<char> = Vec::new();
        push_dec_u64(record_id as u64, &mut tmp);
        let w = tmp.len();
        if w < 4 {
            push_spaces(4 - w, &mut tmp);
        }
        proof {
            assert(tmp@ =~= pad_right(dec_of(record_id as nat), 4));
        }
        out.append(&mut tmp);
    }
}

/// Appends the name, truncated and padded to twenty-four columns.
fn push_name_col(student_id: &String, out: &mut Vec<char>)
    ensures
        final(out)@ == old(out)@ + pad_right(trunc(student_id@, 24), 24),
{
    let mut name = str_chars(student_id.as_str());
    let nl = name.len();
    if nl > 24 {
        name.truncate(24);
    }
    proof {
        assert(name@ =~= trunc(student_id@, 24));
    }
    out.append(&mut name);
    if nl < 24 {
        push_spaces(24 - nl, out);
    }
    proof {
        assert(out@ =~= old(out)@ + pad_right(trunc(student_id@, 24), 24));
    }
}

/// Appends the marks summary: nothing when there are no marks, else the
/// sum right-justified in ten columns and the literal marks list.
fn push_marks_summary(marks: &Vec<u32>, out: &mut Vec<char>)
    ensures
        final(out)@ == old(out)@ + (if marks@.len() == 0 {
            Seq::<char>::empty()
        } else {
            seq![' '] + pad_left(dec_of(marks_sum(marks@)), 10) + seq![' ', '=', ' ', '[']
                + display_items(marks@) + seq![']']
        }),
{
    if marks.len() == 0 {
        proof {
            assert(out@ =~= old(out)@ + Seq::<char>::empty());
        }
        return ;
    }
    out.push(' ');
    let total = marks_total(marks);
    let mut tmp: Vec<char> = Vec::new();
    push_dec_u128(total, &mut tmp);
    let w = tmp.len();
    if w < 10 {
        push_spaces(10 - w, out);
    }
    out.append(&mut tmp);
    proof {
        assert(out@ =~= old(out)@ + seq![' '] + pad_left(dec_of(marks_sum(marks@)), 10));
    }
    let ghost mid_base = out@;
    out.push(' ');
    out.push('=');
    out.push(' ');
    out.push('[');
    let ghost items_base = out@;
    proof {
        assert(items_base =~= mid_base + seq![' ', '=', ' ', '[']);
        assert(out@ =~= items_base + display_items(marks@.take(0)));
    }
    let mut j: usize = 0;
    while j < marks.len()
        invariant
            j <= marks@.len(),
            out@ == items_base + display_items(marks@.take(j as int)),
        decreases marks@.len() - j,
    {
        if j > 0 {
            out.push(',');
            out.push(' ');
        }
        push_dec_u64(marks[j] as u64, out);
        proof {
            let tk = marks@.take(j as int + 1);
            assert(tk.drop_last() =~= marks@.take(j as int));
            assert(tk.last() == marks@[j as int]);
            assert(out@ =~= items_base + display_items(tk));
        }
        j += 1;
    }
    out.push(']');
    proof {
        assert(marks@.take(marks@.len() as int) =~= marks@);
        assert(out@ =~= old(out)@ + (seq![' '] + pad_left(dec_of(marks_sum(marks@)), 10) + seq![
            ' ',
            '=',
            ' ',
            '[',
        ] + display_items(marks@) + seq![']']));
    }
}

/// Appends the display row of one record to `out`.
fn push_display_row(rec: &Record, out: &mut Vec<char>)
    ensures
        final(out)@ == old(out)@ + display_row(rec_v(*rec)),
{
    push_id_col(rec.record_id, out);
    push_name_col(&rec.student_id, out);
    push_marks_summary(&rec.marks, out);
    out.push('\n');
    proof {
        assert(out@ =~= old(out)@ + display_row(rec_v(*rec)));
    }
}

/// Sum of a marks sequence.
pub open spec fn marks_sum(marks: Seq<u32>) -> nat
    decreases marks.len(),
{
    if marks.len() == 0 {
        0
    } else {
        marks_sum(marks.drop_last()) + marks.last() as nat
    }
}

proof fn lemma_marks_sum_bound(marks: Seq<u32>)
    ensures
        marks_sum(marks) <= marks.len() * 0xFFFF_FFFF,
    decreases marks.len(),
{
    if marks.len() > 0 {
        lemma_marks_sum_bound(marks.drop_last());
    }
}

/// Sum of the marks of one record.
pub fn marks_total(marks: &Vec<u32>) -> (r: u128)
    ensures
        r == marks_sum(marks@),
{
    let mut acc: u128 = 0;
    let mut j: usize = 0;
    proof {
        assert(marks@.take(0) =~= Seq::<u32>::empty());
    }
    while j < marks.len()
        invariant
            j <= marks@.len(),
            acc == marks_sum(marks@.take(j as int)),
            acc <= j * 0xFFFF_FFFF,
        decreases marks@.len() - j,
    {
        proof {
            let tk = marks@.take(j as int + 1);
            assert(tk.drop_last() =~= marks@.take(j as int));
            assert(tk.last() == marks@[j as int]);
        }
        acc = acc + (marks[j] as u128);
        j += 1;
    }
    proof {
        assert(marks@.take(marks@.len() as int) =~= marks@);
    }
    acc
}

/// Marks joined by tabs.
pub open spec fn marks_items(marks: Seq<u32>) -> Seq<char>
    decreases marks.len(),
{
    if marks.len() == 0 {
        Seq::<char>::empty()
    } else if marks.len() == 1 {
        dec_of(marks[0] as nat)
    } else {
        marks_items(marks.drop_last()) + seq!['\t'] + dec_of(marks.last() as nat)
    }
}

/// One exported line: identifier (blank when null), name, total, and the
/// tab-joined marks.
pub open spec fn export_line(r: RecV) -> Seq<char> {
    (if r.id == NULL_RECORD_ID {
        Seq::<char>::empty()
    } else {
        dec_of(r.id as nat)
    }) + seq!['\t'] + r.name + seq!['\t'] + dec_of(marks_sum(r.marks)) + seq![
        '\t',
    ] + marks_items(r.marks) + seq!['\n']
}

pub open spec fn export_lines(recs: Seq<RecV>) -> Seq<char>
    decreases recs.len(),
{
    if recs.len() == 0 {
        Seq::<char>::empty()
    } else {
        export_lines(recs.drop_last()) + export_line(recs.last())
    }
}

/// The full export: a fixed header line, then one line per record in store
/// order.
pub open spec fn export_of(recs: Seq<RecV>) -> Seq<char> {
    ("Record Id\tStudent Id\tTotal Marks\tItem Marks\n")@ + export_lines(recs)
}

/// Marks joined by a comma and a space, as the display row shows them.
pub open spec fn display_items(marks: Seq<u32>) -> Seq<char>
    decreases marks.len(),
{
    if marks.len() == 0 {
        Seq::<char>::empty()
    } else if marks.len() == 1 {
        dec_of(marks[0] as nat)
    } else {
        display_items(marks.drop_last()) + seq![',', ' '] + dec_of(marks.last() as nat)
    }
}

/// One display row: identifier in four columns (blank when null), name in
/// twenty-four columns, and the marks summary when marks are present.
pub open spec fn display_row(r: RecV) -> Seq<char> {
    (if r.id == 0 {
        spaces(4)
    } else {
        pad_right(dec_of(r.id as nat), 4)
    }) + pad_right(trunc(r.name, 24), 24) + (if r.marks.len() == 0 {
        Seq::<char>::empty()
    } else {
        seq![' '] + pad_left(dec_of(marks_sum(r.marks)), 10) + seq![' ', '=', ' ', '[']
            + display_items(r.marks) + seq![']']
    }) + seq!['\n']
}

pub open spec fn display_of(recs: Seq<RecV>) -> Seq<char>
    decreases recs.len(),
{
    if recs.len() == 0 {
        Seq::<char>::empty()
    } else {
        display_of(recs.drop_last()) + display_row(recs.last())
    }
}

/// Builds a store from a block of text: one student per line, tabs in a
/// name replaced by spaces.
pub fn init_marks_records(s: &str) -> (r: MarksRecords)
    ensures
        r@.next_id == 1,
        r@.recs.len() == lines_of(s@).len(),
        forall|i: int|
            0 <= i < lines_of(s@).len() ==> r@.recs[i] == (RecV {
                id: NULL_RECORD_ID,
                name: tabs_to_spaces(#[trigger] lines_of(s@)[i]),
                marks: Seq::<u32>::empty(),
            }),
{
    let cs = str_chars(s);
    let mut mr = MarksRecords::new();
    let ghost mut done: Seq<Seq<char>> = Seq::empty();
    let mut pos: usize = 0;
    proof {
        assert(cs@.skip(0) =~= cs@);
        assert(Seq::<Seq<char>>::empty() + lines_of(cs@) =~= lines_of(cs@));
    }
    while pos < cs.len()
        invariant
            pos <= cs@.len(),
            cs@ == s@,
            lines_of(s@) == done + lines_of(cs@.skip(pos as int)),
            mr@.next_id == 1,
            mr@.recs.len() == done.len(),
            forall|i: int|
                0 <= i < done.len() ==> mr@.recs[i] == (RecV {
                    id: NULL_RECORD_ID,
                    name: tabs_to_spaces(#[trigger] done[i]),
                    marks: Seq::<u32>::empty(),
                }),
        decreases cs@.len() - pos,
    {
        let ghost suf = cs@.skip(pos as int);
        let mut e: usize = pos;
        let mut found = false;
        while !found && e < cs.len()
            invariant
                pos <= e <= cs@.len(),
                found ==> e < cs@.len() && cs@[e as int] == '\n',
                forall|m: int| pos <= m < e ==> cs@[m] != '\n',
            decreases cs@.len() - e + if found {
                0int
            } else {
                1int
            },
        {
            if cs[e] == '\n' {
                found = true;
            } else {
                e += 1;
            }
        }
        proof {
            if found {
                assert forall|m: int| 0 <= m < e - pos implies suf[m] != '\n' by {
                    assert(suf[m] == cs@[pos + m]);
                }
                assert(suf[e - pos] == cs@[e as int]);
                lemma_first_nl_at(suf, e - pos);
            } else {
                assert(e == cs@.len());
                assert forall|m: int| 0 <= m < suf.len() implies suf[m] != '\n' by {
                    assert(suf[m] == cs@[pos + m]);
                }
                lemma_first_nl_none(suf);
            }
        }
        let mut line: Vec<char> = Vec::new();
        let mut t: usize = pos;
        while t < e
            invariant
                pos <= t <= e <= cs@.len(),
                line@ == cs@.subrange(pos as int, t as int),
            decreases e - t,
        {
            line.push(cs[t]);
            proof {
                assert(line@ =~= cs@.subrange(pos as int, t as int + 1));
            }
            t += 1;
        }
        let ghost raw_line = line@;
        if found && line.len() > 0 && line[line.len() - 1] == '\r' {
            let ll = line.len();
            line.truncate(ll - 1);
            proof {
                assert(line@ =~= raw_line.drop_last());
            }
        }
        let ghost this_line = line@;
        let mut name: Vec<char> = Vec::new();
        let mut t2: usize = 0;
        while t2 < line.len()
            invariant
                t2 <= line@.len(),
                name@.len() == t2,
                forall|m: int|
                    0 <= m < t2 ==> name@[m] == (if line@[m] == '\t' {
                        ' '
                    } else {
                        line@[m]
                    }),
            decreases line@.len() - t2,
        {
            let c = line[t2];
            if c == '\t' {
                name.push(' ');
            } else {
                name.push(c);
            }
            t2 += 1;
        }
        proof {
            assert(name@ =~= tabs_to_spaces(this_line));
        }
        mr.add_student(crate::text::chars_to_string(&name));
        proof {
            if found {
                assert(suf.take(e - pos) =~= raw_line);
                assert(this_line == strip_cr(suf.take(e - pos)));
                assert(suf.skip(e - pos + 1) =~= cs@.skip(e as int + 1));
                assert(lines_of(suf) == seq![this_line] + lines_of(cs@.skip(e as int + 1)));
            } else {
                assert(suf =~= raw_line);
                assert(first_nl(suf) < 0);
                assert(lines_of(suf) == seq![this_line]);
                assert(cs@.skip(cs@.len() as int) =~= Seq::<char>::empty());
                assert(lines_of(suf) =~= seq![this_line] + lines_of(
                    cs@.skip(cs@.len() as int),
                ));
            }
            done = done.push(this_line);
            assert(lines_of(s@) =~= done + lines_of(
                cs@.skip(if found {
                    e as int + 1
                } else {
                    cs@.len() as int
                }),
            ));
        }
        pos = if found {
            e + 1
        } else {
            cs.len()
        };
    }
    proof {
        assert(cs@.skip(cs@.len() as int) =~= Seq::<char>::empty());
        assert(lines_of(s@) =~= done);
    }
    mr
}

} // verus!
