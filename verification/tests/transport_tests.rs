use fuzzy_match::{MarksRecords, TransportError};

#[test]
fn serialization() {
    let mut marks_records = MarksRecords::new();
    marks_records.add_student(String::from("student A"));
    marks_records.set_marks_at_top(vec![1, 1, 1]).unwrap();
    marks_records.add_student(String::from("student B"));
    marks_records.sort_with("B");
    marks_records.set_marks_at_top(vec![2, 2, 2]).unwrap();
    let serialized = marks_records.to_transport_string().unwrap();
    let deserialized = MarksRecords::from_transport_string(&serialized).unwrap();
    assert_eq!(marks_records.next_record_id, deserialized.next_record_id);
    assert_eq!(marks_records.records.len(), deserialized.records.len());
    for (a, b) in marks_records.records.iter().zip(deserialized.records.iter()) {
        assert_eq!(a.record_id, b.record_id);
        assert_eq!(a.student_id, b.student_id);
        assert_eq!(a.marks, b.marks);
    }
}

#[test]
fn empty_store_round_trip() {
    let marks_records = MarksRecords::new();
    let serialized = marks_records.to_transport_string().unwrap();
    let deserialized = MarksRecords::from_transport_string(&serialized).unwrap();
    assert!(deserialized.is_empty());
    assert_eq!(deserialized.next_record_id, 1);
}

#[test]
fn awkward_names_round_trip() {
    let mut marks_records = MarksRecords::new();
    marks_records.add_student(String::from("tab\tand\nnewline"));
    marks_records.add_student(String::from("Zoë 🎓"));
    marks_records.add_student(String::from(""));
    marks_records.set_marks_at_top(vec![0, 4294967295]).unwrap();
    let serialized = marks_records.to_transport_string().unwrap();
    let deserialized = MarksRecords::from_transport_string(&serialized).unwrap();
    for (a, b) in marks_records.records.iter().zip(deserialized.records.iter()) {
        assert_eq!(a.record_id, b.record_id);
        assert_eq!(a.student_id, b.student_id);
        assert_eq!(a.marks, b.marks);
    }
}

#[test]
fn malformed_text_is_rejected() {
    for bad in [
        "",
        "short",
        "not-a-number-not-a-number-not-a-number!!",
        "0000000000000000000100000000000000000001",
    ] {
        match MarksRecords::from_transport_string(bad) {
            Err(TransportError::DeserializationError { input, .. }) => assert_eq!(input, bad),
            _ => panic!("malformed text was accepted"),
        }
    }
}

#[test]
fn trailing_text_is_rejected() {
    let marks_records = MarksRecords::new();
    let mut serialized = marks_records.to_transport_string().unwrap();
    serialized.push('x');
    assert!(MarksRecords::from_transport_string(&serialized).is_err());
}
