use fuzzy_match::{init_marks_records, MarksRecords, StoreError, FIRST_RECORD_ID, NULL_RECORD_ID};

#[test]
fn counts() {
    let mut marks_records = MarksRecords::new();
    assert_eq!(0, marks_records.len());
    assert!(marks_records.is_empty());

    marks_records.add_student(String::from("student A"));
    marks_records.add_student(String::from("student B"));
    assert_eq!(2, marks_records.len());
    assert!(!marks_records.is_empty());

    marks_records.records.clear();
    assert_eq!(0, marks_records.len());
    assert!(marks_records.is_empty());
}

#[test]
fn update() {
    let mut marks_records = MarksRecords::new();
    marks_records.add_student(String::from("student A"));
    marks_records.add_student(String::from("student B"));
    marks_records.set_marks_at_top(vec![1, 1, 1]).unwrap();
    assert!(marks_records.records[0].record_id == FIRST_RECORD_ID);
    assert!(marks_records.records[0].student_id == "student A");
    assert!(marks_records.records[1].record_id == NULL_RECORD_ID);

    marks_records.sort_with("B");
    assert!(marks_records.records[0].student_id == "student B");
    marks_records.set_marks_at_top(vec![2, 2, 2]).unwrap();
    assert!(marks_records.records[0].marks != marks_records.records[1].marks);
    assert!(marks_records.records[0].record_id == FIRST_RECORD_ID + 1);

    marks_records.sort_with("A");
    assert!(marks_records.records[0].student_id == "student A");
    marks_records.set_marks_at_top(vec![2, 2, 2]).unwrap();
    assert_eq!(marks_records.records[0].marks, marks_records.records[1].marks);
    assert_eq!(marks_records.records[0].marks, vec![2, 2, 2]);
    assert!(marks_records.records[0].record_id == FIRST_RECORD_ID);

    marks_records.set_marks_at_top(vec![3, 3, 3]).unwrap();
    assert_eq!(marks_records.records[0].marks, vec![3, 3, 3]);
    assert_eq!(marks_records.records[1].marks, vec![2, 2, 2]);
    assert!(marks_records.records[1].record_id == FIRST_RECORD_ID + 1);
}

#[test]
fn empty_store_rejects_marks() {
    let mut marks_records = MarksRecords::new();
    let r = marks_records.set_marks_at_top(vec![1, 2, 3]);
    assert_eq!(r, Err(StoreError::EmptyStore));
    assert!(marks_records.is_empty());
}

#[test]
fn clear_then_add_gives_fresh_record() {
    let mut marks_records = MarksRecords::new();
    marks_records.add_student(String::from("student A"));
    marks_records.set_marks_at_top(vec![9]).unwrap();
    marks_records.clear();
    assert!(marks_records.is_empty());
    marks_records.add_student(String::from("student C"));
    assert_eq!(marks_records.records[0].record_id, NULL_RECORD_ID);
    assert!(marks_records.records[0].marks.is_empty());
    assert_eq!(marks_records.records[0].student_id, "student C");
}

#[test]
fn identifiers_not_reused_after_clear() {
    let mut marks_records = MarksRecords::new();
    marks_records.add_student(String::from("student A"));
    marks_records.set_marks_at_top(vec![1]).unwrap();
    marks_records.clear();
    marks_records.add_student(String::from("student B"));
    marks_records.set_marks_at_top(vec![2]).unwrap();
    assert_eq!(marks_records.records[0].record_id, FIRST_RECORD_ID + 1);
}

#[test]
fn export_text() {
    let mut marks_records = MarksRecords::new();
    marks_records.add_student(String::from("student A"));
    marks_records.add_student(String::from("student B"));
    marks_records.set_marks_at_top(vec![1, 1, 1]).unwrap();
    marks_records.sort_with("B");
    marks_records.set_marks_at_top(vec![2, 2, 2]).unwrap();
    marks_records.sort_with("A");
    assert_eq!(
        marks_records.export_string(),
        "Record Id\tStudent Id\tTotal Marks\tItem Marks\n\
         1\tstudent A\t3\t1\t1\t1\n\
         2\tstudent B\t6\t2\t2\t2\n"
    );
}

#[test]
fn export_without_marks() {
    let mut marks_records = MarksRecords::new();
    marks_records.add_student(String::from("student A"));
    assert_eq!(
        marks_records.export_string(),
        "Record Id\tStudent Id\tTotal Marks\tItem Marks\n\tstudent A\t0\t\n"
    );
}

#[test]
fn display_rows() {
    let mut marks_records = MarksRecords::new();
    marks_records.add_student(String::from("student A"));
    marks_records.add_student(String::from("student B"));
    marks_records.set_marks_at_top(vec![1, 1, 1]).unwrap();
    let expected = format!(
        "{:<4.4}{:24.24} {:>10} = {:?}\n    {:24.24}\n",
        1,
        "student A",
        3,
        vec![1, 1, 1],
        "student B"
    );
    assert_eq!(marks_records.display_string(), expected);
}

#[test]
fn init_from_student_list() {
    let marks_records = init_marks_records("student A\nstudent\tB\r\nstudent C");
    assert_eq!(3, marks_records.len());
    assert_eq!(marks_records.records[0].student_id, "student A");
    assert_eq!(marks_records.records[1].student_id, "student B");
    assert_eq!(marks_records.records[2].student_id, "student C");
    assert!(marks_records.records.iter().all(|r| r.record_id == NULL_RECORD_ID));
    assert_eq!(0, init_marks_records("").len());
}
