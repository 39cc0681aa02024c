use fuzzy_match::{parse_input, CommandError, Input};

#[test]
fn escapes() {
    assert!(matches!(parse_input(":export"), Ok(Input::Export)));
    assert!(matches!(parse_input(":clear"), Ok(Input::Clear)));
    assert_eq!(parse_input(":bogus").unwrap_err(), CommandError::UnknownCommand);
    assert_eq!(parse_input(":").unwrap_err(), CommandError::UnknownCommand);
}

#[test]
fn queries() {
    match parse_input("student A") {
        Ok(Input::Query(q)) => assert_eq!(q, "student A"),
        _ => panic!("expected a query"),
    }
    match parse_input("") {
        Ok(Input::Query(q)) => assert_eq!(q, ""),
        _ => panic!("expected a query"),
    }
}

#[test]
fn marks_assignment() {
    match parse_input("anything=1 2 3") {
        Ok(Input::MarksRecord(ms)) => assert_eq!(ms, vec![1, 2, 3]),
        _ => panic!("expected marks"),
    }
    match parse_input("x=  10\t20  ") {
        Ok(Input::MarksRecord(ms)) => assert_eq!(ms, vec![10, 20]),
        _ => panic!("expected marks"),
    }
    match parse_input("x=") {
        Ok(Input::MarksRecord(ms)) => assert!(ms.is_empty()),
        _ => panic!("expected marks"),
    }
    match parse_input("x=4294967295") {
        Ok(Input::MarksRecord(ms)) => assert_eq!(ms, vec![4294967295]),
        _ => panic!("expected marks"),
    }
}

#[test]
fn signed_and_unicode_spaced_marks() {
    match parse_input("x=+5") {
        Ok(Input::MarksRecord(ms)) => assert_eq!(ms, vec![5]),
        _ => panic!("expected marks"),
    }
    match parse_input("x=+0 17 +003") {
        Ok(Input::MarksRecord(ms)) => assert_eq!(ms, vec![0, 17, 3]),
        _ => panic!("expected marks"),
    }
    // any Unicode whitespace separates tokens, as str::parse consumers
    // fed by split_whitespace saw it
    match parse_input("x=1\u{a0}2\u{2003}3") {
        Ok(Input::MarksRecord(ms)) => assert_eq!(ms, vec![1, 2, 3]),
        _ => panic!("expected marks"),
    }
    assert_eq!(parse_input("x=+").unwrap_err(), CommandError::MarksParseError);
    assert_eq!(parse_input("x=++5").unwrap_err(), CommandError::MarksParseError);
    assert_eq!(parse_input("x=5+").unwrap_err(), CommandError::MarksParseError);
}

#[test]
fn bad_marks() {
    assert_eq!(parse_input("x=1 b 3").unwrap_err(), CommandError::MarksParseError);
    assert_eq!(parse_input("x=1=2").unwrap_err(), CommandError::MarksParseError);
    assert_eq!(parse_input("x=4294967296").unwrap_err(), CommandError::MarksParseError);
    assert_eq!(parse_input("x=-1").unwrap_err(), CommandError::MarksParseError);
}
