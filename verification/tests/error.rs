use serde_ccl::{Error, ErrorCode, ErrorKind, Position};

#[test]
fn each_code_has_its_kind() {
    assert_eq!(ErrorCode::ExpectedEq.kind(), ErrorKind::Syntax);
    assert_eq!(ErrorCode::InvalidUtf8.kind(), ErrorKind::Syntax);
    assert_eq!(ErrorCode::Message("no".to_owned()).kind(), ErrorKind::Semantic);
    assert_eq!(ErrorCode::InvalidBool.kind(), ErrorKind::Semantic);
    assert_eq!(ErrorCode::InvalidInt.kind(), ErrorKind::Semantic);
    assert_eq!(ErrorCode::InvalidFloat.kind(), ErrorKind::Semantic);
    assert_eq!(ErrorCode::InvalidChar.kind(), ErrorKind::Semantic);
}

#[test]
fn each_code_has_its_description() {
    assert_eq!(ErrorCode::ExpectedEq.description(), "expected equal sign");
    assert_eq!(ErrorCode::InvalidUtf8.description(), "invalid UTF-8");
    assert_eq!(ErrorCode::Message("no such variant".to_owned()).description(), "no such variant");
    assert_eq!(ErrorCode::InvalidBool.description(), "invalid bool");
    assert_eq!(ErrorCode::InvalidInt.description(), "invalid int");
    assert_eq!(ErrorCode::InvalidFloat.description(), "invalid float");
    assert_eq!(ErrorCode::InvalidChar.description(), "invalid char");
}

#[test]
fn an_error_holds_its_code_and_position() {
    let error = Error::new(ErrorCode::InvalidInt, Position { line: 3, column: 7 });
    assert_eq!(error.code(), &ErrorCode::InvalidInt);
    assert_eq!(error.kind(), ErrorKind::Semantic);
    assert_eq!(error.position(), Position { line: 3, column: 7 });
    assert_eq!(error.line(), 3);
    assert_eq!(error.column(), 7);
    assert_eq!(error.description(), "invalid int");

    let moved = error.with_position(Position { line: 1, column: 2 });
    assert_eq!(moved.code(), &ErrorCode::InvalidInt);
    assert_eq!((moved.line(), moved.column()), (1, 2));
}

#[test]
fn a_custom_error_has_no_position() {
    let error = Error::custom("unknown field".to_owned());
    assert_eq!(error.code(), &ErrorCode::Message("unknown field".to_owned()));
    assert_eq!(error.kind(), ErrorKind::Semantic);
    assert!(error.position().is_default());
    assert_eq!((error.line(), error.column()), (0, 0));
}

#[test]
fn the_default_position_is_unset() {
    assert!(Position::default().is_default());
    assert!(Position { line: 0, column: 0 }.is_default());
    assert!(!Position { line: 1, column: 0 }.is_default());
    assert!(!Position { line: 0, column: 1 }.is_default());
    assert!(!Position { line: 1, column: 1 }.is_default());
}
