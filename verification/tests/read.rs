use serde_ccl::de::{IoRead, Read};
use serde_ccl::Position;

#[test]
fn a_reader_hands_out_each_byte_once() {
    let mut reader = IoRead::new(b"ab\nc");
    assert_eq!(reader.position(), Position { line: 1, column: 0 });
    assert_eq!(reader.peek_position(), Position { line: 1, column: 1 });
    assert_eq!(reader.peek(), Some(b'a'));
    assert_eq!(reader.peek(), Some(b'a'));
    assert_eq!(reader.position(), Position { line: 1, column: 0 });
    assert_eq!(reader.next(), Some(b'a'));
    assert_eq!(reader.position(), Position { line: 1, column: 1 });
    assert_eq!(reader.peek_position(), Position { line: 1, column: 2 });
    assert_eq!(reader.next(), Some(b'b'));
    assert_eq!(reader.peek(), Some(b'\n'));
    assert_eq!(reader.peek_position(), Position { line: 1, column: 3 });
    assert_eq!(reader.next(), Some(b'\n'));
    assert_eq!(reader.position(), Position { line: 2, column: 0 });
    assert_eq!(reader.peek_position(), Position { line: 2, column: 1 });
    assert_eq!(reader.next(), Some(b'c'));
    assert_eq!(reader.peek(), None);
    assert_eq!(reader.next(), None);
    assert_eq!(reader.next(), None);
    assert_eq!(reader.peek(), None);
    assert_eq!(reader.position(), Position { line: 2, column: 1 });
    assert_eq!(reader.peek_position(), Position { line: 2, column: 2 });
}

#[test]
fn a_reader_of_nothing_is_at_its_end() {
    let mut reader = IoRead::new(b"");
    assert_eq!(reader.peek(), None);
    assert_eq!(reader.next(), None);
    assert_eq!(reader.peek_position(), Position { line: 1, column: 1 });
}
