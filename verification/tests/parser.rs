use serde_ccl::de::IoRead;
use serde_ccl::parser::{
    trim, IndentState, Parser, ReadParser, Reference, SliceParser, StrParser,
};
use serde_ccl::position::position_of_index;
use serde_ccl::{ErrorCode, ErrorKind, Position};

#[test]
fn trim_takes_blanks_off_both_ends() {
    assert_eq!(trim(b"  a b \n"), b"a b");
    assert_eq!(trim(b"\n\n x"), b"x");
    assert_eq!(trim(b"x"), b"x");
    assert_eq!(trim(b" \n "), b"");
    assert_eq!(trim(b""), b"");
    assert_eq!(trim(b"\ta\t"), b"\ta\t");
}

#[test]
fn position_of_index_counts_lines_and_columns() {
    let data = b"ab\ncd\n\nef";
    assert_eq!(position_of_index(data, 0), Position { line: 1, column: 1 });
    assert_eq!(position_of_index(data, 1), Position { line: 1, column: 2 });
    assert_eq!(position_of_index(data, 2), Position { line: 1, column: 3 });
    assert_eq!(position_of_index(data, 3), Position { line: 2, column: 1 });
    assert_eq!(position_of_index(data, 5), Position { line: 2, column: 3 });
    assert_eq!(position_of_index(data, 6), Position { line: 3, column: 1 });
    assert_eq!(position_of_index(data, 7), Position { line: 4, column: 1 });
    assert_eq!(position_of_index(data, 9), Position { line: 4, column: 3 });
    assert_eq!(position_of_index(b"", 0), Position { line: 1, column: 1 });
}

#[test]
fn skip_whitespace_reports_the_indentation() {
    let mut parser = SliceParser::new(b"   a\n\n  b =\n   ");
    assert_eq!(parser.skip_whitespace_raw(), IndentState::Start(3));
    assert_eq!(parser.skip_whitespace_raw(), IndentState::Start(3));

    let mut parser = SliceParser::new(b"a =   b\n\n    c = 1\n  \n");
    assert_eq!(parser.parse_key_raw().unwrap(), (0, &b"a"[..]));
    assert_eq!(parser.skip_whitespace_raw(), IndentState::Middle);
    assert_eq!(parser.parse_value_raw(), (6, &b"b\n\n    c = 1"[..]));
    assert_eq!(parser.skip_whitespace_raw(), IndentState::Eof);
    assert_eq!(parser.skip_whitespace_raw(), IndentState::Eof);

    let mut parser = SliceParser::new(b"");
    assert_eq!(parser.skip_whitespace_raw(), IndentState::Eof);

    let mut parser = SliceParser::new(b"a =\n\n  \n b");
    parser.parse_key_raw().unwrap();
    assert_eq!(parser.skip_whitespace_raw(), IndentState::Start(1));
}

#[test]
fn keys_are_trimmed_and_may_be_empty() {
    let mut parser = SliceParser::new(b"  some key  = 1\n= 2\n =3");
    assert_eq!(parser.parse_key_raw().unwrap(), (2, &b"some key"[..]));
    assert_eq!(parser.last_key_indent(), 2);
    assert_eq!(parser.parse_value_raw(), (14, &b"1"[..]));
    assert_eq!(parser.parse_key_raw().unwrap(), (16, &b""[..]));
    assert_eq!(parser.last_key_indent(), 0);
    assert_eq!(parser.last_key_bookmark(), 16);
    assert_eq!(parser.parse_value_raw(), (18, &b"2\n =3"[..]));

    let mut parser = SliceParser::new(b" = 2\n =3");
    assert_eq!(parser.parse_key_raw().unwrap(), (1, &b""[..]));
    assert_eq!(parser.last_key_indent(), 1);
    assert_eq!(parser.parse_value_raw(), (3, &b"2"[..]));
    assert_eq!(parser.parse_key_raw().unwrap(), (6, &b""[..]));
    assert_eq!(parser.parse_value_raw(), (7, &b"3"[..]));
    assert_eq!(parser.last_key_bookmark(), 6);
}

#[test]
fn a_key_needs_an_equal_sign_on_its_line() {
    let mut parser = SliceParser::new(b"a = 1\nbcd\ne = 2\n");
    parser.parse_key_raw().unwrap();
    parser.parse_value_raw();
    let error = parser.parse_key_raw().unwrap_err();
    assert_eq!(error.code(), &ErrorCode::ExpectedEq);
    assert_eq!(error.kind(), ErrorKind::Syntax);
    assert_eq!((error.line(), error.column()), (2, 4));

    let mut parser = SliceParser::new(b"  abc");
    let error = parser.parse_key_raw().unwrap_err();
    assert_eq!(error.code(), &ErrorCode::ExpectedEq);
    assert_eq!((error.line(), error.column()), (1, 6));

    let mut parser = SliceParser::new(b"");
    let error = parser.parse_key_raw().unwrap_err();
    assert_eq!(error.code(), &ErrorCode::ExpectedEq);
    assert_eq!((error.line(), error.column()), (1, 1));
}

#[test]
fn a_value_runs_over_the_lines_that_are_indented_deeper() {
    let data = b"a =\n  b = 1\n\n   c\n d\ne = 2\n";
    let mut parser = SliceParser::new(data);
    parser.parse_key_raw().unwrap();
    let (start, value) = parser.parse_value_raw();
    assert_eq!(value, b"b = 1\n\n   c\n d");
    assert_eq!(start, 6);
    assert_eq!(parser.skip_whitespace_raw(), IndentState::Start(0));
    assert_eq!(parser.parse_key_raw().unwrap(), (21, &b"e"[..]));
    assert_eq!(parser.parse_value_raw(), (25, &b"2"[..]));

    let mut parser = SliceParser::new(b"  a = x\n  b = y\n");
    parser.parse_key_raw().unwrap();
    assert_eq!(parser.parse_value_raw(), (6, &b"x"[..]));
    parser.parse_key_raw().unwrap();
    assert_eq!(parser.parse_value_raw(), (14, &b"y"[..]));
}

#[test]
fn an_empty_value_lies_where_the_value_stops() {
    let mut parser = SliceParser::new(b"k =\n");
    parser.parse_key_raw().unwrap();
    assert_eq!(parser.parse_value_raw(), (4, &b""[..]));

    let mut parser = SliceParser::new(b"k = \nl = 1");
    parser.parse_key_raw().unwrap();
    assert_eq!(parser.parse_value_raw(), (5, &b""[..]));

    let mut parser = SliceParser::new(b"k =");
    parser.parse_key_raw().unwrap();
    assert_eq!(parser.parse_value_raw(), (3, &b""[..]));
}

#[test]
fn text_that_is_not_utf8_is_reported_at_the_first_bad_byte() {
    let mut scratch = Vec::new();
    let mut parser = SliceParser::new(b"k = 1\nl = ab\xffcd\n");
    assert_eq!(parser.parse_key(&mut scratch).unwrap().1.as_str(), "k");
    assert_eq!(parser.parse_value(&mut scratch).unwrap().1.as_str(), "1");
    assert_eq!(parser.parse_key(&mut scratch).unwrap().1.as_str(), "l");
    let error = parser.parse_value(&mut scratch).unwrap_err();
    assert_eq!(error.code(), &ErrorCode::InvalidUtf8);
    assert_eq!(error.kind(), ErrorKind::Syntax);
    assert_eq!((error.line(), error.column()), (2, 7));

    let mut parser = SliceParser::new(b"\xe2\x82 = 1");
    let error = parser.parse_key(&mut scratch).unwrap_err();
    assert_eq!(error.code(), &ErrorCode::InvalidUtf8);
    assert_eq!((error.line(), error.column()), (1, 1));

    let bytes = b"k = 1\nl = ab\xffcd\n";
    let mut parser = ReadParser::new(IoRead::new(bytes));
    parser.parse_key(&mut scratch).unwrap();
    parser.parse_value(&mut scratch).unwrap();
    parser.parse_key(&mut scratch).unwrap();
    let error = parser.parse_value(&mut scratch).unwrap_err();
    assert_eq!(error.code(), &ErrorCode::InvalidUtf8);
    assert_eq!((error.line(), error.column()), (2, 7));
}

#[test]
fn text_of_more_than_one_byte_per_character_is_borrowed_whole() {
    let mut scratch = Vec::new();
    let mut parser = StrParser::new("schlüssel = wert äöü €\nж = 😀\n");
    let (bookmark, key) = parser.parse_key(&mut scratch).unwrap();
    assert_eq!(key.as_str(), "schlüssel");
    assert_eq!(parser.position_of_bookmark(bookmark), Position { line: 1, column: 1 });
    let (bookmark, value) = parser.parse_value(&mut scratch).unwrap();
    assert_eq!(value.as_str(), "wert äöü €");
    assert_eq!(parser.position_of_bookmark(bookmark), Position { line: 1, column: 14 });
    assert_eq!(parser.parse_key(&mut scratch).unwrap().1.as_str(), "ж");
    assert_eq!(parser.parse_value(&mut scratch).unwrap().1.as_str(), "😀");
}

fn spans<'a, P: Parser<'a>>(mut parser: P) -> Vec<(String, Position, String, Position, usize)> {
    let mut scratch = Vec::new();
    let mut found = Vec::new();
    while parser.skip_whitespace(&mut scratch) != IndentState::Eof {
        let (bookmark, key) = parser.parse_key(&mut scratch).unwrap();
        let key = key.as_str().to_owned();
        let key_at = parser.position_of_bookmark(bookmark);
        let indent = parser.last_key_indent();
        assert_eq!(parser.position_of_bookmark(parser.last_key_bookmark()), key_at);
        let (bookmark, value) = parser.parse_value(&mut scratch).unwrap();
        let value = value.as_str().to_owned();
        let value_at = parser.position_of_bookmark(bookmark);
        found.push((key, key_at, value, value_at, indent));
    }
    found
}

const DOCUMENTS: [&str; 8] = [
    "",
    "a = 1",
    "a = 1\n",
    "\n\n  a = 1  \n  b =\n    c = 2\n\n    d = 3\n  e = 4\n",
    "k =\n",
    "k =   \n\n\n",
    "= 0\n= 1\n  x\n y\nz = 5",
    "list =\n  = a\n  = b\nother = ü\n   more ü \n",
];

#[test]
fn the_parsers_agree() {
    for document in DOCUMENTS {
        let by_str = spans(StrParser::new(document));
        let by_slice = spans(SliceParser::new(document.as_bytes()));
        let by_read = spans(ReadParser::new(IoRead::new(document.as_bytes())));
        assert_eq!(by_str, by_slice);
        assert_eq!(by_read, by_slice);
    }
}

#[test]
fn the_parsers_find_keys_values_and_places() {
    let found = spans(StrParser::new(DOCUMENTS[3]));
    let expected = vec![
        ("a", (3, 3), "1", (3, 7), 2),
        ("b", (4, 3), "c = 2\n\n    d = 3", (5, 5), 2),
        ("e", (8, 3), "4", (8, 7), 2),
    ];
    assert_eq!(found.len(), expected.len());
    for (found, expected) in found.iter().zip(expected) {
        assert_eq!(found.0, expected.0);
        assert_eq!((found.1.line, found.1.column), expected.1);
        assert_eq!(found.2, expected.2);
        assert_eq!((found.3.line, found.3.column), expected.3);
        assert_eq!(found.4, expected.4);
    }
}

#[test]
fn the_read_parser_fails_as_the_others_do() {
    for document in ["a", "a = 1\n  b\nc", "a = 1\nb\n"] {
        let mut scratch = Vec::new();
        let mut slice = SliceParser::new(document.as_bytes());
        let mut read = ReadParser::new(IoRead::new(document.as_bytes()));
        loop {
            let expected = slice.parse_key(&mut scratch).map(|found| found.1.as_str().to_owned());
            let found = read.parse_key(&mut scratch).map(|found| found.1.as_str().to_owned());
            assert_eq!(found, expected);
            if expected.is_err() {
                break;
            }
            let expected = slice.parse_value(&mut scratch).map(|found| found.1.as_str().to_owned());
            let found = read.parse_value(&mut scratch).map(|found| found.1.as_str().to_owned());
            assert_eq!(found, expected);
        }
    }
}

#[test]
fn text_is_borrowed_from_memory_and_copied_from_a_reader() {
    let document = "key = value\n  more\n";
    let mut scratch = Vec::new();
    let mut parser = StrParser::new(document);
    assert!(matches!(parser.parse_key(&mut scratch).unwrap().1, Reference::Borrowed("key")));
    assert!(matches!(
        parser.parse_value(&mut scratch).unwrap().1,
        Reference::Borrowed("value\n  more")
    ));
    let mut parser = SliceParser::new(document.as_bytes());
    assert!(matches!(parser.parse_key(&mut scratch).unwrap().1, Reference::Borrowed("key")));
    assert!(matches!(
        parser.parse_value(&mut scratch).unwrap().1,
        Reference::Borrowed("value\n  more")
    ));
    let mut parser = ReadParser::new(IoRead::new(document.as_bytes()));
    assert!(matches!(parser.parse_key(&mut scratch).unwrap().1, Reference::Copied("key")));
    assert!(matches!(
        parser.parse_value(&mut scratch).unwrap().1,
        Reference::Copied("value\n  more")
    ));
}
