use serde_ccl::de::{Deserializer, KeyValueAccess};
use serde_ccl::parser::{Parser, StrParser};
use serde_ccl::ser::Serializer;
use serde_ccl::Error;
use std::collections::BTreeMap;

#[derive(Debug, PartialEq)]
struct Test {
    a: Option<u8>,
    b: bool,
    c: String,
}

fn write_test(serializer: &mut Serializer, value: &Test) {
    serializer.serialize_str("a");
    serializer.begin_value();
    if let Some(a) = value.a {
        serializer.serialize_u64(u64::from(a));
    }
    serializer.end_entry();
    serializer.serialize_str("b");
    serializer.begin_value();
    serializer.serialize_bool(value.b);
    serializer.end_entry();
    serializer.serialize_str("c");
    serializer.begin_value();
    serializer.serialize_str(&value.c);
    serializer.end_entry();
}

fn read_test<'a, P: Parser<'a>>(de: &mut Deserializer<P>) -> Result<Test, Error> {
    let access = KeyValueAccess::new(de);
    let mut value = Test { a: None, b: false, c: String::new() };
    while access.next_key(de) {
        let key = de.parse()?.1.as_str().to_owned();
        access.next_value(de);
        match key.as_str() {
            "a" => value.a = if de.is_some() { Some(de.parse_int()?) } else { None },
            "b" => value.b = de.parse_bool()?,
            _ => value.c = de.parse()?.1.as_str().to_owned(),
        }
    }
    Ok(value)
}

fn text(serializer: Serializer) -> String {
    String::from_utf8(serializer.finish()).unwrap()
}

#[test]
fn serialize_struct() {
    let t = Test { a: Some(1), b: true, c: "test".to_string() };
    let mut serializer = Serializer::default();
    write_test(&mut serializer, &t);
    let s = text(serializer);
    assert_eq!(s, "a = 1\nb = true\nc = test\n");
    let d = read_test(&mut Deserializer::new(StrParser::new(&s))).unwrap();
    assert_eq!(d, t)
}

#[test]
fn serialize_map() {
    let mut map = BTreeMap::new();
    map.insert("a".to_owned(), 1);
    map.insert("b".to_owned(), 2);
    map.insert("c".to_owned(), 3);

    let mut serializer = Serializer::default();
    for (key, value) in &map {
        serializer.serialize_str(key);
        serializer.begin_value();
        serializer.serialize_i64(i64::from(*value));
        serializer.end_entry();
    }
    let s = text(serializer);
    assert_eq!(s, "a = 1\nb = 2\nc = 3\n");

    let mut de = Deserializer::new(StrParser::new(&s));
    let access = KeyValueAccess::new(&mut de);
    let mut d: BTreeMap<String, i32> = BTreeMap::new();
    while access.next_key(&mut de) {
        let key = de.parse().unwrap().1.as_str().to_owned();
        access.next_value(&mut de);
        d.insert(key, de.parse_int().unwrap());
    }
    assert_eq!(d, map);
}

#[test]
fn serialize_vec_structs() {
    let seq = vec![
        Test { a: Some(1), b: true, c: "test".to_string() },
        Test { a: None, b: false, c: "test2".to_string() },
    ];
    let mut serializer = Serializer::default();
    serializer.serialize_seq();
    for item in &seq {
        serializer.begin_element();
        write_test(&mut serializer, item);
        serializer.end();
    }
    serializer.end();
    let s = text(serializer);
    assert_eq!(
        s,
        "  =\n    a = 1\n    b = true\n    c = test\n  =\n    a = \n    b = false\n    \
         c = test2\n  "
    );

    let mut de = Deserializer::new(StrParser::new(&s));
    let access = KeyValueAccess::new(&mut de);
    let mut d = Vec::new();
    while access.next_element(&mut de).unwrap() {
        d.push(read_test(&mut de).unwrap());
    }
    assert_eq!(d, seq);
}

#[test]
fn integers_are_written_as_the_standard_library_writes_them() {
    for value in [0, 1, 9, 10, 11, 99, 100, 101, 12345, 1 << 32, u64::MAX - 1, u64::MAX] {
        let mut serializer = Serializer::default();
        serializer.serialize_u64(value);
        assert_eq!(text(serializer), value.to_string());
    }
    let values =
        [0, 1, -1, 9, -9, 10, -10, 127, -128, 1 << 40, -(1 << 40), i64::MAX, i64::MIN, i64::MIN + 1];
    for value in values {
        let mut serializer = Serializer::default();
        serializer.serialize_i64(value);
        assert_eq!(text(serializer), value.to_string());
    }
}

#[test]
fn integers_that_were_written_are_read_back() {
    for value in [0, 1, -1, 42, -42, i64::MAX, i64::MIN] {
        let mut serializer = Serializer::default();
        serializer.serialize_str("k");
        serializer.begin_value();
        serializer.serialize_i64(value);
        serializer.end_entry();
        let s = text(serializer);
        let mut de = Deserializer::new(StrParser::new(&s));
        let access = KeyValueAccess::new(&mut de);
        assert!(access.next_key(&mut de));
        assert_eq!(de.parse().unwrap().1.as_str(), "k");
        access.next_value(&mut de);
        assert_eq!(de.parse_int::<i64>(), Ok(value));
    }
}

#[test]
fn booleans_and_text_are_written_as_they_are() {
    let mut serializer = Serializer::default();
    serializer.serialize_bool(true);
    serializer.serialize_str(" ");
    serializer.serialize_bool(false);
    serializer.serialize_str(" grüße");
    assert_eq!(text(serializer), "true false grüße");
}

#[test]
fn nothing_written_is_an_empty_document() {
    assert_eq!(text(Serializer::default()), "");
}

#[test]
fn nesting_is_written_as_two_spaces_a_level() {
    let mut serializer = Serializer::default();
    serializer.serialize_str("top");
    serializer.begin_value();
    serializer.end_entry();
    serializer.serialize_seq();
    serializer.begin_element();
    serializer.serialize_str("x");
    serializer.begin_value();
    serializer.serialize_u64(1);
    serializer.end_entry();
    serializer.end();
    serializer.end();
    serializer.serialize_str("after");
    serializer.begin_value();
    serializer.serialize_u64(2);
    serializer.end_entry();
    assert_eq!(text(serializer), "top = \n  =\n    x = 1\n  after = 2\n  ");
}
