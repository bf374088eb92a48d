use serde_ccl::de::{Deserializer, KeyValueAccess};
use serde_ccl::parser::{Parser, StrParser};
use serde_ccl::Error;
use std::collections::BTreeMap;

const CCL: &str = r"bool = true
char = a
i32 = -1
u32 = 1
f32 = 1.0
str = str

none =
some = some

enum_unit =
    Unit =
enum_newtype =
    Newtype = true
enum_tuple =
    Tuple =
        = 0
        = 1
enum_struct =
    Struct =
        a = 0
        b = 1

array =
    = 0
    ignored =
    = 1
map =
    0 = 0
    1 = 1
";

#[derive(Default)]
struct Struct {
    bool: bool,
    char: char,
    i32: i32,
    u32: u32,
    f32: f32,
    str: String,
    none: Option<String>,
    some: Option<String>,
    enum_unit: Option<Enum>,
    enum_newtype: Option<Enum>,
    enum_tuple: Option<Enum>,
    enum_struct: Option<Enum>,
    array: Vec<u32>,
    map: BTreeMap<u32, u32>,
}

enum Enum {
    Unit,
    Newtype(bool),
    Tuple(u32, u32),
    Struct { a: u32, b: u32 },
}

fn text<'a, P: Parser<'a>>(de: &mut Deserializer<P>) -> Result<String, Error> {
    Ok(de.parse()?.1.as_str().to_owned())
}

fn option<'a, P: Parser<'a>>(de: &mut Deserializer<P>) -> Result<Option<String>, Error> {
    if de.is_some() {
        Ok(Some(text(de)?))
    } else {
        Ok(None)
    }
}

fn sequence<'a, P: Parser<'a>>(de: &mut Deserializer<P>) -> Result<Vec<u32>, Error> {
    let enclosing = de.last_key_bookmark();
    let access = KeyValueAccess::new(de);
    let mut items = Vec::new();
    loop {
        match access.next_element(de) {
            Ok(true) => items.push(de.parse_int()?),
            Ok(false) => return Ok(items),
            Err(error) => return Err(de.locate_error(error, enclosing)),
        }
    }
}

fn map<'a, P: Parser<'a>>(de: &mut Deserializer<P>) -> Result<BTreeMap<u32, u32>, Error> {
    let access = KeyValueAccess::new(de);
    let mut entries = BTreeMap::new();
    while access.next_key(de) {
        let key = de.parse_int()?;
        access.next_value(de);
        entries.insert(key, de.parse_int()?);
    }
    Ok(entries)
}

fn variant<'a, P: Parser<'a>>(de: &mut Deserializer<P>) -> Result<Enum, Error> {
    let enclosing = de.last_key_bookmark();
    let access = KeyValueAccess::new(de);
    access.variant(de);
    let name = text(de)?;
    let payload = KeyValueAccess::new(de);
    match name.as_str() {
        "Unit" => {
            payload.unit_variant(de)?;
            Ok(Enum::Unit)
        }
        "Newtype" => {
            payload.newtype_variant(de);
            Ok(Enum::Newtype(de.parse_bool()?))
        }
        "Tuple" => {
            let items = sequence(de)?;
            Ok(Enum::Tuple(items[0], items[1]))
        }
        "Struct" => {
            let fields = KeyValueAccess::new(de);
            let (mut a, mut b) = (0, 0);
            while fields.next_key(de) {
                let key = text(de)?;
                fields.next_value(de);
                match key.as_str() {
                    "a" => a = de.parse_int()?,
                    _ => b = de.parse_int()?,
                }
            }
            Ok(Enum::Struct { a, b })
        }
        other => {
            let error = Error::custom(format!("unknown variant `{other}`"));
            Err(de.locate_error(error, enclosing))
        }
    }
}

fn document(input: &str) -> Result<Struct, Error> {
    let mut de = Deserializer::new(StrParser::new(input));
    let de = &mut de;
    let access = KeyValueAccess::new(de);
    let mut data = Struct::default();
    while access.next_key(de) {
        let key = text(de)?;
        access.next_value(de);
        match key.as_str() {
            "bool" => data.bool = de.parse_bool()?,
            "char" => data.char = de.parse_char()?,
            "i32" => data.i32 = de.parse_int()?,
            "u32" => data.u32 = de.parse_int()?,
            "f32" => data.f32 = de.parse_float(|text| text.parse().ok())?,
            "str" => data.str = text(de)?,
            "none" => data.none = option(de)?,
            "some" => data.some = option(de)?,
            "enum_unit" => data.enum_unit = Some(variant(de)?),
            "enum_newtype" => data.enum_newtype = Some(variant(de)?),
            "enum_tuple" => data.enum_tuple = Some(variant(de)?),
            "enum_struct" => data.enum_struct = Some(variant(de)?),
            "array" => data.array = sequence(de)?,
            "map" => data.map = map(de)?,
            _ => {
                de.parse()?;
            }
        }
    }
    Ok(data)
}

#[test]
fn test_all() {
    let data = document(CCL).unwrap();

    // Primitives
    assert_eq!(data.bool, true);
    assert_eq!(data.char, 'a');
    assert_eq!(data.i32, -1);
    assert_eq!(data.u32, 1);
    assert!(0.99 < data.f32 && data.f32 < 1.1);
    assert_eq!(data.str, "str");

    // Options
    assert!(data.none.is_none());
    assert!(data.some.is_some_and(|data| data == "some"));

    // Enums
    assert!(matches!(data.enum_unit, Some(Enum::Unit)));
    assert!(matches!(data.enum_newtype, Some(Enum::Newtype(true))));
    assert!(matches!(data.enum_tuple, Some(Enum::Tuple(0, 1))));
    assert!(matches!(data.enum_struct, Some(Enum::Struct { a: 0, b: 1 })));

    // Aggregate
    assert_eq!(data.array, &[0, 1]);
    assert_eq!(data.map, BTreeMap::from_iter([(0, 0), (1, 1)]))
}
