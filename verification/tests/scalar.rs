use serde_ccl::scalar::FromText;

const TEXTS: [&str; 60] = [
    "", "0", "1", "-1", "+1", "-0", "+0", "00", "007", "-007", "+007", "+", "-", "+-1", "-+1",
    "--1", "++1", " 1", "1 ", "1_000", "1.0", "1e3", "0x10", "a", "abc", "12a", "a12", "127",
    "128", "-128", "-129", "255", "256", "32767", "32768", "-32768", "-32769", "65535", "65536",
    "2147483647", "2147483648", "-2147483648", "-2147483649", "4294967295", "4294967296",
    "9223372036854775807", "9223372036854775808", "-9223372036854775808", "-9223372036854775809",
    "18446744073709551615", "18446744073709551616", "99999999999999999999999999999999999999999",
    "-99999999999999999999999999999999999999999", "000000000000000000000000000000000000000001",
    "-000000000000000000000000000000000000000001", "١٢٣", "1\n", "true", "٣", "1\u{0}",
];

#[test]
fn integers_are_read_as_the_standard_library_reads_them() {
    for text in TEXTS {
        assert_eq!(i8::from_text(text), text.parse().ok(), "i8 of {text:?}");
        assert_eq!(i16::from_text(text), text.parse().ok(), "i16 of {text:?}");
        assert_eq!(i32::from_text(text), text.parse().ok(), "i32 of {text:?}");
        assert_eq!(i64::from_text(text), text.parse().ok(), "i64 of {text:?}");
        assert_eq!(u8::from_text(text), text.parse().ok(), "u8 of {text:?}");
        assert_eq!(u16::from_text(text), text.parse().ok(), "u16 of {text:?}");
        assert_eq!(u32::from_text(text), text.parse().ok(), "u32 of {text:?}");
        assert_eq!(u64::from_text(text), text.parse().ok(), "u64 of {text:?}");
    }
}

#[test]
fn integers_at_the_ends_of_their_types() {
    assert_eq!(i8::from_text("-128"), Some(i8::MIN));
    assert_eq!(i8::from_text("127"), Some(i8::MAX));
    assert_eq!(i8::from_text("128"), None);
    assert_eq!(u8::from_text("255"), Some(u8::MAX));
    assert_eq!(u8::from_text("-1"), None);
    assert_eq!(u8::from_text("-0"), None);
    assert_eq!(i64::from_text("-9223372036854775808"), Some(i64::MIN));
    assert_eq!(i64::from_text("9223372036854775807"), Some(i64::MAX));
    assert_eq!(u64::from_text("18446744073709551615"), Some(u64::MAX));
    assert_eq!(u64::from_text("18446744073709551616"), None);
    assert_eq!(u32::from_text("+42"), Some(42));
    assert_eq!(i32::from_text("1.0"), None);
}

#[test]
fn booleans_are_read_as_the_standard_library_reads_them() {
    let texts = [
        "true", "false", "True", "FALSE", "", " true", "true ", "1", "0", "yes", "tru", "truee",
        "fals",
    ];
    for text in texts {
        assert_eq!(bool::from_text(text), text.parse().ok(), "bool of {text:?}");
    }
    assert_eq!(bool::from_text("true"), Some(true));
    assert_eq!(bool::from_text("false"), Some(false));
}

#[test]
fn characters_are_read_as_the_standard_library_reads_them() {
    for text in ["a", "", "ab", "ß", "€", "😀", "😀a", " ", "\n", "e\u{301}", "日本"] {
        assert_eq!(char::from_text(text), text.parse().ok(), "char of {text:?}");
    }
    assert_eq!(char::from_text("a"), Some('a'));
    assert_eq!(char::from_text("€"), Some('€'));
    assert_eq!(char::from_text("ab"), None);
}
