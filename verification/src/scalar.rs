//! What the text of a value stands for, read as a value of a plain type.
use vstd::prelude::*;
use vstd::string::{StrSliceExecFns, StringSliceAdditionalSpecFns};
use vstd::utf8::{decode_utf8, encode_utf8_decode_utf8, encode_utf8_valid_utf8, valid_utf8};

verus! {

pub const PLUS: u8 = 0x2b;

pub const MINUS: u8 = 0x2d;

pub const ZERO: u8 = 0x30;

pub const NINE: u8 = 0x39;

/// A type whose values are written as text.
pub trait FromText: Sized {
    /// The value that a text stands for, if it stands for one.
    spec fn text_value(text: Seq<u8>) -> Option<Self>;

    /// Reads a text as a value of this type.
    fn from_text(text: &str) -> (r: Option<Self>)
        ensures
            r == Self::text_value(text.spec_bytes()),
    ;
}

pub open spec fn is_digit(byte: u8) -> bool {
    ZERO <= byte <= NINE
}

pub open spec fn all_digits(text: Seq<u8>) -> bool {
    forall|i: int| 0 <= i < text.len() ==> is_digit(#[trigger] text[i])
}

/// The number that decimal digits stand for.
pub open spec fn digits_value(digits: Seq<u8>) -> nat
    decreases digits.len(),
{
    if digits.len() == 0 {
        0
    } else {
        (digits_value(digits.drop_last()) * 10 + (digits.last() - ZERO)) as nat
    }
}

/// The number that a text without a sign stands for: it is made of one
/// decimal digit or more.
pub open spec fn unsigned_value(text: Seq<u8>) -> Option<int> {
    if text.len() > 0 && all_digits(text) {
        Some(digits_value(text) as int)
    } else {
        None
    }
}

/// The number that a text stands for: digits, which `+` may precede, and
/// also `-` where a negative number can be meant.
pub open spec fn integer_value(text: Seq<u8>, signed: bool) -> Option<int> {
    if text.len() > 0 && text[0] == PLUS {
        unsigned_value(text.skip(1))
    } else if signed && text.len() > 0 && text[0] == MINUS {
        match unsigned_value(text.skip(1)) {
            Some(value) => Some(-value),
            None => None,
        }
    } else {
        unsigned_value(text)
    }
}

/// The number that a text stands for in a type that holds `min` to `max`.
pub open spec fn integer_in(text: Seq<u8>, min: int, max: int) -> Option<int> {
    match integer_value(text, min < 0) {
        Some(value) => if min <= value <= max {
            Some(value)
        } else {
            None
        },
        None => None,
    }
}

/// More digits do not make a number smaller.
pub proof fn lemma_digits_value_prefix(digits: Seq<u8>, n: int)
    requires
        all_digits(digits),
        0 <= n <= digits.len(),
    ensures
        digits_value(digits.subrange(0, n)) <= digits_value(digits),
    decreases digits.len() - n,
{
    if n < digits.len() {
        let shorter = digits.drop_last();
        assert(is_digit(digits[digits.len() - 1]));
        assert forall|i: int| 0 <= i < shorter.len() implies is_digit(#[trigger] shorter[i]) by {
            assert(shorter[i] == digits[i]);
        }
        lemma_digits_value_prefix(shorter, n);
        assert(shorter.subrange(0, n) =~= digits.subrange(0, n));
    } else {
        assert(digits.subrange(0, n) =~= digits);
    }
}

/// Reads decimal text as a number between `min` and `max`.
fn parse_integer(bytes: &[u8], min: i128, max: i128) -> (r: Option<i128>)
    requires
        -0x1_0000_0000_0000_0000 <= min <= 0 <= max <= 0x1_0000_0000_0000_0000,
    ensures
        r == match integer_in(bytes@, min as int, max as int) {
            Some(value) => Some(value as i128),
            None => None,
        },
{
    let length = bytes.len();
    if length == 0 {
        return None;
    }
    let (negative, start): (bool, usize) = if bytes[0] == PLUS {
        (false, 1)
    } else if min < 0 && bytes[0] == MINUS {
        (true, 1)
    } else {
        (false, 0)
    };
    let ghost digits = bytes@.subrange(start as int, length as int);
    proof {
        assert(bytes@.skip(1) =~= bytes@.subrange(1, length as int));
        assert(bytes@ =~= bytes@.subrange(0, length as int));
    }
    if start == length {
        return None;
    }
    let limit: i128 = if negative {
        -min
    } else {
        max
    };
    let mut value: i128 = 0;
    let mut index: usize = start;
    proof {
        assert(digits.subrange(0, 0) =~= Seq::<u8>::empty());
    }
    while index < length
        invariant
            start <= index <= length == bytes@.len(),
            digits == bytes@.subrange(start as int, length as int),
            all_digits(digits.subrange(0, index - start)),
            value == digits_value(digits.subrange(0, index - start)),
            0 <= value <= limit <= 0x1_0000_0000_0000_0000,
            limit == if negative {
                -min
            } else {
                max as int
            },
            min <= 0 <= max,
            digits.len() > 0,
            integer_value(bytes@, min < 0) == match unsigned_value(digits) {
                Some(magnitude) => Some(
                    if negative {
                        -magnitude
                    } else {
                        magnitude
                    },
                ),
                None => None,
            },
        decreases length - index,
    {
        let byte = bytes[index];
        if byte < ZERO || byte > NINE {
            proof {
                assert(digits[index - start] == byte);
            }
            return None;
        }
        let ghost shorter = digits.subrange(0, index - start);
        let ghost longer = digits.subrange(0, index - start + 1);
        proof {
            assert(longer.drop_last() =~= shorter);
            assert(longer.last() == byte);
            assert forall|i: int| 0 <= i < longer.len() implies is_digit(#[trigger] longer[i]) by {
                if i < shorter.len() {
                    assert(shorter[i] == longer[i]);
                }
            }
        }
        value = value * 10 + (byte - ZERO) as i128;
        if value > limit {
            proof {
                if all_digits(digits) {
                    lemma_digits_value_prefix(digits, index - start + 1);
                }
            }
            return None;
        }
        index += 1;
    }
    proof {
        assert(digits.subrange(0, index - start) =~= digits);
    }
    if negative {
        Some(-value)
    } else {
        Some(value)
    }
}

impl FromText for i8 {
    open spec fn text_value(text: Seq<u8>) -> Option<i8> {
        match integer_in(text, i8::MIN as int, i8::MAX as int) {
            Some(value) => Some(value as i8),
            None => None,
        }
    }

    fn from_text(text: &str) -> (r: Option<i8>) {
        match parse_integer(text.as_bytes(), i8::MIN as i128, i8::MAX as i128) {
            Some(value) => Some(value as i8),
            None => None,
        }
    }
}

impl FromText for i16 {
    open spec fn text_value(text: Seq<u8>) -> Option<i16> {
        match integer_in(text, i16::MIN as int, i16::MAX as int) {
            Some(value) => Some(value as i16),
            None => None,
        }
    }

    fn from_text(text: &str) -> (r: Option<i16>) {
        match parse_integer(text.as_bytes(), i16::MIN as i128, i16::MAX as i128) {
            Some(value) => Some(value as i16),
            None => None,
        }
    }
}

impl FromText for i32 {
    open spec fn text_value(text: Seq<u8>) -> Option<i32> {
        match integer_in(text, i32::MIN as int, i32::MAX as int) {
            Some(value) => Some(value as i32),
            None => None,
        }
    }

    fn from_text(text: &str) -> (r: Option<i32>) {
        match parse_integer(text.as_bytes(), i32::MIN as i128, i32::MAX as i128) {
            Some(value) => Some(value as i32),
            None => None,
        }
    }
}

impl FromText for i64 {
    open spec fn text_value(text: Seq<u8>) -> Option<i64> {
        match integer_in(text, i64::MIN as int, i64::MAX as int) {
            Some(value) => Some(value as i64),
            None => None,
        }
    }

    fn from_text(text: &str) -> (r: Option<i64>) {
        match parse_integer(text.as_bytes(), i64::MIN as i128, i64::MAX as i128) {
            Some(value) => Some(value as i64),
            None => None,
        }
    }
}

impl FromText for u8 {
    open spec fn text_value(text: Seq<u8>) -> Option<u8> {
        match integer_in(text, 0, u8::MAX as int) {
            Some(value) => Some(value as u8),
            None => None,
        }
    }

    fn from_text(text: &str) -> (r: Option<u8>) {
        match parse_integer(text.as_bytes(), 0, u8::MAX as i128) {
            Some(value) => Some(value as u8),
            None => None,
        }
    }
}

impl FromText for u16 {
    open spec fn text_value(text: Seq<u8>) -> Option<u16> {
        match integer_in(text, 0, u16::MAX as int) {
            Some(value) => Some(value as u16),
            None => None,
        }
    }

    fn from_text(text: &str) -> (r: Option<u16>) {
        match parse_integer(text.as_bytes(), 0, u16::MAX as i128) {
            Some(value) => Some(value as u16),
            None => None,
        }
    }
}

impl FromText for u32 {
    open spec fn text_value(text: Seq<u8>) -> Option<u32> {
        match integer_in(text, 0, u32::MAX as int) {
            Some(value) => Some(value as u32),
            None => None,
        }
    }

    fn from_text(text: &str) -> (r: Option<u32>) {
        match parse_integer(text.as_bytes(), 0, u32::MAX as i128) {
            Some(value) => Some(value as u32),
            None => None,
        }
    }
}

impl FromText for u64 {
    open spec fn text_value(text: Seq<u8>) -> Option<u64> {
        match integer_in(text, 0, u64::MAX as int) {
            Some(value) => Some(value as u64),
            None => None,
        }
    }

    fn from_text(text: &str) -> (r: Option<u64>) {
        match parse_integer(text.as_bytes(), 0, u64::MAX as i128) {
            Some(value) => Some(value as u64),
            None => None,
        }
    }
}

/// The bytes of `true`.
pub open spec fn true_text() -> Seq<u8> {
    seq![0x74u8, 0x72u8, 0x75u8, 0x65u8]
}

/// The bytes of `false`.
pub open spec fn false_text() -> Seq<u8> {
    seq![0x66u8, 0x61u8, 0x6cu8, 0x73u8, 0x65u8]
}

impl FromText for bool {
    /// `true` and `false` stand for the two values, and nothing else does.
    open spec fn text_value(text: Seq<u8>) -> Option<bool> {
        if text == true_text() {
            Some(true)
        } else if text == false_text() {
            Some(false)
        } else {
            None
        }
    }

    fn from_text(text: &str) -> (r: Option<bool>) {
        let bytes = text.as_bytes();
        if bytes.len() == 4 && bytes[0] == 0x74 && bytes[1] == 0x72 && bytes[2] == 0x75 && bytes[3]
            == 0x65 {
            proof {
                assert(bytes@ =~= true_text());
            }
            Some(true)
        } else if bytes.len() == 5 && bytes[0] == 0x66 && bytes[1] == 0x61 && bytes[2] == 0x6c
            && bytes[3] == 0x73 && bytes[4] == 0x65 {
            proof {
                assert(bytes@ =~= false_text());
            }
            Some(false)
        } else {
            None
        }
    }
}

impl FromText for char {
    /// A text that holds one character stands for that character.
    open spec fn text_value(text: Seq<u8>) -> Option<char> {
        if valid_utf8(text) && decode_utf8(text).len() == 1 {
            Some(decode_utf8(text)[0])
        } else {
            None
        }
    }

    fn from_text(text: &str) -> (r: Option<char>) {
        proof {
            encode_utf8_valid_utf8(text@);
            encode_utf8_decode_utf8(text@);
        }
        if text.unicode_len() == 1 {
            Some(text.get_char(0))
        } else {
            None
        }
    }
}

} // verus!
