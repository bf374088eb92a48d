//! Where bytes stop being valid UTF-8.
use vstd::prelude::*;
use vstd::utf8::{
    decode_first_codepoint, is_continuation_byte, length_of_first_scalar, partial_valid_utf8,
    partial_valid_utf8_extend, pop_first_scalar, valid_first_scalar, valid_utf8,
};

verus! {

/// `n` is the length of the longest prefix of `bytes` that is valid UTF-8.
pub open spec fn is_valid_up_to(bytes: Seq<u8>, n: int) -> bool {
    &&& 0 <= n <= bytes.len()
    &&& valid_utf8(bytes.subrange(0, n))
    &&& forall|m: int| n < m <= bytes.len() ==> !valid_utf8(#[trigger] bytes.subrange(0, m))
}

/// The length of the longest prefix of `bytes` that is valid UTF-8.
pub open spec fn valid_up_to(bytes: Seq<u8>) -> int {
    choose|n: int| is_valid_up_to(bytes, n)
}

/// The longest valid prefix is determined by what `is_valid_up_to` asks.
pub proof fn lemma_valid_up_to(bytes: Seq<u8>, n: int)
    requires
        is_valid_up_to(bytes, n),
    ensures
        valid_up_to(bytes) == n,
{
    let m = valid_up_to(bytes);
    assert(is_valid_up_to(bytes, m));
    if m < n {
        assert(!valid_utf8(bytes.subrange(0, n)));
    } else if n < m {
        assert(!valid_utf8(bytes.subrange(0, m)));
    }
}

/// Whether bytes begin with the encoding of a character depends on the
/// bytes of that encoding alone: what holds of a prefix holds of the whole.
pub proof fn lemma_first_scalar_of_prefix(whole: Seq<u8>, part: Seq<u8>)
    requires
        part.len() <= whole.len(),
        part == whole.subrange(0, part.len() as int),
        valid_first_scalar(part),
    ensures
        valid_first_scalar(whole),
        length_of_first_scalar(whole) == length_of_first_scalar(part),
        decode_first_codepoint(whole) == decode_first_codepoint(part),
{
    assert(part[0] == whole[0]);
    if part.len() > 1 {
        assert(part[1] == whole[1]);
    }
    if part.len() > 2 {
        assert(part[2] == whole[2]);
    }
    if part.len() > 3 {
        assert(part[3] == whole[3]);
    }
}

/// Where two prefixes of `bytes` are valid UTF-8, the longer goes on behind
/// the shorter with the encoding of a character.
pub proof fn lemma_valid_prefixes(bytes: Seq<u8>, n: int, m: int)
    requires
        0 <= n < m <= bytes.len(),
        valid_utf8(bytes.subrange(0, n)),
        valid_utf8(bytes.subrange(0, m)),
    ensures
        valid_first_scalar(bytes.subrange(n, bytes.len() as int)),
    decreases n,
{
    let longer = bytes.subrange(0, m);
    assert(valid_first_scalar(longer));
    if n == 0 {
        assert(bytes.subrange(0, bytes.len() as int) =~= bytes);
        lemma_first_scalar_of_prefix(bytes, longer);
    } else {
        let shorter = bytes.subrange(0, n);
        assert(valid_first_scalar(shorter));
        assert(shorter[0] == longer[0]);
        let k = length_of_first_scalar(longer);
        assert(length_of_first_scalar(shorter) == k);
        let rest = bytes.subrange(k, bytes.len() as int);
        assert(pop_first_scalar(longer) =~= rest.subrange(0, m - k));
        assert(pop_first_scalar(shorter) =~= rest.subrange(0, n - k));
        if n == k {
            // The shorter prefix is one character; the longer holds another.
            let behind = rest.subrange(0, m - k);
            assert(valid_utf8(pop_first_scalar(longer)));
            assert(valid_utf8(behind));
            assert(valid_first_scalar(behind));
            lemma_first_scalar_of_prefix(rest, behind);
        } else {
            lemma_valid_prefixes(rest, n - k, m - k);
            assert(rest.subrange(n - k, rest.len() as int) =~= bytes.subrange(
                n,
                bytes.len() as int,
            ));
        }
    }
}

/// The length of the encoding of a character that begins at `at`, or 0
/// where none begins there.
fn scalar_len(bytes: &[u8], at: usize) -> (r: usize)
    requires
        at < bytes@.len(),
    ensures
        at + r <= bytes@.len(),
        r == 0 <==> !valid_first_scalar(bytes@.subrange(at as int, bytes@.len() as int)),
        r > 0 ==> r == length_of_first_scalar(bytes@.subrange(at as int, bytes@.len() as int)),
{
    let ghost rest = bytes@.subrange(at as int, bytes@.len() as int);
    let left = bytes.len() - at;
    let first = bytes[at];
    proof {
        assert(rest[0] == first);
        if left > 1 {
            assert(rest[1] == bytes@[at + 1]);
        }
        if left > 2 {
            assert(rest[2] == bytes@[at + 2]);
        }
        if left > 3 {
            assert(rest[3] == bytes@[at + 3]);
        }
    }
    if first <= 0x7f {
        proof {
            assert(first & 0x7f <= 0x7f) by (bit_vector);
        }
        1
    } else if 0xc0 <= first && first <= 0xdf {
        if left < 2 || !is_continuation(bytes[at + 1]) {
            return 0;
        }
        let codepoint: u32 = (((first & 0x1f) as u32) << 6) | ((bytes[at + 1] & 0x3f) as u32);
        if 0x80 <= codepoint && !is_surrogate(codepoint) {
            2
        } else {
            0
        }
    } else if 0xe0 <= first && first <= 0xef {
        if left < 3 || !is_continuation(bytes[at + 1]) || !is_continuation(bytes[at + 2]) {
            return 0;
        }
        let codepoint: u32 = (((first & 0x0f) as u32) << 12) | (((bytes[at + 1] & 0x3f) as u32)
            << 6) | ((bytes[at + 2] & 0x3f) as u32);
        if 0x800 <= codepoint && !is_surrogate(codepoint) {
            3
        } else {
            0
        }
    } else if 0xf0 <= first && first <= 0xf7 {
        if left < 4 || !is_continuation(bytes[at + 1]) || !is_continuation(bytes[at + 2])
            || !is_continuation(bytes[at + 3]) {
            return 0;
        }
        let codepoint: u32 = (((first & 0x07) as u32) << 18) | (((bytes[at + 1] & 0x3f) as u32)
            << 12) | (((bytes[at + 2] & 0x3f) as u32) << 6) | ((bytes[at + 3] & 0x3f) as u32);
        if 0x10000 <= codepoint && codepoint <= 0x10ffff && !is_surrogate(codepoint) {
            4
        } else {
            0
        }
    } else {
        0
    }
}

fn is_continuation(byte: u8) -> (r: bool)
    ensures
        r == is_continuation_byte(byte),
{
    0x80 <= byte && byte <= 0xbf
}

fn is_surrogate(codepoint: u32) -> (r: bool)
    ensures
        r == !vstd::utf8::not_surrogate(codepoint),
{
    0xD800 <= codepoint && codepoint <= 0xDFFF
}

/// The length of the longest prefix of `bytes` that is valid UTF-8.
pub fn valid_prefix(bytes: &[u8]) -> (r: usize)
    ensures
        is_valid_up_to(bytes@, r as int),
{
    let mut index: usize = 0;
    proof {
        assert(bytes@.subrange(0, 0) =~= Seq::<u8>::empty());
    }
    while index < bytes.len()
        invariant_except_break
            partial_valid_utf8(bytes@, index as int),
        ensures
            is_valid_up_to(bytes@, index as int),
        decreases bytes@.len() - index,
    {
        let length = scalar_len(bytes, index);
        if length == 0 {
            proof {
                assert forall|m: int| index < m <= bytes@.len() implies !valid_utf8(
                    #[trigger] bytes@.subrange(0, m),
                ) by {
                    if valid_utf8(bytes@.subrange(0, m)) {
                        lemma_valid_prefixes(bytes@, index as int, m);
                    }
                }
            }
            break;
        }
        proof {
            partial_valid_utf8_extend(bytes@, index as int);
        }
        index += length;
    }
    index
}

} // verus!
