use serde_ccl::utf8::valid_prefix;

fn expected(bytes: &[u8]) -> usize {
    match std::str::from_utf8(bytes) {
        Ok(_) => bytes.len(),
        Err(error) => error.valid_up_to(),
    }
}

#[test]
fn the_valid_prefix_of_text() {
    assert_eq!(valid_prefix(b""), 0);
    assert_eq!(valid_prefix(b"plain"), 5);
    assert_eq!(valid_prefix("grüße €uro 😀".as_bytes()), "grüße €uro 😀".len());
    assert_eq!(valid_prefix(b"ab\xffcd"), 2);
    assert_eq!(valid_prefix(b"\xe2\x82"), 0);
    assert_eq!(valid_prefix(b"a\xe2\x82"), 1);
    assert_eq!(valid_prefix(b"\xe2\x82\xac\xe2\x82"), 3);
    assert_eq!(valid_prefix(b"\x80"), 0);
}

#[test]
fn encodings_that_are_not_allowed_end_the_valid_prefix() {
    let cases: [&[u8]; 14] = [
        b"x\xc0\x80",
        b"x\xc1\xbf",
        b"x\xe0\x80\x80",
        b"x\xe0\x9f\xbf",
        b"x\xf0\x80\x80\x80",
        b"x\xf0\x8f\xbf\xbf",
        b"x\xed\xa0\x80",
        b"x\xed\xbf\xbf",
        b"x\xf4\x90\x80\x80",
        b"x\xf5\x80\x80\x80",
        b"x\xf7\xbf\xbf\xbf",
        b"x\xf8\x88\x80\x80\x80",
        b"x\xfe",
        b"x\xc2",
    ];
    for bytes in cases {
        assert_eq!(valid_prefix(bytes), 1, "{bytes:?}");
        assert_eq!(valid_prefix(bytes), expected(bytes), "{bytes:?}");
    }
    let allowed: [&[u8]; 8] = [
        b"\xc2\x80",
        b"\xdf\xbf",
        b"\xe0\xa0\x80",
        b"\xed\x9f\xbf",
        b"\xee\x80\x80",
        b"\xef\xbf\xbf",
        b"\xf0\x90\x80\x80",
        b"\xf4\x8f\xbf\xbf",
    ];
    for bytes in allowed {
        assert_eq!(valid_prefix(bytes), bytes.len(), "{bytes:?}");
        assert_eq!(valid_prefix(bytes), expected(bytes), "{bytes:?}");
    }
}

#[test]
fn the_valid_prefix_of_every_pair_of_bytes() {
    for first in 0..=255u8 {
        assert_eq!(valid_prefix(&[first]), expected(&[first]));
        for second in 0..=255u8 {
            let bytes = [first, second];
            assert_eq!(valid_prefix(&bytes), expected(&bytes), "{bytes:?}");
        }
    }
}

#[test]
fn the_valid_prefix_of_bytes_near_the_bounds_of_the_encoding() {
    let edges = [
        0x00, 0x41, 0x7f, 0x80, 0x8f, 0x90, 0x9f, 0xa0, 0xbf, 0xc0, 0xc1, 0xc2, 0xdf, 0xe0, 0xe1,
        0xec, 0xed, 0xee, 0xef, 0xf0, 0xf1, 0xf3, 0xf4, 0xf5, 0xf7, 0xf8, 0xff,
    ];
    for a in edges {
        for b in edges {
            for c in edges {
                for d in edges {
                    let bytes = [a, b, c, d, b'z'];
                    assert_eq!(valid_prefix(&bytes), expected(&bytes), "{bytes:?}");
                    assert_eq!(valid_prefix(&bytes[..3]), expected(&bytes[..3]), "{bytes:?}");
                }
            }
        }
    }
}
