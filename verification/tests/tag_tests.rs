use faithtype::tag::{FourCC, DSIG, HEAD, TTCF};

#[test]
fn new_keeps_the_bytes() {
    let tag = FourCC::new(b"head");
    assert_eq!(tag.0, *b"head");
    assert_eq!(tag, FourCC(*b"head"));
}

#[test]
fn zeroed_is_four_zero_bytes() {
    assert_eq!(FourCC::zeroed().0, [0, 0, 0, 0]);
    assert_eq!(FourCC::zeroed().value(), 0);
}

#[test]
fn value_is_the_big_endian_reading() {
    assert_eq!(FourCC::new(b"head").value(), HEAD);
    assert_eq!(FourCC::new(b"DSIG").value(), DSIG);
    assert_eq!(FourCC::new(b"ttcf").value(), TTCF);
    assert_eq!(FourCC::new(&[0x00, 0x01, 0x00, 0x00]).value(), 0x0001_0000);
    assert_eq!(FourCC::new(&[0xff, 0xfe, 0xfd, 0xfc]).value(), 0xfffe_fdfc);
}

#[test]
fn from_value_gives_the_bytes_back() {
    assert_eq!(FourCC::from_value(HEAD).0, *b"head");
    assert_eq!(FourCC::from_value(0x0001_0000).0, [0, 1, 0, 0]);
    assert_eq!(FourCC::from_value(0xfffe_fdfc).0, [0xff, 0xfe, 0xfd, 0xfc]);
}

#[test]
fn equality_is_byte_wise() {
    assert!(FourCC::new(b"glyf") == FourCC::new(b"glyf"));
    assert!(FourCC::new(b"glyf") != FourCC::new(b"glyF"));
    assert!(FourCC::new(b"cvt ") != FourCC::new(b"cvt\0"));
}

#[test]
fn order_of_values_is_the_order_of_the_bytes() {
    let tags = [*b"OS/2", *b"cmap", *b"head", *b"DSIG", *b"zzzz", [0, 0, 0, 1], [0xff, 0, 0, 0]];
    for a in tags.iter() {
        for b in tags.iter() {
            let by_value = FourCC::new(a).value() < FourCC::new(b).value();
            assert_eq!(by_value, a < b);
            assert_eq!(by_value, FourCC::new(a) < FourCC::new(b));
        }
    }
}

fn shown(bytes: &[u8; 4]) -> String {
    String::from_utf8(FourCC::new(bytes).printable()).unwrap()
}

#[test]
fn printable_form_of_plain_tags() {
    assert_eq!(shown(b"head"), "\"head\"");
    assert_eq!(shown(b"cvt "), "\"cvt \"");
    assert_eq!(shown(b"OS/2"), "\"OS/2\"");
}

#[test]
fn printable_form_escapes_what_cannot_be_shown() {
    assert_eq!(shown(&[0, 1, 0, 0]), "\"\\x00\\x01\\x00\\x00\"");
    assert_eq!(shown(&[0x09, 0x0a, 0x0d, 0x7f]), "\"\\t\\n\\r\\x7f\"");
    assert_eq!(shown(&[0x22, 0x27, 0x5c, 0xff]), "\"\\\"\\'\\\\\\xff\"");
    assert_eq!(shown(&[0x1f, 0x20, 0x7e, 0xab]), "\"\\x1f ~\\xab\"");
}

#[test]
fn printable_form_is_that_of_the_standard_escape() {
    for b in 0..=255u8 {
        let expected: String = std::iter::once('"')
            .chain([b, b'a', b, b'z'].iter().flat_map(|c| std::ascii::escape_default(*c)).map(char::from))
            .chain(std::iter::once('"'))
            .collect();
        assert_eq!(shown(&[b, b'a', b, b'z']), expected);
    }
}
