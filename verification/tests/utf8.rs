use gluapack_unpack::utf8::{is_utf8, validate_utf8};

#[test]
fn utf8_accepts_text() {
    assert_eq!(validate_utf8(b""), Ok(()));
    assert_eq!(validate_utf8(b"plain ascii \x00\x7f"), Ok(()));
    assert_eq!(validate_utf8("é".as_bytes()), Ok(()));
    assert_eq!(validate_utf8("€".as_bytes()), Ok(()));
    assert_eq!(validate_utf8("𝄞".as_bytes()), Ok(()));
    assert_eq!(validate_utf8("a é € 𝄞 z".as_bytes()), Ok(()));
    assert_eq!(validate_utf8("\u{7ff}\u{800}\u{ffff}\u{10000}\u{10ffff}".as_bytes()), Ok(()));
    assert_eq!(validate_utf8("\u{d7ff}\u{e000}".as_bytes()), Ok(()));
}

#[test]
fn utf8_rejects_stray_bytes() {
    assert_eq!(validate_utf8(b"\x80"), Err(0));
    assert_eq!(validate_utf8(b"ab\xbf"), Err(2));
    assert_eq!(validate_utf8(b"\xff"), Err(0));
    assert_eq!(validate_utf8(b"abc\xf8\x88\x80\x80\x80"), Err(3));
}

#[test]
fn utf8_rejects_cut_scalars() {
    assert_eq!(validate_utf8(b"a\xc3"), Err(1));
    assert_eq!(validate_utf8(b"a\xe2\x82"), Err(1));
    assert_eq!(validate_utf8(b"a\xf0\x9d\x84"), Err(1));
    assert_eq!(validate_utf8(b"\xc3("), Err(0));
    assert_eq!(validate_utf8(b"\xe2\x82("), Err(0));
}

#[test]
fn utf8_rejects_overlong_forms() {
    assert_eq!(validate_utf8(b"\xc0\x80"), Err(0));
    assert_eq!(validate_utf8(b"\xc1\xbf"), Err(0));
    assert_eq!(validate_utf8(b"\xe0\x9f\xbf"), Err(0));
    assert_eq!(validate_utf8(b"\xf0\x8f\xbf\xbf"), Err(0));
}

#[test]
fn utf8_rejects_surrogates_and_what_lies_beyond() {
    assert_eq!(validate_utf8(b"\xed\xa0\x80"), Err(0));
    assert_eq!(validate_utf8(b"\xed\xbf\xbf"), Err(0));
    assert_eq!(validate_utf8(b"\xf4\x90\x80\x80"), Err(0));
    assert_eq!(validate_utf8(b"\xf5\x80\x80\x80"), Err(0));
}

#[test]
fn utf8_agrees_with_std() {
    let samples: Vec<Vec<u8>> = vec![
        b"".to_vec(),
        b"hello".to_vec(),
        "gr\u{fc}\u{df}e".as_bytes().to_vec(),
        vec![0x61, 0xe2, 0x82, 0xac, 0xff, 0x62],
        vec![0xf0, 0x9f, 0x98, 0x80, 0xc0],
        vec![0xed, 0x9f, 0xbf, 0xed, 0xa0, 0x80],
        vec![0xf4, 0x8f, 0xbf, 0xbf, 0xf4, 0x90, 0x80, 0x80],
    ];
    for sample in samples {
        let expected = match std::str::from_utf8(&sample) {
            Ok(_) => Ok(()),
            Err(e) => Err(e.valid_up_to()),
        };
        assert_eq!(validate_utf8(&sample), expected);
        assert_eq!(is_utf8(&sample), expected.is_ok());
    }
}

#[test]
fn utf8_agrees_with_std_on_every_pair_of_bytes() {
    for a in 0..=255u8 {
        for b in 0..=255u8 {
            let sample = [a, b];
            let expected = match std::str::from_utf8(&sample) {
                Ok(_) => Ok(()),
                Err(e) => Err(e.valid_up_to()),
            };
            assert_eq!(validate_utf8(&sample), expected);
        }
    }
}

#[test]
fn utf8_agrees_with_std_on_longer_scalars() {
    let edges = [0x00u8, 0x7f, 0x80, 0x8f, 0x90, 0x9f, 0xa0, 0xbf, 0xc0, 0xff];
    for a in 0xc0..=0xffu8 {
        for b in 0..=255u8 {
            for c in edges {
                for d in edges {
                    let sample = [a, b, c, d, b'z'];
                    let expected = match std::str::from_utf8(&sample) {
                        Ok(_) => Ok(()),
                        Err(e) => Err(e.valid_up_to()),
                    };
                    assert_eq!(validate_utf8(&sample), expected);
                }
            }
        }
    }
}
