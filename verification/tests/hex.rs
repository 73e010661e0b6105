use gluapack_unpack::error::IntErrorKind;
use gluapack_unpack::hex::parse_hex;

#[test]
fn hex_digits_of_either_case() {
    assert_eq!(parse_hex(b"0A"), Ok(10));
    assert_eq!(parse_hex(b"0a"), Ok(10));
    assert_eq!(parse_hex(b"ff"), Ok(255));
    assert_eq!(parse_hex(b"FF"), Ok(255));
    assert_eq!(parse_hex(b"fF"), Ok(255));
    assert_eq!(parse_hex(b"DeadBeef"), Ok(0xdead_beef));
    assert_eq!(parse_hex(b"0123456"), Ok(0x0123456));
    assert_eq!(parse_hex(b"789abcde"), Ok(0x789a_bcde));
}

#[test]
fn hex_single_digits() {
    let digits = b"0123456789abcdef";
    for (value, digit) in digits.iter().enumerate() {
        assert_eq!(parse_hex(&[*digit]), Ok(value as u32));
    }
    let upper = b"ABCDEF";
    for (i, digit) in upper.iter().enumerate() {
        assert_eq!(parse_hex(&[*digit]), Ok(10 + i as u32));
    }
}

#[test]
fn hex_leading_zeros_do_not_count() {
    assert_eq!(parse_hex(b"0"), Ok(0));
    assert_eq!(parse_hex(b"0000000000000000"), Ok(0));
    assert_eq!(parse_hex(b"000000000000000000001f"), Ok(31));
    assert_eq!(parse_hex(b"00ffffffff"), Ok(u32::MAX));
}

#[test]
fn hex_bounds() {
    assert_eq!(parse_hex(b"ffffffff"), Ok(u32::MAX));
    assert_eq!(parse_hex(b"100000000"), Err(IntErrorKind::PosOverflow));
    assert_eq!(parse_hex(b"fffffffff"), Err(IntErrorKind::PosOverflow));
    assert_eq!(parse_hex(b"123456789abcdef0123"), Err(IntErrorKind::PosOverflow));
}

#[test]
fn hex_rejects_what_is_no_digit() {
    assert_eq!(parse_hex(b""), Err(IntErrorKind::Empty));
    for bad in [&b"g"[..], b"1g", b"g1", b"+1", b"-1", b" 1", b"1 ", b"0x10", b"1_0", b"1\n"] {
        assert_eq!(parse_hex(bad), Err(IntErrorKind::InvalidDigit));
    }
    assert_eq!(parse_hex(b"/"), Err(IntErrorKind::InvalidDigit));
    assert_eq!(parse_hex(b":"), Err(IntErrorKind::InvalidDigit));
    assert_eq!(parse_hex(b"@"), Err(IntErrorKind::InvalidDigit));
    assert_eq!(parse_hex(b"G"), Err(IntErrorKind::InvalidDigit));
    assert_eq!(parse_hex(b"`"), Err(IntErrorKind::InvalidDigit));
    assert_eq!(parse_hex(b"\xff"), Err(IntErrorKind::InvalidDigit));
}

#[test]
fn hex_bad_digit_wins_over_size() {
    assert_eq!(parse_hex(b"fffffffffffg"), Err(IntErrorKind::InvalidDigit));
}

#[test]
fn hex_agrees_with_formatting() {
    for n in [0u32, 1, 9, 10, 15, 16, 255, 256, 4095, 65535, 65536, 0x7fff_ffff, u32::MAX] {
        assert_eq!(parse_hex(format!("{:x}", n).as_bytes()), Ok(n));
        assert_eq!(parse_hex(format!("{:X}", n).as_bytes()), Ok(n));
        assert_eq!(parse_hex(format!("{:012x}", n).as_bytes()), Ok(n));
    }
}

#[test]
fn hex_agrees_with_std_where_there_is_no_sign() {
    let alphabet: Vec<u8> = (0x2eu8..=0x67).collect();
    let mut samples: Vec<Vec<u8>> = vec![vec![]];
    for a in &alphabet {
        samples.push(vec![*a]);
        for b in &alphabet {
            samples.push(vec![*a, *b]);
            for c in [b'0', b'9', b'a', b'F', b'g', b'@'] {
                samples.push(vec![*a, *b, c]);
            }
        }
    }
    for digits in [&b"7fffffff"[..], b"80000000", b"ffffffff", b"100000000", b"0ffffffff"] {
        samples.push(digits.to_vec());
    }
    for sample in samples {
        let text = std::str::from_utf8(&sample).unwrap();
        let expected = match u32::from_str_radix(text, 16) {
            Ok(n) => Ok(n),
            Err(e) => Err(match e.kind() {
                std::num::IntErrorKind::Empty => IntErrorKind::Empty,
                std::num::IntErrorKind::InvalidDigit => IntErrorKind::InvalidDigit,
                std::num::IntErrorKind::PosOverflow => IntErrorKind::PosOverflow,
                other => panic!("unexpected kind {:?}", other),
            }),
        };
        assert_eq!(parse_hex(&sample), expected);
    }
}
