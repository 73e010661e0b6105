use gluapack_unpack::container::{decode, read_entry, ContainerFormat, Entry, TERMINATOR_HACK};
use gluapack_unpack::error::{IntErrorKind, IoErrorKind, UnpackingError};

fn entry(path: &[u8], payload: &[u8]) -> Entry {
    Entry { path: path.to_vec(), payload: payload.to_vec() }
}

fn pack_legacy(entries: &[(&[u8], &[u8])], with_sentinel: bool) -> Vec<u8> {
    let mut out = Vec::new();
    for (path, payload) in entries {
        out.extend_from_slice(path);
        out.push(0);
        out.extend_from_slice(&(payload.len() as u32).to_le_bytes());
        out.extend_from_slice(payload);
    }
    if with_sentinel {
        out.push(0);
    }
    out
}

fn pack_chunked(entries: &[(&[u8], &[u8])], with_sentinel: bool) -> Vec<u8> {
    let mut out = Vec::new();
    for (path, payload) in entries {
        out.extend_from_slice(path);
        out.push(b'|');
        out.extend_from_slice(format!("{:x}", payload.len()).as_bytes());
        out.push(b'|');
        out.extend_from_slice(payload);
    }
    if with_sentinel {
        out.push(b'|');
    }
    out
}

const EOF_ERROR: UnpackingError = UnpackingError::IoError { kind: IoErrorKind::UnexpectedEof };

#[test]
fn terminator_is_a_bar() {
    assert_eq!(TERMINATOR_HACK, b'|');
    assert_eq!(ContainerFormat::Legacy.terminator(), 0);
    assert_eq!(ContainerFormat::Chunked.terminator(), b'|');
}

#[test]
fn legacy_sentinel_only_is_empty() {
    assert_eq!(decode(ContainerFormat::Legacy, &[0u8]), Ok(vec![]));
}

#[test]
fn chunked_sentinel_only_is_empty() {
    assert_eq!(decode(ContainerFormat::Chunked, b"|"), Ok(vec![]));
}

#[test]
fn empty_source_is_empty() {
    assert_eq!(decode(ContainerFormat::Legacy, &[]), Ok(vec![]));
    assert_eq!(decode(ContainerFormat::Chunked, &[]), Ok(vec![]));
}

#[test]
fn legacy_decodes_one_entry() {
    let data = b"init.lua\0\x05\0\0\0hello";
    assert_eq!(decode(ContainerFormat::Legacy, data), Ok(vec![entry(b"init.lua", b"hello")]));
}

#[test]
fn legacy_length_is_little_endian() {
    let mut data = b"a\0\x02\x01\0\0".to_vec();
    data.extend_from_slice(&[7u8; 258]);
    let decoded = decode(ContainerFormat::Legacy, &data).unwrap();
    assert_eq!(decoded.len(), 1);
    assert_eq!(decoded[0].payload.len(), 258);
    assert_eq!(decoded[0].payload, vec![7u8; 258]);
}

#[test]
fn legacy_keeps_order_and_empty_payloads() {
    let data = pack_legacy(
        &[(b"b/c/d.lua", b"second comes first"), (b"a.lua", b""), (b"b/c.lua", b"\0\0")],
        true,
    );
    assert_eq!(
        decode(ContainerFormat::Legacy, &data),
        Ok(vec![
            entry(b"b/c/d.lua", b"second comes first"),
            entry(b"a.lua", b""),
            entry(b"b/c.lua", b"\0\0"),
        ])
    );
}

#[test]
fn legacy_ends_without_sentinel() {
    let data = pack_legacy(&[(b"a.lua", b"xy")], false);
    assert_eq!(decode(ContainerFormat::Legacy, &data), Ok(vec![entry(b"a.lua", b"xy")]));
}

#[test]
fn sentinel_hides_what_follows() {
    let mut data = pack_legacy(&[(b"a.lua", b"xy")], true);
    data.extend_from_slice(b"garbage with no frame");
    assert_eq!(decode(ContainerFormat::Legacy, &data), Ok(vec![entry(b"a.lua", b"xy")]));
    let mut data = pack_chunked(&[(b"a.lua", b"xy")], true);
    data.extend_from_slice(b"garbage|zz|");
    assert_eq!(decode(ContainerFormat::Chunked, &data), Ok(vec![entry(b"a.lua", b"xy")]));
}

#[test]
fn legacy_path_is_taken_as_bytes() {
    let data = b"\xff\xfe\0\x01\0\0\0z";
    assert_eq!(decode(ContainerFormat::Legacy, data), Ok(vec![entry(b"\xff\xfe", b"z")]));
}

#[test]
fn legacy_truncated_payload_fails() {
    let data = b"init.lua\0\x05\0\0\0hell";
    assert_eq!(decode(ContainerFormat::Legacy, data), Err(EOF_ERROR));
    let data = b"init.lua\0\x05\0\0\0";
    assert_eq!(decode(ContainerFormat::Legacy, data), Err(EOF_ERROR));
}

#[test]
fn truncation_after_good_entries_fails() {
    let mut data = pack_legacy(&[(b"a.lua", b"xy"), (b"b.lua", b"0123456789")], false);
    data.truncate(data.len() - 1);
    assert_eq!(decode(ContainerFormat::Legacy, &data), Err(EOF_ERROR));
    let mut data = pack_chunked(&[(b"a.lua", b"xy"), (b"b.lua", b"0123456789")], false);
    data.truncate(data.len() - 10);
    assert_eq!(decode(ContainerFormat::Chunked, &data), Err(EOF_ERROR));
}

#[test]
fn legacy_truncated_length_fails() {
    let expected = Err(UnpackingError::ParseIntError { kind: IntErrorKind::Truncated });
    assert_eq!(decode(ContainerFormat::Legacy, b"a\0\x01\0"), expected);
    assert_eq!(decode(ContainerFormat::Legacy, b"a\0"), expected);
}

#[test]
fn unterminated_path_fails() {
    assert_eq!(decode(ContainerFormat::Legacy, b"abc"), Err(EOF_ERROR));
    assert_eq!(decode(ContainerFormat::Chunked, b"abc"), Err(EOF_ERROR));
}

#[test]
fn chunked_decodes_one_entry() {
    let data = b"cl_init.lua|3|abc";
    assert_eq!(decode(ContainerFormat::Chunked, data), Ok(vec![entry(b"cl_init.lua", b"abc")]));
}

#[test]
fn chunked_payload_may_hold_the_terminator() {
    let data = b"a|5|x|y|zb|0||";
    assert_eq!(
        decode(ContainerFormat::Chunked, data),
        Ok(vec![entry(b"a", b"x|y|z"), entry(b"b", b"")])
    );
}

#[test]
fn chunked_length_in_any_case_and_padding() {
    let mut data = b"p|0A|".to_vec();
    data.extend_from_slice(&[1u8; 10]);
    data.extend_from_slice(b"q|ff|");
    data.extend_from_slice(&[2u8; 255]);
    data.extend_from_slice(b"r|00000000000fF|");
    data.extend_from_slice(&[3u8; 255]);
    assert_eq!(
        decode(ContainerFormat::Chunked, &data),
        Ok(vec![entry(b"p", &[1u8; 10]), entry(b"q", &[2u8; 255]), entry(b"r", &[3u8; 255])])
    );
}

#[test]
fn chunked_bad_length_fails() {
    let invalid = Err(UnpackingError::ParseIntError { kind: IntErrorKind::InvalidDigit });
    assert_eq!(decode(ContainerFormat::Chunked, b"a|1g|x"), invalid);
    assert_eq!(decode(ContainerFormat::Chunked, b"a|+1|x"), invalid);
    assert_eq!(decode(ContainerFormat::Chunked, b"a| 1|x"), invalid);
    assert_eq!(decode(ContainerFormat::Chunked, b"a|0x1|x"), invalid);
    assert_eq!(
        decode(ContainerFormat::Chunked, b"a||x"),
        Err(UnpackingError::ParseIntError { kind: IntErrorKind::Empty })
    );
    assert_eq!(
        decode(ContainerFormat::Chunked, b"a|100000000|x"),
        Err(UnpackingError::ParseIntError { kind: IntErrorKind::PosOverflow })
    );
}

#[test]
fn chunked_length_that_is_not_text_fails() {
    assert_eq!(
        decode(ContainerFormat::Chunked, b"a|1\xff|x"),
        Err(UnpackingError::Utf8Error { valid_up_to: 1 })
    );
}

#[test]
fn chunked_path_that_is_not_text_fails() {
    assert_eq!(
        decode(ContainerFormat::Chunked, b"ab\xc3|1|x"),
        Err(UnpackingError::Utf8Error { valid_up_to: 2 })
    );
    // The length field is read before the path is checked.
    assert_eq!(
        decode(ContainerFormat::Chunked, b"ab\xc3|zz|x"),
        Err(UnpackingError::ParseIntError { kind: IntErrorKind::InvalidDigit })
    );
}

#[test]
fn chunked_path_in_utf8_is_kept() {
    let data = "dossier/été.lua|2|ok".as_bytes();
    assert_eq!(
        decode(ContainerFormat::Chunked, data),
        Ok(vec![entry("dossier/été.lua".as_bytes(), b"ok")])
    );
}

#[test]
fn chunked_unterminated_length_fails() {
    assert_eq!(decode(ContainerFormat::Chunked, b"a|12"), Err(EOF_ERROR));
    assert_eq!(decode(ContainerFormat::Chunked, b"a|"), Err(EOF_ERROR));
}

#[test]
fn chunked_truncated_payload_fails() {
    assert_eq!(decode(ContainerFormat::Chunked, b"a|3|ab"), Err(EOF_ERROR));
    assert_eq!(decode(ContainerFormat::Chunked, b"a|ffffffff|ab"), Err(EOF_ERROR));
}

#[test]
fn an_error_hides_the_entries_before_it() {
    assert_eq!(
        decode(ContainerFormat::Chunked, b"a|1|xb|q|"),
        Err(UnpackingError::ParseIntError { kind: IntErrorKind::InvalidDigit })
    );
}

#[test]
fn read_entry_steps_through_a_container() {
    let data = b"a|1|xbc|2|yz|";
    let (first, next) = read_entry(ContainerFormat::Chunked, data, 0).unwrap().unwrap();
    assert_eq!(first, entry(b"a", b"x"));
    assert_eq!(next, 5);
    let (second, next) = read_entry(ContainerFormat::Chunked, data, next).unwrap().unwrap();
    assert_eq!(second, entry(b"bc", b"yz"));
    assert_eq!(next, 12);
    assert_eq!(read_entry(ContainerFormat::Chunked, data, next), Ok(None));
    assert_eq!(read_entry(ContainerFormat::Chunked, data, data.len()), Ok(None));
    assert_eq!(read_entry(ContainerFormat::Chunked, data, data.len() + 5), Ok(None));
    assert_eq!(read_entry(ContainerFormat::Legacy, data, usize::MAX), Ok(None));
    assert_eq!(
        read_entry(ContainerFormat::Chunked, data, 2),
        Err(UnpackingError::ParseIntError { kind: IntErrorKind::InvalidDigit })
    );
    assert_eq!(read_entry(ContainerFormat::Chunked, data, 10), Err(EOF_ERROR));
}

#[test]
fn legacy_round_trip() {
    let big = vec![0xabu8; 70_000];
    let entries: Vec<(&[u8], &[u8])> = vec![
        (b"autorun/server/init.lua", b"print('hi')\n"),
        (b"empty.lua", b""),
        (b"deep/er/and/deeper.lua", &big),
        (b"zeros.lua", b"\0\0\0\0"),
    ];
    for with_sentinel in [false, true] {
        let decoded = decode(ContainerFormat::Legacy, &pack_legacy(&entries, with_sentinel));
        let expected: Vec<Entry> = entries.iter().map(|(p, b)| entry(p, b)).collect();
        assert_eq!(decoded, Ok(expected));
    }
}

#[test]
fn chunked_round_trip() {
    let big = vec![b'|'; 70_000];
    let entries: Vec<(&[u8], &[u8])> = vec![
        (b"autorun/client/init.lua", b"print('hi')\n"),
        (b"empty.lua", b""),
        (b"deep/er/and/deeper.lua", &big),
        (b"bars.lua", b"|||"),
    ];
    for with_sentinel in [false, true] {
        let decoded = decode(ContainerFormat::Chunked, &pack_chunked(&entries, with_sentinel));
        let expected: Vec<Entry> = entries.iter().map(|(p, b)| entry(p, b)).collect();
        assert_eq!(decoded, Ok(expected));
    }
}
