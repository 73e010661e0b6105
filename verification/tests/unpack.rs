use gluapack_unpack::container::Entry;
use gluapack_unpack::error::{IntErrorKind, IoErrorKind, UnpackingError};
use gluapack_unpack::unpack::Unpacker;

fn entry(path: &[u8], payload: &[u8]) -> Entry {
    Entry { path: path.to_vec(), payload: payload.to_vec() }
}

const EOF_ERROR: UnpackingError = UnpackingError::IoError { kind: IoErrorKind::UnexpectedEof };

#[test]
fn unpacker_defaults_to_in_place() {
    let unpacker = Unpacker::new(b"addon".to_vec(), None, true);
    assert_eq!(unpacker.dir, b"addon".to_vec());
    assert_eq!(unpacker.out_dir, b"addon".to_vec());
    assert!(unpacker.quiet);
    assert!(unpacker.in_place());
}

#[test]
fn unpacker_with_an_output_folder() {
    let unpacker = Unpacker::new(b"addon".to_vec(), Some(b"out".to_vec()), false);
    assert_eq!(unpacker.dir, b"addon".to_vec());
    assert_eq!(unpacker.out_dir, b"out".to_vec());
    assert!(!unpacker.quiet);
    assert!(!unpacker.in_place());
    let same = Unpacker::new(b"addon".to_vec(), Some(b"addon".to_vec()), false);
    assert!(same.in_place());
}

#[test]
fn parse_sv_packed_file_reads_the_legacy_format() {
    let data = b"a.lua\0\x01\0\0\0xb.lua\0\0\0\0\0\0";
    assert_eq!(
        Unpacker::parse_sv_packed_file(data),
        Ok(vec![entry(b"a.lua", b"x"), entry(b"b.lua", b"")])
    );
    // A bar is no terminator there.
    assert_eq!(Unpacker::parse_sv_packed_file(b"a|1|x"), Err(EOF_ERROR));
}

#[test]
fn parse_packed_files_reads_commented_chunks() {
    let files = vec![b"--a.lua|1|xb.lua|".to_vec(), b"--5|line\n--c.lua|0|".to_vec()];
    assert_eq!(
        Unpacker::parse_packed_files(&files),
        Ok(vec![entry(b"a.lua", b"x"), entry(b"b.lua", b"line\n"), entry(b"c.lua", b"")])
    );
}

#[test]
fn parse_packed_files_of_no_file() {
    assert_eq!(Unpacker::parse_packed_files(&vec![]), Ok(vec![]));
    assert_eq!(Unpacker::parse_packed_files(&vec![vec![], b"--".to_vec()]), Ok(vec![]));
}

#[test]
fn parse_packed_files_goes_by_list_order() {
    let files = vec![b"--5|line\n--c.lua|0|".to_vec(), b"--a.lua|1|xb.lua|".to_vec()];
    assert_eq!(
        Unpacker::parse_packed_files(&files),
        Err(UnpackingError::ParseIntError { kind: IntErrorKind::InvalidDigit })
    );
}

#[test]
fn unpack_counts_streams_not_files() {
    let cl = vec![b"--a|1|".to_vec(), b"--x".to_vec(), b"--b|0|".to_vec()];
    let sh = vec![];
    let unpacked = Unpacker::unpack(None, &cl, &sh).unwrap();
    assert_eq!(unpacked.entries, vec![entry(b"a", b"x"), entry(b"b", b"")]);
    assert_eq!(unpacked.total_unpacked_files(), 2);
    assert_eq!(unpacked.total_packed_files, 2);
    let unpacked = Unpacker::unpack(Some(b""), &cl, &sh).unwrap();
    assert_eq!(unpacked.total_unpacked_files(), 2);
    assert_eq!(unpacked.total_packed_files, 3);
}

#[test]
fn unpack_of_nothing() {
    let unpacked = Unpacker::unpack(None, &vec![], &vec![]).unwrap();
    assert!(unpacked.entries.is_empty());
    assert_eq!(unpacked.total_unpacked_files(), 0);
    assert_eq!(unpacked.total_packed_files, 2);
}

#[test]
fn unpack_puts_the_streams_in_order() {
    let sv = b"sv.lua\0\x02\0\0\0sv";
    let cl = vec![b"--cl.lua|2|cl".to_vec()];
    let sh = vec![b"--sh.lua|2|sh".to_vec()];
    let unpacked = Unpacker::unpack(Some(sv), &cl, &sh).unwrap();
    assert_eq!(
        unpacked.entries,
        vec![entry(b"sv.lua", b"sv"), entry(b"cl.lua", b"cl"), entry(b"sh.lua", b"sh")]
    );
    assert_eq!(unpacked.total_unpacked_files(), 3);
    assert_eq!(unpacked.total_packed_files, 3);
}

#[test]
fn unpack_fails_with_the_first_failure() {
    let good_sv: &[u8] = b"sv.lua\0\x02\0\0\0sv";
    let bad_sv: &[u8] = b"sv.lua\0\x02\0";
    let good = vec![b"--a|1|x".to_vec()];
    let bad_digit = vec![b"--a|x|x".to_vec()];
    let bad_text = vec![b"--a|\xff|x".to_vec()];
    let truncated = Err(UnpackingError::ParseIntError { kind: IntErrorKind::Truncated });
    let invalid = Err(UnpackingError::ParseIntError { kind: IntErrorKind::InvalidDigit });
    let not_text = Err(UnpackingError::Utf8Error { valid_up_to: 0 });
    assert_eq!(Unpacker::unpack(Some(bad_sv), &bad_digit, &bad_text).map(|u| u.entries), truncated);
    assert_eq!(Unpacker::unpack(Some(good_sv), &bad_digit, &bad_text).map(|u| u.entries), invalid);
    assert_eq!(Unpacker::unpack(Some(good_sv), &good, &bad_text).map(|u| u.entries), not_text);
    assert_eq!(Unpacker::unpack(None, &bad_text, &bad_digit).map(|u| u.entries), not_text);
    assert!(Unpacker::unpack(Some(good_sv), &good, &good).is_ok());
}
