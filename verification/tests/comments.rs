use gluapack_unpack::comment::{
    preallocation_hint, read_commented_file, superchunk, COMMENT_MARKER_LEN, MAX_LUA_SIZE,
    MEM_PREALLOCATE_MAX,
};

fn comment_out(payload: &[u8]) -> Vec<u8> {
    let mut out = Vec::new();
    if payload.is_empty() {
        return out;
    }
    for line in payload.split_inclusive(|b| *b == b'\n') {
        out.extend_from_slice(b"--");
        out.extend_from_slice(line);
    }
    out
}

#[test]
fn marker_has_two_bytes() {
    assert_eq!(COMMENT_MARKER_LEN, 2);
}

#[test]
fn strips_the_marker_of_each_line() {
    assert_eq!(read_commented_file(b"--abc\n--def\n"), b"abc\ndef\n".to_vec());
    assert_eq!(read_commented_file(b"--abc\n--def"), b"abc\ndef".to_vec());
    assert_eq!(read_commented_file(b"--one line"), b"one line".to_vec());
}

#[test]
fn strips_n_lines_in_order() {
    let fragments: Vec<String> = (0..50).map(|i| format!("fragment {} |{}|\n", i, i * 7)).collect();
    let mut file = Vec::new();
    let mut payload = Vec::new();
    for fragment in &fragments {
        file.extend_from_slice(b"--");
        file.extend_from_slice(fragment.as_bytes());
        payload.extend_from_slice(fragment.as_bytes());
    }
    assert_eq!(read_commented_file(&file), payload);
}

#[test]
fn keeps_empty_lines_of_payload() {
    assert_eq!(read_commented_file(b"--\n--\n--x\n"), b"\n\nx\n".to_vec());
}

#[test]
fn file_without_payload() {
    assert_eq!(read_commented_file(b""), Vec::<u8>::new());
    assert_eq!(read_commented_file(b"-"), Vec::<u8>::new());
    assert_eq!(read_commented_file(b"--"), Vec::<u8>::new());
    assert_eq!(read_commented_file(b"--abc\n--"), b"abc\n".to_vec());
    assert_eq!(read_commented_file(b"--abc\n-"), b"abc\n".to_vec());
}

#[test]
fn marker_is_passed_over_whatever_it_holds() {
    assert_eq!(read_commented_file(b"//abc\n##def\n"), b"abc\ndef\n".to_vec());
    assert_eq!(read_commented_file(b"-\nabc\n--d"), b"abc\nd".to_vec());
    assert_eq!(read_commented_file(b"\n\n\n\n"), b"\n".to_vec());
}

#[test]
fn payload_may_be_any_bytes() {
    let payload: Vec<u8> = (0..=255u8).cycle().take(2000).collect();
    assert_eq!(read_commented_file(&comment_out(&payload)), payload);
    let payload = b"--not a marker\n----\n".to_vec();
    assert_eq!(read_commented_file(&comment_out(&payload)), payload);
}

#[test]
fn superchunk_joins_files_in_list_order() {
    let files = vec![
        b"--first\n--se".to_vec(),
        b"--cond\n".to_vec(),
        b"".to_vec(),
        b"--third".to_vec(),
    ];
    assert_eq!(superchunk(&files), b"first\nsecond\nthird".to_vec());
    let swapped = vec![files[3].clone(), files[1].clone(), files[0].clone()];
    assert_eq!(superchunk(&swapped), b"thirdcond\nfirst\nse".to_vec());
}

#[test]
fn superchunk_of_no_file_is_empty() {
    assert_eq!(superchunk(&vec![]), Vec::<u8>::new());
}

#[test]
fn superchunk_of_pieces_cut_anywhere() {
    let payload: Vec<u8> = b"a.lua|c|hello\nworld\nb.lua|0|c.lua|3|\n\n\n|".to_vec();
    for cut_a in 0..payload.len() {
        for cut_b in cut_a..payload.len() {
            let files = vec![
                comment_out(&payload[..cut_a]),
                comment_out(&payload[cut_a..cut_b]),
                comment_out(&payload[cut_b..]),
            ];
            assert_eq!(superchunk(&files), payload);
        }
    }
}

#[test]
fn preallocation_is_capped() {
    assert_eq!(MAX_LUA_SIZE, 65535);
    assert_eq!(MEM_PREALLOCATE_MAX, 1 << 30);
    assert_eq!(preallocation_hint(0), 0);
    assert_eq!(preallocation_hint(1), 65535);
    assert_eq!(preallocation_hint(3), 196605);
    assert_eq!(preallocation_hint(16384), 1073725440);
    assert_eq!(preallocation_hint(16385), 1073741824);
    assert_eq!(preallocation_hint(usize::MAX), 1073741824);
}
