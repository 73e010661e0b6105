use gluapack_unpack::error::{IntErrorKind, IoErrorKind, UnpackingError};

#[test]
fn messages_name_the_kind_of_failure() {
    assert_eq!(
        UnpackingError::IoError { kind: IoErrorKind::UnexpectedEof }.message(),
        "IO error: unexpected end of file"
    );
    assert_eq!(UnpackingError::IoError { kind: IoErrorKind::Other }.message(), "IO error");
    assert_eq!(
        UnpackingError::Utf8Error { valid_up_to: 3 }.message(),
        "UTF-8 error: invalid utf-8 sequence"
    );
    assert_eq!(
        UnpackingError::ParseIntError { kind: IntErrorKind::Empty }.message(),
        "File format error: cannot parse integer from empty string"
    );
    assert_eq!(
        UnpackingError::ParseIntError { kind: IntErrorKind::InvalidDigit }.message(),
        "File format error: invalid digit found in string"
    );
    assert_eq!(
        UnpackingError::ParseIntError { kind: IntErrorKind::PosOverflow }.message(),
        "File format error: number too large to fit in target type"
    );
    assert_eq!(
        UnpackingError::ParseIntError { kind: IntErrorKind::Truncated }.message(),
        "File format error: length field cut short"
    );
}

#[test]
fn failures_of_different_kinds_differ() {
    let io = UnpackingError::IoError { kind: IoErrorKind::UnexpectedEof };
    let text = UnpackingError::Utf8Error { valid_up_to: 0 };
    let format = UnpackingError::ParseIntError { kind: IntErrorKind::InvalidDigit };
    assert_ne!(io, text);
    assert_ne!(io, format);
    assert_ne!(text, format);
    assert_eq!(io, io.clone());
}
