//! The failures of an unpack.

use vstd::prelude::*;

verus! {

/// Why a read did not deliver the bytes it was asked for.
#[derive(Clone, Copy, Debug, PartialEq, Eq, Structural)]
pub enum IoErrorKind {
    /// The source ended inside a record: in a path, in a length field that
    /// is closed by a terminator, or in a payload.
    UnexpectedEof,
    /// Any other failure of the file system.
    Other,
}

/// Why a length field is no length.
#[derive(Clone, Copy, Debug, PartialEq, Eq, Structural)]
pub enum IntErrorKind {
    /// The field holds no digit at all.
    Empty,
    /// The field holds a byte that is no hexadecimal digit.
    InvalidDigit,
    /// The digits stand for a number above `u32::MAX`.
    PosOverflow,
    /// A fixed-width field was cut short by the end of the source.
    Truncated,
}

/// A failure that ends an unpack.
#[allow(inconsistent_fields)]
#[derive(Clone, Copy, Debug, PartialEq, Eq, Structural)]
pub enum UnpackingError {
    /// A read or write failed.
    IoError { kind: IoErrorKind },
    /// A path or a length field is not UTF-8; `valid_up_to` is the length of
    /// the longest prefix of the field that is.
    Utf8Error { valid_up_to: usize },
    /// A length field cannot be read as a length.
    ParseIntError { kind: IntErrorKind },
}

impl UnpackingError {
    /// The text that describes this failure.
    pub open spec fn spec_message(self) -> Seq<char> {
        match self {
            UnpackingError::IoError { kind: IoErrorKind::UnexpectedEof } => {
                "IO error: unexpected end of file"@
            },
            UnpackingError::IoError { kind: IoErrorKind::Other } => "IO error"@,
            UnpackingError::Utf8Error { .. } => "UTF-8 error: invalid utf-8 sequence"@,
            UnpackingError::ParseIntError { kind: IntErrorKind::Empty } => {
                "File format error: cannot parse integer from empty string"@
            },
            UnpackingError::ParseIntError { kind: IntErrorKind::InvalidDigit } => {
                "File format error: invalid digit found in string"@
            },
            UnpackingError::ParseIntError { kind: IntErrorKind::PosOverflow } => {
                "File format error: number too large to fit in target type"@
            },
            UnpackingError::ParseIntError { kind: IntErrorKind::Truncated } => {
                "File format error: length field cut short"@
            },
        }
    }

    /// Describes the failure in words, as a caller would print it.
    pub fn message(&self) -> (text: &'static str)
        ensures
            text@ == self.spec_message(),
    {
        match self {
            UnpackingError::IoError { kind: IoErrorKind::UnexpectedEof } => {
                "IO error: unexpected end of file"
            },
            UnpackingError::IoError { kind: IoErrorKind::Other } => "IO error",
            UnpackingError::Utf8Error { .. } => "UTF-8 error: invalid utf-8 sequence",
            UnpackingError::ParseIntError { kind: IntErrorKind::Empty } => {
                "File format error: cannot parse integer from empty string"
            },
            UnpackingError::ParseIntError { kind: IntErrorKind::InvalidDigit } => {
                "File format error: invalid digit found in string"
            },
            UnpackingError::ParseIntError { kind: IntErrorKind::PosOverflow } => {
                "File format error: number too large to fit in target type"
            },
            UnpackingError::ParseIntError { kind: IntErrorKind::Truncated } => {
                "File format error: length field cut short"
            },
        }
    }

    /// The end of the source inside a record.
    pub open spec fn eof() -> UnpackingError {
        UnpackingError::IoError { kind: IoErrorKind::UnexpectedEof }
    }
}

} // verus!
