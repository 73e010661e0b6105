//! The two container formats and the stream of records that both hold.
//!
//! A container is a run of records, each a path, a length and a payload of
//! exactly that many bytes. The formats differ in the byte that closes a
//! path and in how the length is written. An empty path, or the end of the
//! source where a record would begin, ends the run: a container need not
//! close with an empty path, so one that was cut between two records
//! cannot be told from a whole one. A source that ends anywhere else, inside
//! a record, is no container.

use crate::error::{IntErrorKind, IoErrorKind, UnpackingError};
use crate::hex::{parse_hex, parse_hex_spec};
use crate::scan::{find_byte, index_of, lemma_index_of, rest_at};
use crate::utf8::{valid_up_to, validate_utf8};
use vstd::prelude::*;
use vstd::slice::{slice_subrange, slice_to_vec};
use vstd::utf8::valid_utf8;

verus! {

/// The byte that closes the path and the length field of a record in the
/// chunked format.
pub const TERMINATOR_HACK: u8 = 0x7c;

/// How a container frames its records.
#[derive(Clone, Copy, Debug, PartialEq, Eq, Structural)]
pub enum ContainerFormat {
    /// Path closed by a zero byte, length in four bytes, least significant
    /// first.
    Legacy,
    /// Path and length each closed by `TERMINATOR_HACK`, length in
    /// hexadecimal digits.
    Chunked,
}

/// One record of a container, as mathematics sees it.
pub struct Record {
    pub path: Seq<u8>,
    pub payload: Seq<u8>,
}

/// One record of a container: the path of a file below the output's script
/// folder, and the bytes of that file.
#[derive(Clone, Debug, PartialEq, Eq)]
pub struct Entry {
    pub path: Vec<u8>,
    pub payload: Vec<u8>,
}

impl View for Entry {
    type V = Record;

    open spec fn view(&self) -> Record {
        Record { path: self.path@, payload: self.payload@ }
    }
}

/// The records that a vector of entries stands for.
pub open spec fn records_of(entries: Seq<Entry>) -> Seq<Record> {
    entries.map_values(|e: Entry| e@)
}

/// What reading one record off the front of a byte string gives.
pub enum Step {
    /// The run of records ends here.
    End,
    /// A record, and the number of bytes that it took.
    Read { record: Record, consumed: int },
    /// The bytes are no record.
    Fail { error: UnpackingError },
}

/// Four bytes read as a number, least significant first.
pub open spec fn le_u32(b: Seq<u8>) -> int
    recommends
        b.len() == 4,
{
    b[0] + 0x100 * b[1] + 0x1_0000 * b[2] + 0x100_0000 * b[3]
}

impl ContainerFormat {
    /// The byte that closes a path.
    pub open spec fn spec_terminator(self) -> u8 {
        match self {
            ContainerFormat::Legacy => 0u8,
            ContainerFormat::Chunked => TERMINATOR_HACK,
        }
    }

    /// The byte that closes a path.
    #[verifier::when_used_as_spec(spec_terminator)]
    pub fn terminator(self) -> (byte: u8)
        ensures
            byte == self.spec_terminator(),
    {
        match self {
            ContainerFormat::Legacy => 0u8,
            ContainerFormat::Chunked => TERMINATOR_HACK,
        }
    }

    /// Whether a path must be UTF-8.
    pub open spec fn checks_path(self) -> bool {
        self is Chunked
    }
}

/// What the length field at the front of `s` reads as: the length of the
/// payload, and the number of bytes that the field takes.
pub open spec fn length_field(format: ContainerFormat, s: Seq<u8>) -> Result<
    (u32, int),
    UnpackingError,
> {
    match format {
        ContainerFormat::Legacy => {
            if s.len() < 4 {
                Err(UnpackingError::ParseIntError { kind: IntErrorKind::Truncated })
            } else {
                Ok((le_u32(s.take(4)) as u32, 4))
            }
        },
        ContainerFormat::Chunked => {
            let end = index_of(s, TERMINATOR_HACK);
            let field = s.take(end);
            if end == s.len() {
                Err(UnpackingError::eof())
            } else if !valid_utf8(field) {
                Err(UnpackingError::Utf8Error { valid_up_to: valid_up_to(field) as usize })
            } else {
                match parse_hex_spec(field) {
                    Ok(n) => Ok((n, end + 1)),
                    Err(kind) => Err(UnpackingError::ParseIntError { kind }),
                }
            }
        },
    }
}

/// What reading one record off the front of `s` gives.
///
/// The run ends where `s` is empty or begins with the terminator. Else the
/// path runs up to the first terminator, the length field follows, and the
/// payload is the next bytes, as many as the length says. A source that ends
/// before the path is closed, or before the payload is whole, fails with the
/// end of the source; a length field that cannot be read fails as
/// `length_field` says; in the chunked format a path that is not UTF-8 fails
/// once the length has been read.
pub open spec fn read_step(format: ContainerFormat, s: Seq<u8>) -> Step {
    let end = index_of(s, format.spec_terminator());
    if end == 0 {
        Step::End
    } else if end == s.len() {
        Step::Fail { error: UnpackingError::eof() }
    } else {
        let path = s.take(end);
        let after_path = s.skip(end + 1);
        match length_field(format, after_path) {
            Err(error) => Step::Fail { error },
            Ok((n, width)) => {
                let body = after_path.skip(width);
                if format.checks_path() && !valid_utf8(path) {
                    Step::Fail {
                        error: UnpackingError::Utf8Error {
                            valid_up_to: valid_up_to(path) as usize,
                        },
                    }
                } else if body.len() < n {
                    Step::Fail { error: UnpackingError::eof() }
                } else {
                    Step::Read {
                        record: Record { path, payload: body.take(n as int) },
                        consumed: end + 1 + width + n,
                    }
                }
            },
        }
    }
}

/// A record that was read has a path that is not empty and holds no
/// terminator, and that is UTF-8 in the chunked format; it has a payload
/// of at most `u32::MAX` bytes; and it took at least two bytes and no more
/// than there are.
pub proof fn lemma_read_step(format: ContainerFormat, s: Seq<u8>)
    ensures
        read_step(format, s) matches Step::Read { record, consumed } ==> {
            &&& 2 <= consumed <= s.len()
            &&& record.path.len() > 0
            &&& forall|i: int|
                0 <= i < record.path.len() ==> record.path[i] != format.spec_terminator()
            &&& record.payload.len() <= u32::MAX
            &&& format.checks_path() ==> valid_utf8(record.path)
        },
{
    let term = format.spec_terminator();
    lemma_index_of(s, term);
    let end = index_of(s, term);
    if 0 < end < s.len() {
        let after_path = s.skip(end + 1);
        if format is Chunked {
            lemma_index_of(after_path, TERMINATOR_HACK);
        }
    }
}

/// The records of a container, in the order in which they were written, or
/// the failure of the first record that cannot be read.
pub open spec fn decode_spec(format: ContainerFormat, s: Seq<u8>) -> Result<
    Seq<Record>,
    UnpackingError,
>
    decreases s.len(),
    via decode_spec_decreases
{
    match read_step(format, s) {
        Step::End => Ok(Seq::empty()),
        Step::Fail { error } => Err(error),
        Step::Read { record, consumed } => match decode_spec(format, s.skip(consumed)) {
            Ok(rest) => Ok(seq![record] + rest),
            Err(error) => Err(error),
        },
    }
}

#[via_fn]
proof fn decode_spec_decreases(format: ContainerFormat, s: Seq<u8>) {
    lemma_read_step(format, s);
}

/// Reads the length field that begins at `pos`. Gives the length of the
/// payload and the position just behind the field.
fn read_length(format: ContainerFormat, data: &[u8], pos: usize) -> (read: Result<
    (u32, usize),
    UnpackingError,
>)
    requires
        pos <= data@.len(),
    ensures
        match length_field(format, data@.skip(pos as int)) {
            Ok((n, width)) => read == Ok::<(u32, usize), UnpackingError>(
                (n, (pos + width) as usize),
            ) && 1 <= width && pos + width <= data@.len(),
            Err(error) => read == Err::<(u32, usize), UnpackingError>(error),
        },
{
    let ghost rest = data@.skip(pos as int);
    match format {
        ContainerFormat::Legacy => {
            if data.len() - pos < 4 {
                return Err(UnpackingError::ParseIntError { kind: IntErrorKind::Truncated });
            }
            let b0 = data[pos];
            let b1 = data[pos + 1];
            let b2 = data[pos + 2];
            let b3 = data[pos + 3];
            proof {
                let field = rest.take(4);
                assert(field[0] == b0 && field[1] == b1 && field[2] == b2 && field[3] == b3);
            }
            let n: u32 = b0 as u32 + 0x100 * (b1 as u32) + 0x1_0000 * (b2 as u32) + 0x100_0000
                * (b3 as u32);
            Ok((n, pos + 4))
        },
        ContainerFormat::Chunked => {
            let end = find_byte(data, pos, TERMINATOR_HACK);
            if end == data.len() {
                return Err(UnpackingError::IoError { kind: IoErrorKind::UnexpectedEof });
            }
            let field = slice_subrange(data, pos, end);
            assert(field@ =~= rest.take(end - pos));
            match validate_utf8(field) {
                Err(valid_up_to) => Err(UnpackingError::Utf8Error { valid_up_to }),
                Ok(()) => match parse_hex(field) {
                    Ok(n) => Ok((n, end + 1)),
                    Err(kind) => Err(UnpackingError::ParseIntError { kind }),
                },
            }
        },
    }
}

/// Reads the record that begins at `pos`.
///
/// Gives `None` where the run of records ends, else the record and the
/// position of the next one. Behind the end of `data` there is nothing to
/// read, and so no record.
pub fn read_entry(format: ContainerFormat, data: &[u8], pos: usize) -> (read: Result<
    Option<(Entry, usize)>,
    UnpackingError,
>)
    ensures
        match read_step(format, rest_at(data@, pos as int)) {
            Step::End => read matches Ok(None),
            Step::Read { record, consumed } => read matches Ok(Some((entry, next)))
                && entry@ == record && next == pos + consumed && next <= data@.len(),
            Step::Fail { error } => read matches Err(e) && e == error,
        },
{
    if pos > data.len() {
        return Ok(None);
    }
    let ghost rest = data@.skip(pos as int);
    let end = find_byte(data, pos, format.terminator());
    if end == pos {
        return Ok(None);
    }
    if end == data.len() {
        return Err(UnpackingError::IoError { kind: IoErrorKind::UnexpectedEof });
    }
    let path = slice_subrange(data, pos, end);
    assert(path@ =~= rest.take(end - pos));
    assert(data@.skip(end + 1) =~= rest.skip(end - pos + 1));
    let (n, body_start) = match read_length(format, data, end + 1) {
        Ok(length) => length,
        Err(error) => {
            return Err(error);
        },
    };
    if let ContainerFormat::Chunked = format {
        if let Err(valid_up_to) = validate_utf8(path) {
            return Err(UnpackingError::Utf8Error { valid_up_to });
        }
    }
    let ghost body = data@.skip(body_start as int);
    assert(body =~= rest.skip(end - pos + 1).skip(body_start - (end + 1)));
    if data.len() - body_start < n as usize {
        return Err(UnpackingError::IoError { kind: IoErrorKind::UnexpectedEof });
    }
    let next = body_start + n as usize;
    let payload = slice_subrange(data, body_start, next);
    assert(payload@ =~= body.take(n as int));
    let entry = Entry { path: slice_to_vec(path), payload: slice_to_vec(payload) };
    Ok(Some((entry, next)))
}

/// Reads every record of a container, in order.
///
/// Gives the records up to the end of the run, or the failure of the first
/// record that cannot be read: nothing is skipped and nothing reordered.
pub fn decode(format: ContainerFormat, data: &[u8]) -> (decoded: Result<
    Vec<Entry>,
    UnpackingError,
>)
    ensures
        match decode_spec(format, data@) {
            Ok(records) => decoded matches Ok(entries) && records_of(entries@) == records,
            Err(error) => decoded matches Err(e) && e == error,
        },
{
    let mut entries: Vec<Entry> = Vec::new();
    let mut pos: usize = 0;
    assert(data@.skip(0) =~= data@);
    assert(records_of(entries@) =~= Seq::<Record>::empty());
    loop
        invariant
            pos <= data@.len(),
            decode_spec(format, data@) == match decode_spec(format, data@.skip(pos as int)) {
                Ok(rest) => Ok::<Seq<Record>, UnpackingError>(records_of(entries@) + rest),
                Err(error) => Err(error),
            },
        decreases data@.len() - pos,
    {
        let ghost rest = data@.skip(pos as int);
        let ghost done = records_of(entries@);
        proof {
            lemma_read_step(format, rest);
        }
        match read_entry(format, data, pos) {
            Err(error) => {
                return Err(error);
            },
            Ok(None) => {
                assert(done + Seq::<Record>::empty() =~= done);
                return Ok(entries);
            },
            Ok(Some((entry, next))) => {
                assert(rest.skip(next - pos) =~= data@.skip(next as int));
                entries.push(entry);
                proof {
                    let record = entry@;
                    assert(records_of(entries@) =~= done.push(record));
                    match decode_spec(format, data@.skip(next as int)) {
                        Ok(tail) => {
                            assert(done + (seq![record] + tail) =~= done.push(record) + tail);
                        },
                        Err(_) => {},
                    }
                }
                pos = next;
            },
        }
    }
}

} // verus!
