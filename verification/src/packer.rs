//! What a packer writes, and the laws that tie it to the decoder.
//!
//! Nothing here runs: the packer is a model, and the laws are proved of
//! the decoder's own definitions.

use crate::comment::{
    are_lines, commented, is_line, lemma_strip_commented, line_len, strip_comments,
    COMMENT_MARKER_LEN, NEWLINE,
};
use crate::container::{
    decode_spec, le_u32, lemma_read_step, length_field, read_step, ContainerFormat, Record, Step,
    TERMINATOR_HACK,
};
use crate::error::{IntErrorKind, UnpackingError};
use crate::hex::{all_hex, hex_digits, hex_value, is_hex_digit, lemma_hex_digits_value};
use crate::scan::{lemma_index_of, lemma_index_of_unique};
use crate::unpack::stream_spec;
use crate::utf8::valid_up_to;
use vstd::prelude::*;
use vstd::utf8::{pop_first_scalar, valid_first_scalar, valid_utf8};

verus! {

/// A length in four bytes, least significant first.
pub open spec fn le_bytes(n: int) -> Seq<u8>
    recommends
        0 <= n <= u32::MAX,
{
    seq![
        (n % 0x100) as u8,
        ((n / 0x100) % 0x100) as u8,
        ((n / 0x1_0000) % 0x100) as u8,
        ((n / 0x100_0000) % 0x100) as u8,
    ]
}

/// The length field of a payload of `n` bytes.
pub open spec fn encode_length(format: ContainerFormat, n: int) -> Seq<u8> {
    match format {
        ContainerFormat::Legacy => le_bytes(n),
        ContainerFormat::Chunked => hex_digits(n as nat).push(TERMINATOR_HACK),
    }
}

/// What stands before the payload of a record: the path, its terminator,
/// and the length field.
pub open spec fn encode_header(format: ContainerFormat, record: Record) -> Seq<u8> {
    record.path.push(format.spec_terminator()) + encode_length(
        format,
        record.payload.len() as int,
    )
}

/// A record as a packer writes it.
pub open spec fn encode_record(format: ContainerFormat, record: Record) -> Seq<u8> {
    encode_header(format, record) + record.payload
}

/// A run of records as a packer writes it, one behind the other.
pub open spec fn encode_spec(format: ContainerFormat, records: Seq<Record>) -> Seq<u8>
    decreases records.len(),
{
    if records.len() == 0 {
        Seq::empty()
    } else {
        encode_record(format, records[0]) + encode_spec(format, records.skip(1))
    }
}

/// A record that the format can hold: its path is not empty and holds no
/// terminator, its payload has at most `u32::MAX` bytes, and in the chunked
/// format its path is UTF-8.
pub open spec fn packable(format: ContainerFormat, record: Record) -> bool {
    &&& record.path.len() > 0
    &&& forall|i: int|
        0 <= i < record.path.len() ==> record.path[i] != format.spec_terminator()
    &&& record.payload.len() <= u32::MAX
    &&& format.checks_path() ==> valid_utf8(record.path)
}

/// Every record of the run is one that the format can hold.
pub open spec fn all_packable(format: ContainerFormat, records: Seq<Record>) -> bool {
    forall|i: int| 0 <= i < records.len() ==> packable(format, #[trigger] records[i])
}

/// What may follow the last record of a container: nothing, or an empty
/// path and whatever comes behind it.
pub open spec fn ends_run(format: ContainerFormat, tail: Seq<u8>) -> bool {
    tail.len() == 0 || tail[0] == format.spec_terminator()
}

/// A length in four bytes reads back as itself.
pub proof fn lemma_le_bytes(n: int)
    requires
        0 <= n <= u32::MAX,
    ensures
        le_bytes(n).len() == 4,
        le_u32(le_bytes(n)) == n,
{
    let b = le_bytes(n);
    assert(b[0] == n % 0x100);
    assert(b[1] == (n / 0x100) % 0x100);
    assert(b[2] == (n / 0x1_0000) % 0x100);
    assert(b[3] == n / 0x100_0000);
}

/// Bytes below `0x80` are UTF-8.
pub proof fn lemma_ascii_is_utf8(s: Seq<u8>)
    requires
        forall|i: int| 0 <= i < s.len() ==> s[i] < 0x80,
    ensures
        valid_utf8(s),
    decreases s.len(),
{
    if s.len() > 0 {
        let b = s[0];
        assert((b & 0x7f) as u32 <= 0x7f) by (bit_vector);
        assert(valid_first_scalar(s));
        let rest = pop_first_scalar(s);
        assert forall|i: int| 0 <= i < rest.len() implies rest[i] < 0x80 by {
            assert(rest[i] == s[i + 1]);
        }
        lemma_ascii_is_utf8(rest);
    }
}

/// A length field in the digits `digits`, closed by the terminator, reads
/// as the number that the digits stand for.
pub proof fn lemma_read_hex_field(digits: Seq<u8>, body: Seq<u8>)
    requires
        digits.len() > 0,
        all_hex(digits),
        hex_value(digits) <= u32::MAX,
    ensures
        length_field(ContainerFormat::Chunked, digits.push(TERMINATOR_HACK) + body) == Ok::<
            (u32, int),
            UnpackingError,
        >((hex_value(digits) as u32, (digits.len() + 1) as int)),
{
    let s = digits.push(TERMINATOR_HACK) + body;
    assert forall|j: int| 0 <= j < digits.len() implies s[j] != TERMINATOR_HACK by {
        assert(s[j] == digits[j]);
        assert(is_hex_digit(digits[j]));
    }
    assert(s[digits.len() as int] == TERMINATOR_HACK);
    lemma_index_of_unique(s, TERMINATOR_HACK, digits.len() as int);
    assert(s.take(digits.len() as int) =~= digits);
    assert forall|i: int| 0 <= i < digits.len() implies digits[i] < 0x80 by {
        assert(is_hex_digit(digits[i]));
    }
    lemma_ascii_is_utf8(digits);
}

/// The length field that a packer writes reads as the length.
pub proof fn lemma_read_length(format: ContainerFormat, n: int, body: Seq<u8>)
    requires
        0 <= n <= u32::MAX,
    ensures
        length_field(format, encode_length(format, n) + body) == Ok::<(u32, int), UnpackingError>(
            (n as u32, encode_length(format, n).len() as int),
        ),
{
    match format {
        ContainerFormat::Legacy => {
            lemma_le_bytes(n);
            assert((le_bytes(n) + body).take(4) =~= le_bytes(n));
        },
        ContainerFormat::Chunked => {
            lemma_hex_digits_value(n as nat);
            lemma_read_hex_field(hex_digits(n as nat), body);
        },
    }
}

/// What reading gives where a path, its terminator and a length field are
/// followed by `body`: the record whose payload is the first bytes of
/// `body`, as many as the length says, or the end of the source where
/// `body` has fewer.
pub proof fn lemma_read_header(
    format: ContainerFormat,
    path: Seq<u8>,
    field: Seq<u8>,
    n: u32,
    body: Seq<u8>,
)
    requires
        path.len() > 0,
        forall|i: int| 0 <= i < path.len() ==> path[i] != format.spec_terminator(),
        format.checks_path() ==> valid_utf8(path),
        forall|rest: Seq<u8>| #[trigger]
            length_field(format, field + rest) == Ok::<(u32, int), UnpackingError>(
                (n, field.len() as int),
            ),
    ensures
        read_step(format, path.push(format.spec_terminator()) + field + body) == (if body.len()
            < n {
            Step::Fail { error: UnpackingError::eof() }
        } else {
            Step::Read {
                record: Record { path, payload: body.take(n as int) },
                consumed: path.len() + 1 + field.len() + n,
            }
        }),
{
    let term = format.spec_terminator();
    let s = path.push(term) + field + body;
    assert forall|j: int| 0 <= j < path.len() implies s[j] != term by {
        assert(s[j] == path[j]);
    }
    assert(s[path.len() as int] == term);
    lemma_index_of_unique(s, term, path.len() as int);
    assert(s.take(path.len() as int) =~= path);
    let after_path = s.skip((path.len() + 1) as int);
    assert(after_path =~= field + body);
    assert(after_path.skip(field.len() as int) =~= body);
}

/// Reading a record that a packer wrote gives the record back, and takes
/// the bytes of the record and no more.
pub proof fn lemma_read_encoded(format: ContainerFormat, record: Record, rest: Seq<u8>)
    requires
        packable(format, record),
    ensures
        read_step(format, encode_record(format, record) + rest) == (Step::Read {
            record,
            consumed: encode_record(format, record).len() as int,
        }),
{
    let n = record.payload.len() as int;
    let field = encode_length(format, n);
    assert forall|more: Seq<u8>| #[trigger]
        length_field(format, field + more) == Ok::<(u32, int), UnpackingError>(
            (n as u32, field.len() as int),
        ) by {
        lemma_read_length(format, n, more);
    }
    let body = record.payload + rest;
    lemma_read_header(format, record.path, field, n as u32, body);
    assert(encode_record(format, record) + rest =~= record.path.push(format.spec_terminator())
        + field + body);
    assert(body.take(n) =~= record.payload);
}

/// Where the run of records ends, decoding gives no record.
pub proof fn lemma_decode_end(format: ContainerFormat, tail: Seq<u8>)
    requires
        ends_run(format, tail),
    ensures
        decode_spec(format, tail) == Ok::<Seq<Record>, UnpackingError>(Seq::empty()),
{
    if tail.len() > 0 {
        lemma_index_of_unique(tail, format.spec_terminator(), 0);
    }
    assert(read_step(format, tail) == Step::End);
}

/// Decoding a record that a packer wrote, and what follows it, gives the
/// record and then whatever decoding what follows gives.
pub proof fn lemma_decode_encoded(format: ContainerFormat, record: Record, rest: Seq<u8>)
    requires
        packable(format, record),
    ensures
        decode_spec(format, encode_record(format, record) + rest) == (match decode_spec(
            format,
            rest,
        ) {
            Ok(others) => Ok::<Seq<Record>, UnpackingError>(seq![record] + others),
            Err(error) => Err(error),
        }),
{
    let whole = encode_record(format, record) + rest;
    lemma_read_encoded(format, record, rest);
    assert(whole.skip(encode_record(format, record).len() as int) =~= rest);
}

/// Decoding a run of records that a packer wrote, and what follows it,
/// gives the records and then whatever decoding what follows gives.
pub proof fn lemma_decode_encoded_run(
    format: ContainerFormat,
    records: Seq<Record>,
    rest: Seq<u8>,
)
    requires
        all_packable(format, records),
    ensures
        decode_spec(format, encode_spec(format, records) + rest) == (match decode_spec(
            format,
            rest,
        ) {
            Ok(others) => Ok::<Seq<Record>, UnpackingError>(records + others),
            Err(error) => Err(error),
        }),
    decreases records.len(),
{
    if records.len() == 0 {
        assert(encode_spec(format, records) + rest =~= rest);
        match decode_spec(format, rest) {
            Ok(others) => {
                assert(records + others =~= others);
            },
            Err(_) => {},
        }
    } else {
        let first = records[0];
        let others = records.skip(1);
        let behind = encode_spec(format, others) + rest;
        assert(encode_spec(format, records) + rest =~= encode_record(format, first) + behind);
        lemma_decode_encoded(format, first, behind);
        assert forall|i: int| 0 <= i < others.len() implies packable(
            format,
            #[trigger] others[i],
        ) by {
            assert(others[i] == records[i + 1]);
        }
        lemma_decode_encoded_run(format, others, rest);
        match decode_spec(format, rest) {
            Ok(more) => {
                assert(seq![first] + (others + more) =~= records + more);
            },
            Err(_) => {},
        }
    }
}

/// Round trip: a container that a packer wrote decodes to the records that
/// went in, with the same paths and the same bytes, in the same order. The
/// container may end with its last record, or with an empty path behind it.
pub proof fn lemma_round_trip(format: ContainerFormat, records: Seq<Record>, tail: Seq<u8>)
    requires
        all_packable(format, records),
        ends_run(format, tail),
    ensures
        decode_spec(format, encode_spec(format, records) + tail) == Ok::<
            Seq<Record>,
            UnpackingError,
        >(records),
{
    lemma_decode_encoded_run(format, records, tail);
    lemma_decode_end(format, tail);
    assert(records + Seq::<Record>::empty() =~= records);
}

/// A record whose payload is cut short does not read: the source ends.
pub proof fn lemma_read_truncated(format: ContainerFormat, last: Record, kept: int)
    requires
        packable(format, last),
        0 <= kept < last.payload.len(),
    ensures
        decode_spec(format, encode_header(format, last) + last.payload.take(kept)) == Err::<
            Seq<Record>,
            UnpackingError,
        >(UnpackingError::eof()),
{
    let n = last.payload.len() as int;
    let field = encode_length(format, n);
    assert forall|more: Seq<u8>| #[trigger]
        length_field(format, field + more) == Ok::<(u32, int), UnpackingError>(
            (n as u32, field.len() as int),
        ) by {
        lemma_read_length(format, n, more);
    }
    lemma_read_header(format, last.path, field, n as u32, last.payload.take(kept));
    assert(encode_header(format, last) + last.payload.take(kept) =~= last.path.push(
        format.spec_terminator(),
    ) + field + last.payload.take(kept));
}

/// Truncation: a container that ends inside the payload of a record does
/// not decode. Whatever records stand before, the decoder fails with the
/// end of the source and gives no short file.
pub proof fn lemma_truncated_payload(
    format: ContainerFormat,
    records: Seq<Record>,
    last: Record,
    kept: int,
)
    requires
        all_packable(format, records),
        packable(format, last),
        0 <= kept < last.payload.len(),
    ensures
        decode_spec(
            format,
            encode_spec(format, records) + encode_header(format, last) + last.payload.take(kept),
        ) == Err::<Seq<Record>, UnpackingError>(UnpackingError::eof()),
{
    let cut = encode_header(format, last) + last.payload.take(kept);
    assert(encode_spec(format, records) + encode_header(format, last) + last.payload.take(kept)
        =~= encode_spec(format, records) + cut);
    lemma_decode_encoded_run(format, records, cut);
    lemma_read_truncated(format, last, kept);
}

/// What a length field that holds a byte that is no digit fails with: the
/// format where the field is text, the encoding where it is not.
pub open spec fn bad_length_error(field: Seq<u8>) -> UnpackingError {
    if valid_utf8(field) {
        UnpackingError::ParseIntError { kind: IntErrorKind::InvalidDigit }
    } else {
        UnpackingError::Utf8Error { valid_up_to: valid_up_to(field) as usize }
    }
}

/// Hex robustness: a container of the chunked format in which a length
/// field holds a byte that is no hexadecimal digit does not decode,
/// whatever records stand before and whatever follows.
pub proof fn lemma_bad_length_field(
    records: Seq<Record>,
    path: Seq<u8>,
    field: Seq<u8>,
    rest: Seq<u8>,
)
    requires
        all_packable(ContainerFormat::Chunked, records),
        path.len() > 0,
        forall|i: int| 0 <= i < path.len() ==> path[i] != TERMINATOR_HACK,
        forall|i: int| 0 <= i < field.len() ==> field[i] != TERMINATOR_HACK,
        !all_hex(field),
    ensures
        decode_spec(
            ContainerFormat::Chunked,
            encode_spec(ContainerFormat::Chunked, records) + path.push(TERMINATOR_HACK)
                + field.push(TERMINATOR_HACK) + rest,
        ) == Err::<Seq<Record>, UnpackingError>(bad_length_error(field)),
{
    let format = ContainerFormat::Chunked;
    let bad = path.push(TERMINATOR_HACK) + field.push(TERMINATOR_HACK) + rest;
    assert(encode_spec(format, records) + path.push(TERMINATOR_HACK) + field.push(TERMINATOR_HACK)
        + rest =~= encode_spec(format, records) + bad);
    lemma_decode_encoded_run(format, records, bad);
    assert forall|j: int| 0 <= j < path.len() implies bad[j] != TERMINATOR_HACK by {
        assert(bad[j] == path[j]);
    }
    assert(bad[path.len() as int] == TERMINATOR_HACK);
    lemma_index_of_unique(bad, TERMINATOR_HACK, path.len() as int);
    let after_path = bad.skip((path.len() + 1) as int);
    assert(after_path =~= field.push(TERMINATOR_HACK) + rest);
    assert forall|j: int| 0 <= j < field.len() implies after_path[j] != TERMINATOR_HACK by {
        assert(after_path[j] == field[j]);
    }
    assert(after_path[field.len() as int] == TERMINATOR_HACK);
    lemma_index_of_unique(after_path, TERMINATOR_HACK, field.len() as int);
    assert(after_path.take(field.len() as int) =~= field);
    assert(read_step(format, bad) == Step::Fail { error: bad_length_error(field) });
}

/// What decodes could have been packed: every record that a container
/// decodes to is one that the format can hold.
pub proof fn lemma_decoded_are_packable(format: ContainerFormat, s: Seq<u8>)
    ensures
        decode_spec(format, s) matches Ok(records) ==> all_packable(format, records),
    decreases s.len(),
{
    lemma_read_step(format, s);
    match read_step(format, s) {
        Step::Read { record, consumed } => {
            let behind = s.skip(consumed);
            lemma_decoded_are_packable(format, behind);
            match decode_spec(format, behind) {
                Ok(others) => {
                    let records = seq![record] + others;
                    assert forall|i: int| 0 <= i < records.len() implies packable(
                        format,
                        #[trigger] records[i],
                    ) by {
                        if i > 0 {
                            assert(records[i] == others[i - 1]);
                        }
                    }
                },
                Err(_) => {},
            }
        },
        _ => {},
    }
}

/// The sentinel alone: a container that holds nothing but an empty path
/// decodes to no record, and so does a container that holds nothing.
pub proof fn lemma_sentinel_only(format: ContainerFormat)
    ensures
        decode_spec(format, seq![format.spec_terminator()]) == Ok::<Seq<Record>, UnpackingError>(
            Seq::empty(),
        ),
        decode_spec(format, Seq::empty()) == Ok::<Seq<Record>, UnpackingError>(Seq::empty()),
{
    let records = Seq::<Record>::empty();
    lemma_round_trip(format, records, seq![format.spec_terminator()]);
    lemma_round_trip(format, records, Seq::empty());
    assert(encode_spec(format, records) + seq![format.spec_terminator()] =~= seq![
        format.spec_terminator(),
    ]);
    assert(encode_spec(format, records) + Seq::<u8>::empty() =~= Seq::<u8>::empty());
}

/// A payload cut into its lines, each with the newline that ends it.
pub open spec fn split_lines(payload: Seq<u8>) -> Seq<Seq<u8>>
    decreases payload.len(),
    via split_lines_decreases
{
    if payload.len() == 0 {
        Seq::empty()
    } else {
        let n = line_len(payload);
        seq![payload.take(n)] + split_lines(payload.skip(n))
    }
}

#[via_fn]
proof fn split_lines_decreases(payload: Seq<u8>) {
    lemma_index_of(payload, NEWLINE);
}

/// A payload as a packer hides it in a chunk file: a marker before each of
/// its lines.
pub open spec fn comment_out(marker: Seq<u8>, payload: Seq<u8>) -> Seq<u8> {
    commented(marker, split_lines(payload))
}

/// The lines of a payload are lines, and put together again they are the
/// payload.
pub proof fn lemma_split_lines(payload: Seq<u8>)
    ensures
        are_lines(split_lines(payload)),
        split_lines(payload).flatten() == payload,
    decreases payload.len(),
{
    lemma_index_of(payload, NEWLINE);
    if payload.len() == 0 {
        assert(split_lines(payload).flatten() =~= payload);
    } else {
        let n = line_len(payload);
        let first = payload.take(n);
        let rest = payload.skip(n);
        let lines = split_lines(payload);
        let others = split_lines(rest);
        lemma_split_lines(rest);
        assert(lines.first() == first);
        assert(lines.drop_first() =~= others);
        assert(first + rest =~= payload);
        assert forall|i: int| 0 <= i < lines.len() implies {
            &&& is_line(#[trigger] lines[i])
            &&& i < lines.len() - 1 ==> lines[i].len() > 0 && lines[i].last() == NEWLINE
        } by {
            if i == 0 {
                if lines.len() > 1 {
                    assert(others.len() > 0);
                    assert(rest.len() > 0);
                }
            } else {
                assert(lines[i] == others[i - 1]);
            }
        }
    }
}

/// Stripping the comments of a payload that a packer hid in a chunk file
/// gives the payload back, whatever bytes it holds.
pub proof fn lemma_strip_comment_out(marker: Seq<u8>, payload: Seq<u8>)
    requires
        marker.len() == COMMENT_MARKER_LEN,
    ensures
        strip_comments(comment_out(marker, payload)) == payload,
{
    lemma_split_lines(payload);
    lemma_strip_commented(marker, split_lines(payload));
}

/// Round trip through chunk files: a container of the chunked format, cut
/// into pieces at any places and each piece hidden in a chunk file,
/// decodes from those files, taken in order, to the records that went in.
pub proof fn lemma_round_trip_chunk_files(
    marker: Seq<u8>,
    pieces: Seq<Seq<u8>>,
    records: Seq<Record>,
    tail: Seq<u8>,
)
    requires
        marker.len() == COMMENT_MARKER_LEN,
        all_packable(ContainerFormat::Chunked, records),
        ends_run(ContainerFormat::Chunked, tail),
        pieces.flatten() == encode_spec(ContainerFormat::Chunked, records) + tail,
    ensures
        stream_spec(pieces.map_values(|piece: Seq<u8>| comment_out(marker, piece))) == Ok::<
            Seq<Record>,
            UnpackingError,
        >(records),
{
    let files = pieces.map_values(|piece: Seq<u8>| comment_out(marker, piece));
    let stripped = files.map_values(|file: Seq<u8>| strip_comments(file));
    assert forall|i: int| 0 <= i < pieces.len() implies stripped[i] == pieces[i] by {
        lemma_strip_comment_out(marker, pieces[i]);
    }
    assert(stripped =~= pieces);
    lemma_round_trip(ContainerFormat::Chunked, records, tail);
}

} // verus!
