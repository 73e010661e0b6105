//! Chunk files: payload hidden in the comment lines of a script.
//!
//! Every line of a chunk file begins with a marker of two bytes. What
//! follows the marker, up to and with the end of the line, is payload. The
//! payload of all the chunk files of one stream, file after file, is the
//! stream's container.

use crate::scan::{contents_of, find_byte, index_of, lemma_index_of, lemma_index_of_unique};
use vstd::prelude::*;
use vstd::slice::slice_subrange;

verus! {

/// The number of bytes that open each line of a chunk file.
pub const COMMENT_MARKER_LEN: usize = 2;

/// The byte that ends a line.
pub const NEWLINE: u8 = 0x0a;

/// The largest size of one chunk file.
pub const MAX_LUA_SIZE: usize = 65535;

/// The most that is set aside for a stream's container before it is read.
pub const MEM_PREALLOCATE_MAX: usize = 0x4000_0000;

/// The length of the first line of `s`, its newline included; the length of
/// `s` where it holds no newline.
pub open spec fn line_len(s: Seq<u8>) -> int {
    let end = index_of(s, NEWLINE);
    if end < s.len() {
        end + 1
    } else {
        end
    }
}

/// The payload of a chunk file: of each line what follows its marker.
///
/// A line is found by position alone: the marker's bytes are passed over
/// whatever they hold, a newline among them too, and the line then runs to
/// the next newline or to the end of the file.
pub open spec fn strip_comments(file: Seq<u8>) -> Seq<u8>
    decreases file.len(),
    via strip_comments_decreases
{
    if file.len() <= COMMENT_MARKER_LEN {
        Seq::empty()
    } else {
        let rest = file.skip(COMMENT_MARKER_LEN as int);
        let n = line_len(rest);
        rest.take(n) + strip_comments(rest.skip(n))
    }
}

#[via_fn]
proof fn strip_comments_decreases(file: Seq<u8>) {
    if file.len() > COMMENT_MARKER_LEN {
        lemma_index_of(file.skip(COMMENT_MARKER_LEN as int), NEWLINE);
    }
}

/// The container of a stream: the payload of its chunk files, in the order
/// of the list.
pub open spec fn superchunk_spec(files: Seq<Seq<u8>>) -> Seq<u8> {
    files.map_values(|file: Seq<u8>| strip_comments(file)).flatten()
}

/// The room to set aside for the container of `n` chunk files: the largest
/// size of a chunk file for each, but no more than `MEM_PREALLOCATE_MAX`.
pub open spec fn preallocation_spec(n: nat) -> int {
    if MAX_LUA_SIZE * n <= MEM_PREALLOCATE_MAX {
        MAX_LUA_SIZE * n
    } else {
        MEM_PREALLOCATE_MAX as int
    }
}

/// The room to set aside for the container of `n` chunk files.
pub fn preallocation_hint(n: usize) -> (room: usize)
    ensures
        room == preallocation_spec(n as nat),
{
    if n <= MEM_PREALLOCATE_MAX / MAX_LUA_SIZE {
        assert(MAX_LUA_SIZE * n <= MEM_PREALLOCATE_MAX) by (nonlinear_arith)
            requires
                n <= MEM_PREALLOCATE_MAX / MAX_LUA_SIZE,
        ;
        MAX_LUA_SIZE * n
    } else {
        assert(MAX_LUA_SIZE * n > MEM_PREALLOCATE_MAX) by (nonlinear_arith)
            requires
                n > MEM_PREALLOCATE_MAX / MAX_LUA_SIZE,
        ;
        MEM_PREALLOCATE_MAX
    }
}

/// Appends the payload of one chunk file to `out`.
pub fn append_commented_file(out: &mut Vec<u8>, file: &[u8])
    ensures
        final(out)@ == old(out)@ + strip_comments(file@),
{
    let len = file.len();
    let mut pos: usize = 0;
    assert(file@.skip(0) =~= file@);
    assert(out@ + Seq::<u8>::empty() =~= out@);
    while len - pos > COMMENT_MARKER_LEN
        invariant
            len == file@.len(),
            pos <= len,
            old(out)@ + strip_comments(file@) == out@ + strip_comments(file@.skip(pos as int)),
        decreases len - pos,
    {
        let ghost here = file@.skip(pos as int);
        let ghost before = out@;
        let start = pos + COMMENT_MARKER_LEN;
        let newline = find_byte(file, start, NEWLINE);
        let end = if newline < len {
            newline + 1
        } else {
            newline
        };
        let line = slice_subrange(file, start, end);
        out.extend_from_slice(line);
        proof {
            let rest = here.skip(COMMENT_MARKER_LEN as int);
            assert(rest =~= file@.skip(start as int));
            let n = line_len(rest);
            assert(n == end - start);
            assert(line@ =~= rest.take(n));
            assert(rest.skip(n) =~= file@.skip(end as int));
            assert(out@ =~= before + line@);
            assert(before + (rest.take(n) + strip_comments(rest.skip(n))) =~= (before + line@)
                + strip_comments(file@.skip(end as int)));
        }
        pos = end;
    }
    assert(out@ + Seq::<u8>::empty() =~= out@);
}

/// The payload of one chunk file.
pub fn read_commented_file(file: &[u8]) -> (payload: Vec<u8>)
    ensures
        payload@ == strip_comments(file@),
{
    let mut payload: Vec<u8> = Vec::with_capacity(file.len());
    append_commented_file(&mut payload, file);
    assert(Seq::<u8>::empty() + strip_comments(file@) =~= strip_comments(file@));
    payload
}

/// The container of a stream, from the chunk files of the stream in order.
pub fn superchunk(files: &Vec<Vec<u8>>) -> (container: Vec<u8>)
    ensures
        container@ == superchunk_spec(contents_of(files@)),
{
    let ghost all = contents_of(files@);
    let mut container: Vec<u8> = Vec::with_capacity(preallocation_hint(files.len()));
    let mut i: usize = 0;
    assert(all.take(0) =~= Seq::<Seq<u8>>::empty());
    while i < files.len()
        invariant
            all == contents_of(files@),
            0 <= i <= files@.len(),
            container@ == superchunk_spec(all.take(i as int)),
        decreases files@.len() - i,
    {
        append_commented_file(&mut container, files[i].as_slice());
        proof {
            let strip = |file: Seq<u8>| strip_comments(file);
            let before = all.take(i as int);
            assert(all.take(i + 1) =~= before.push(all[i as int]));
            assert(before.push(all[i as int]).map_values(strip) =~= before.map_values(strip).push(
                strip_comments(all[i as int]),
            ));
            before.map_values(strip).lemma_flatten_push(strip_comments(all[i as int]));
        }
        i += 1;
    }
    assert(all.take(i as int) =~= all);
    container
}

/// A piece of payload that fits on one line: it holds no newline, but
/// for one that may end it.
pub open spec fn is_line(fragment: Seq<u8>) -> bool {
    forall|i: int| 0 <= i < fragment.len() - 1 ==> fragment[i] != NEWLINE
}

/// The pieces of payload of the lines of one chunk file: each fits on a
/// line, and each but the last ends its line.
pub open spec fn are_lines(fragments: Seq<Seq<u8>>) -> bool {
    forall|i: int|
        0 <= i < fragments.len() ==> {
            &&& is_line(#[trigger] fragments[i])
            &&& i < fragments.len() - 1 ==> fragments[i].len() > 0 && fragments[i].last()
                == NEWLINE
        }
}

/// A chunk file built from pieces of payload: each follows a marker.
pub open spec fn commented(marker: Seq<u8>, fragments: Seq<Seq<u8>>) -> Seq<u8>
    decreases fragments.len(),
{
    if fragments.len() == 0 {
        Seq::empty()
    } else {
        marker + fragments.first() + commented(marker, fragments.drop_first())
    }
}

/// The first line of a piece that fits on a line is the piece, whatever
/// follows it where the piece ends its line.
proof fn lemma_line_len(fragment: Seq<u8>, behind: Seq<u8>)
    requires
        is_line(fragment),
        fragment.len() > 0,
        behind.len() > 0 ==> fragment.last() == NEWLINE,
    ensures
        line_len(fragment + behind) == fragment.len(),
{
    let s = fragment + behind;
    let last = fragment.len() - 1;
    assert(s[last] == fragment.last());
    assert forall|j: int| 0 <= j < last implies s[j] != NEWLINE by {
        assert(s[j] == fragment[j]);
    }
    if fragment.last() == NEWLINE {
        lemma_index_of_unique(s, NEWLINE, last);
    } else {
        assert(s =~= fragment);
        lemma_index_of_unique(s, NEWLINE, last + 1);
    }
}

/// Stripping the comments of a chunk file built from lines, each with a
/// marker of two bytes before it, gives the pieces of payload of the
/// lines, one behind the other and nothing else.
pub proof fn lemma_strip_commented(marker: Seq<u8>, fragments: Seq<Seq<u8>>)
    requires
        marker.len() == COMMENT_MARKER_LEN,
        are_lines(fragments),
    ensures
        strip_comments(commented(marker, fragments)) == fragments.flatten(),
    decreases fragments.len(),
{
    if fragments.len() > 0 {
        let first = fragments.first();
        let others = fragments.drop_first();
        let behind = commented(marker, others);
        let file = commented(marker, fragments);
        assert forall|i: int| 0 <= i < others.len() implies {
            &&& is_line(#[trigger] others[i])
            &&& i < others.len() - 1 ==> others[i].len() > 0 && others[i].last() == NEWLINE
        } by {
            assert(others[i] == fragments[i + 1]);
        }
        lemma_strip_commented(marker, others);
        assert(is_line(fragments[0]));
        if others.len() == 0 {
            assert(behind =~= Seq::<u8>::empty());
            assert(others.flatten() =~= Seq::<u8>::empty());
        } else {
            assert(fragments[0].len() > 0 && fragments[0].last() == NEWLINE);
        }
        if first.len() == 0 {
            assert(file =~= marker);
            assert(fragments.flatten() =~= Seq::<u8>::empty());
        } else {
            let rest = file.skip(COMMENT_MARKER_LEN as int);
            assert(rest =~= first + behind);
            lemma_line_len(first, behind);
            assert(rest.take(first.len() as int) =~= first);
            assert(rest.skip(first.len() as int) =~= behind);
        }
    }
}

/// The container of a stream whose chunk files are built from lines is
/// the payload of the lines of the first file, then that of the second,
/// and so on in the order of the list.
pub proof fn lemma_superchunk_commented(marker: Seq<u8>, files: Seq<Seq<Seq<u8>>>)
    requires
        marker.len() == COMMENT_MARKER_LEN,
        forall|i: int| 0 <= i < files.len() ==> are_lines(#[trigger] files[i]),
    ensures
        superchunk_spec(files.map_values(|fragments: Seq<Seq<u8>>| commented(marker, fragments)))
            == files.map_values(|fragments: Seq<Seq<u8>>| fragments.flatten()).flatten(),
{
    let built = files.map_values(|fragments: Seq<Seq<u8>>| commented(marker, fragments));
    let stripped = built.map_values(|file: Seq<u8>| strip_comments(file));
    let payloads = files.map_values(|fragments: Seq<Seq<u8>>| fragments.flatten());
    assert forall|i: int| 0 <= i < files.len() implies stripped[i] == payloads[i] by {
        lemma_strip_commented(marker, files[i]);
    }
    assert(stripped =~= payloads);
}

} // verus!
