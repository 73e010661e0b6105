//! Byte strings: finding a delimiter, comparing, and the view of a list.

use vstd::prelude::*;
use vstd::slice::slice_subrange;

verus! {

/// The position of the first `delim` in `s`, or `s.len()` when there is none.
pub open spec fn index_of(s: Seq<u8>, delim: u8) -> int
    decreases s.len(),
{
    if s.len() == 0 || s[0] == delim {
        0
    } else {
        1 + index_of(s.skip(1), delim)
    }
}

/// `index_of` stays inside the string, stops on a delimiter, and passes none.
pub proof fn lemma_index_of(s: Seq<u8>, delim: u8)
    ensures
        0 <= index_of(s, delim) <= s.len(),
        index_of(s, delim) < s.len() ==> s[index_of(s, delim)] == delim,
        forall|j: int| 0 <= j < index_of(s, delim) ==> s[j] != delim,
    decreases s.len(),
{
    if s.len() == 0 || s[0] == delim {
    } else {
        let t = s.skip(1);
        lemma_index_of(t, delim);
        assert forall|j: int| 0 <= j < index_of(s, delim) implies s[j] != delim by {
            if j > 0 {
                assert(t[j - 1] == s[j]);
            }
        }
    }
}

/// Any position that stops on the first delimiter is `index_of`.
pub proof fn lemma_index_of_unique(s: Seq<u8>, delim: u8, i: int)
    requires
        0 <= i <= s.len(),
        i < s.len() ==> s[i] == delim,
        forall|j: int| 0 <= j < i ==> s[j] != delim,
    ensures
        index_of(s, delim) == i,
    decreases s.len(),
{
    if s.len() == 0 || s[0] == delim {
    } else {
        let t = s.skip(1);
        assert forall|j: int| 0 <= j < i - 1 implies t[j] != delim by {
            assert(t[j] == s[j + 1]);
        }
        lemma_index_of_unique(t, delim, i - 1);
    }
}

/// What is left of `data` from `pos` on; nothing where `pos` lies behind
/// the end.
pub open spec fn rest_at(data: Seq<u8>, pos: int) -> Seq<u8> {
    if 0 <= pos <= data.len() {
        data.skip(pos)
    } else {
        Seq::empty()
    }
}

/// Finds the first `delim` at or after `start`: the result is its position
/// in `data`, or the end of `data` when the rest of `data` holds none.
pub fn find_byte(data: &[u8], start: usize, delim: u8) -> (pos: usize)
    ensures
        pos == start + index_of(rest_at(data@, start as int), delim),
        start <= pos,
        start <= data@.len() ==> pos <= data@.len(),
{
    let mut pos: usize = start;
    while pos < data.len() && data[pos] != delim
        invariant
            start <= pos,
            start <= data@.len() ==> pos <= data@.len(),
            start > data@.len() ==> pos == start,
            forall|j: int| start <= j < pos ==> data@[j] != delim,
        decreases data@.len() - pos,
    {
        pos += 1;
    }
    proof {
        let rest = rest_at(data@, start as int);
        assert forall|j: int| 0 <= j < pos - start implies rest[j] != delim by {
            assert(rest[j] == data@[start + j]);
        }
        lemma_index_of_unique(rest, delim, pos - start);
    }
    pos
}

/// The bytes of each byte string of a list.
pub open spec fn contents_of(list: Seq<Vec<u8>>) -> Seq<Seq<u8>> {
    list.map_values(|item: Vec<u8>| item@)
}

/// Tells whether `a` and `b` hold the same bytes.
pub fn bytes_eq(a: &[u8], b: &[u8]) -> (same: bool)
    ensures
        same == (a@ == b@),
{
    if a.len() != b.len() {
        return false;
    }
    let mut i: usize = 0;
    while i < a.len()
        invariant
            a@.len() == b@.len(),
            0 <= i <= a@.len(),
            forall|j: int| 0 <= j < i ==> a@[j] == b@[j],
        decreases a@.len() - i,
    {
        if a[i] != b[i] {
            return false;
        }
        i += 1;
    }
    assert(a@ =~= b@);
    true
}

/// Tells whether `text` begins with `prefix`.
pub fn starts_with(text: &[u8], prefix: &[u8]) -> (found: bool)
    ensures
        found == prefix@.is_prefix_of(text@),
{
    if prefix.len() > text.len() {
        return false;
    }
    bytes_eq(slice_subrange(text, 0, prefix.len()), prefix)
}

/// Tells whether `text` ends with `suffix`.
pub fn ends_with(text: &[u8], suffix: &[u8]) -> (found: bool)
    ensures
        found == suffix@.is_suffix_of(text@),
{
    if suffix.len() > text.len() {
        return false;
    }
    bytes_eq(slice_subrange(text, text.len() - suffix.len(), text.len()), suffix)
}

/// Tells whether `list` holds the byte string `item`.
pub fn contains_bytes(list: &Vec<Vec<u8>>, item: &[u8]) -> (found: bool)
    ensures
        found == contents_of(list@).contains(item@),
{
    let mut i: usize = 0;
    while i < list.len()
        invariant
            0 <= i <= list@.len(),
            forall|j: int| 0 <= j < i ==> contents_of(list@)[j] != item@,
        decreases list@.len() - i,
    {
        if bytes_eq(list[i].as_slice(), item) {
            assert(contents_of(list@)[i as int] == item@);
            return true;
        }
        i += 1;
    }
    false
}

} // verus!
