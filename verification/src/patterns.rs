//! The fixed names by which the parts of a packed addon are known.
//!
//! Paths are byte strings with `/` between their parts, taken relative to
//! the script folder of the addon. In a pattern `*` stands for any run of
//! bytes, `/` among them and the empty run too; every other byte stands for
//! itself.

use vstd::prelude::*;
use vstd::string::StringSliceAdditionalSpecFns;

verus! {

/// The byte that stands for any run of bytes in a pattern.
pub const WILDCARD: u8 = 0x2a;

/// The loader script that a packer leaves behind.
pub const LOADER_GLOB: &'static str = "autorun/*_gluapack_*.lua";

/// The container files of a packed addon.
pub const CHUNK_FILE_GLOB: &'static str = "gluapack/*/*.lua";

/// The folders below the packaging folder.
pub const CHUNK_DIR_GLOB: &'static str = "gluapack/*";

/// The packaging folder itself.
pub const GLUAPACK_DIR: &'static str = "gluapack";

/// The name of the legacy container.
pub const SV_PACKED_FILE_NAME: &'static str = "gluapack.sv.lua";

/// The end of the name of a chunk file of the shared stream.
pub const SH_CHUNK_SUFFIX: &'static str = ".sh.lua";

/// The end of the name of a chunk file of the client-side stream.
pub const CL_CHUNK_SUFFIX: &'static str = ".cl.lua";

/// The name of the packaging manifest.
pub const MANIFEST_FILE_NAME: &'static str = "gluapack.json";

/// The beginning of the name of a hidden file or folder.
pub const HIDDEN_PREFIX: &'static str = ".";

/// `text` is written as `pattern` says.
pub open spec fn glob_matches(pattern: Seq<u8>, text: Seq<u8>) -> bool
    decreases pattern.len(), text.len(),
{
    if pattern.len() == 0 {
        text.len() == 0
    } else if pattern[0] == WILDCARD {
        glob_matches(pattern.skip(1), text) || (text.len() > 0 && glob_matches(
            pattern,
            text.skip(1),
        ))
    } else {
        text.len() > 0 && text[0] == pattern[0] && glob_matches(pattern.skip(1), text.skip(1))
    }
}

/// Whether what is left of `text` from `j` on is written as what is left of
/// `pattern` from `i` on says.
pub open spec fn matches_from(pattern: Seq<u8>, text: Seq<u8>, i: int, j: int) -> bool {
    glob_matches(pattern.skip(i), text.skip(j))
}

/// How `matches_from` at one place follows from the places behind it.
proof fn lemma_matches_from(pattern: Seq<u8>, text: Seq<u8>, i: int, j: int)
    requires
        0 <= i <= pattern.len(),
        0 <= j <= text.len(),
    ensures
        i == pattern.len() ==> matches_from(pattern, text, i, j) == (j == text.len()),
        i < pattern.len() && pattern[i] == WILDCARD ==> matches_from(pattern, text, i, j) == (
        matches_from(pattern, text, i + 1, j) || (j < text.len() && matches_from(
            pattern,
            text,
            i,
            j + 1,
        ))),
        i < pattern.len() && pattern[i] != WILDCARD ==> matches_from(pattern, text, i, j) == (j
            < text.len() && text[j] == pattern[i] && matches_from(pattern, text, i + 1, j + 1)),
{
    let p = pattern.skip(i);
    let t = text.skip(j);
    if i < pattern.len() {
        assert(p.skip(1) =~= pattern.skip(i + 1));
        if j < text.len() {
            assert(t.skip(1) =~= text.skip(j + 1));
        }
    }
}

/// Tells whether `text` is written as `pattern` says.
pub fn glob_match(pattern: &[u8], text: &[u8]) -> (matched: bool)
    ensures
        matched == glob_matches(pattern@, text@),
{
    let m = pattern.len();
    let n = text.len();
    // row[j] says whether text from j on matches the pattern from i on;
    // at_end says the same of the empty rest of text.
    let mut row: Vec<bool> = vec![false; n];
    let mut at_end = true;
    let mut i: usize = m;
    proof {
        assert forall|j: int| 0 <= j < n implies row@[j] == matches_from(
            pattern@,
            text@,
            m as int,
            j,
        ) by {
            lemma_matches_from(pattern@, text@, m as int, j);
        }
        lemma_matches_from(pattern@, text@, m as int, n as int);
    }
    while i > 0
        invariant
            m == pattern@.len(),
            n == text@.len(),
            row@.len() == n,
            0 <= i <= m,
            at_end == matches_from(pattern@, text@, i as int, n as int),
            forall|j: int| 0 <= j < n ==> row@[j] == matches_from(pattern@, text@, i as int, j),
        decreases i,
    {
        i -= 1;
        let p = pattern[i];
        proof {
            lemma_matches_from(pattern@, text@, i as int, n as int);
        }
        if p == WILDCARD {
            let mut j: usize = n;
            let mut carry = at_end;
            while j > 0
                invariant
                    m == pattern@.len(),
                    n == text@.len(),
                    row@.len() == n,
                    0 <= i < m,
                    0 <= j <= n,
                    pattern@[i as int] == WILDCARD,
                    carry == matches_from(pattern@, text@, i as int, j as int),
                    forall|k: int|
                        0 <= k < j ==> row@[k] == matches_from(pattern@, text@, i + 1, k),
                    forall|k: int|
                        j <= k < n ==> row@[k] == matches_from(pattern@, text@, i as int, k),
                decreases j,
            {
                j -= 1;
                proof {
                    lemma_matches_from(pattern@, text@, i as int, j as int);
                }
                let here = row[j] || carry;
                row.set(j, here);
                carry = here;
            }
        } else {
            let mut j: usize = 0;
            while j < n
                invariant
                    m == pattern@.len(),
                    n == text@.len(),
                    row@.len() == n,
                    0 <= i < m,
                    0 <= j <= n,
                    pattern@[i as int] == p,
                    p != WILDCARD,
                    at_end == matches_from(pattern@, text@, i + 1, n as int),
                    forall|k: int|
                        0 <= k < j ==> row@[k] == matches_from(pattern@, text@, i as int, k),
                    forall|k: int|
                        j <= k < n ==> row@[k] == matches_from(pattern@, text@, i + 1, k),
                decreases n - j,
            {
                proof {
                    lemma_matches_from(pattern@, text@, i as int, j as int);
                }
                let behind = if j + 1 < n {
                    row[j + 1]
                } else {
                    at_end
                };
                let here = text[j] == p && behind;
                row.set(j, here);
                j += 1;
            }
            at_end = false;
        }
    }
    assert(pattern@.skip(0) =~= pattern@);
    assert(text@.skip(0) =~= text@);
    if n == 0 {
        at_end
    } else {
        row[0]
    }
}

/// Tells whether `text` is written as `pattern` says.
pub fn glob_match_str(pattern: &str, text: &[u8]) -> (matched: bool)
    ensures
        matched == glob_matches(pattern.spec_bytes(), text@),
{
    glob_match(pattern.as_bytes(), text)
}

/// `s` holds no `*`: as a pattern it stands for itself.
pub open spec fn is_literal(s: Seq<u8>) -> bool {
    forall|i: int| 0 <= i < s.len() ==> s[i] != WILDCARD
}

/// What is left of `text` from `k` on is written as `pattern` says.
pub open spec fn tail_matches(pattern: Seq<u8>, text: Seq<u8>, k: int) -> bool {
    0 <= k <= text.len() && glob_matches(pattern, text.skip(k))
}

/// A pattern that begins with bytes that stand for themselves matches the
/// texts that begin with these bytes and go on as the rest of the pattern
/// says.
pub proof fn lemma_glob_literal(literal: Seq<u8>, rest: Seq<u8>, text: Seq<u8>)
    requires
        is_literal(literal),
    ensures
        glob_matches(literal + rest, text) == (literal.is_prefix_of(text) && glob_matches(
            rest,
            text.skip(literal.len() as int),
        )),
    decreases literal.len(),
{
    let pattern = literal + rest;
    if literal.len() == 0 {
        assert(pattern =~= rest);
        assert(text.skip(0) =~= text);
    } else {
        assert(pattern[0] == literal[0]);
        assert(pattern.skip(1) =~= literal.skip(1) + rest);
        if text.len() > 0 && text[0] == literal[0] {
            let shorter = literal.skip(1);
            let behind = text.skip(1);
            lemma_glob_literal(shorter, rest, behind);
            if shorter.is_prefix_of(behind) {
                assert(literal =~= text.subrange(0, literal.len() as int)) by {
                    assert forall|i: int| 0 <= i < literal.len() implies literal[i] == text[i] by {
                        if i > 0 {
                            assert(shorter[i - 1] == behind.subrange(0, shorter.len() as int)[i
                                - 1]);
                        }
                    }
                }
                assert(behind.skip(shorter.len() as int) =~= text.skip(literal.len() as int));
            }
            if literal.is_prefix_of(text) {
                assert(shorter =~= behind.subrange(0, shorter.len() as int)) by {
                    assert forall|i: int| 0 <= i < shorter.len() implies shorter[i] == behind[i] by {
                        assert(literal[i + 1] == text.subrange(0, literal.len() as int)[i + 1]);
                    }
                }
            }
        } else if literal.is_prefix_of(text) {
            assert(literal[0] == text.subrange(0, literal.len() as int)[0]);
        }
    }
}

/// A pattern without `*` matches itself and nothing else.
pub proof fn lemma_glob_exact(literal: Seq<u8>, text: Seq<u8>)
    requires
        is_literal(literal),
    ensures
        glob_matches(literal, text) == (text == literal),
{
    lemma_glob_literal(literal, Seq::empty(), text);
    assert(literal + Seq::<u8>::empty() =~= literal);
    if literal.is_prefix_of(text) && glob_matches(
        Seq::<u8>::empty(),
        text.skip(literal.len() as int),
    ) {
        assert(text =~= literal);
    }
    if text == literal {
        assert(literal =~= text.subrange(0, literal.len() as int));
    }
}

/// A pattern that begins with `*` matches the texts of which some rest,
/// the whole text and the empty rest among them, is written as the rest
/// of the pattern says.
pub proof fn lemma_glob_star(rest: Seq<u8>, text: Seq<u8>)
    ensures
        glob_matches(seq![WILDCARD] + rest, text) == (exists|k: int| #[trigger]
            tail_matches(rest, text, k)),
    decreases text.len(),
{
    let pattern = seq![WILDCARD] + rest;
    assert(pattern.skip(1) =~= rest);
    assert(pattern[0] == WILDCARD);
    assert(text.skip(0) =~= text);
    if text.len() > 0 {
        let behind = text.skip(1);
        lemma_glob_star(rest, behind);
        if glob_matches(pattern, behind) {
            let k = choose|k: int| #[trigger] tail_matches(rest, behind, k);
            assert(behind.skip(k) =~= text.skip(k + 1));
            assert(tail_matches(rest, text, k + 1));
        }
        if exists|k: int| #[trigger] tail_matches(rest, text, k) {
            let k = choose|k: int| #[trigger] tail_matches(rest, text, k);
            if k > 0 {
                assert(behind.skip(k - 1) =~= text.skip(k));
                assert(tail_matches(rest, behind, k - 1));
            }
        }
    }
    if glob_matches(rest, text) {
        assert(tail_matches(rest, text, 0));
    }
}

/// A pattern made of `*` and bytes that stand for themselves matches the
/// texts that end with these bytes.
pub proof fn lemma_glob_suffix(literal: Seq<u8>, text: Seq<u8>)
    requires
        is_literal(literal),
    ensures
        glob_matches(seq![WILDCARD] + literal, text) == literal.is_suffix_of(text),
{
    lemma_glob_star(literal, text);
    if literal.is_suffix_of(text) {
        let k = text.len() - literal.len();
        lemma_glob_exact(literal, text.skip(k));
        assert(tail_matches(literal, text, k));
    }
    if exists|k: int| #[trigger] tail_matches(literal, text, k) {
        let k = choose|k: int| #[trigger] tail_matches(literal, text, k);
        lemma_glob_exact(literal, text.skip(k));
        assert(text.skip(k) =~= text.subrange(text.len() - literal.len(), text.len() as int));
    }
}

/// A pattern made of bytes that stand for themselves and `*` matches the
/// texts that begin with these bytes.
pub proof fn lemma_glob_prefix(literal: Seq<u8>, text: Seq<u8>)
    requires
        is_literal(literal),
    ensures
        glob_matches(literal.push(WILDCARD), text) == literal.is_prefix_of(text),
{
    assert(literal.push(WILDCARD) =~= literal + seq![WILDCARD]);
    lemma_glob_literal(literal, seq![WILDCARD], text);
    if literal.is_prefix_of(text) {
        let behind = text.skip(literal.len() as int);
        lemma_glob_star(Seq::empty(), behind);
        assert(seq![WILDCARD] + Seq::<u8>::empty() =~= seq![WILDCARD]);
        assert(behind.skip(behind.len() as int) =~= Seq::<u8>::empty());
        assert(tail_matches(Seq::empty(), behind, behind.len() as int));
    }
}

} // verus!
