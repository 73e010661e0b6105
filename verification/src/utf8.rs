//! Checking that a text field is UTF-8.

use vstd::prelude::*;
use vstd::utf8::*;

verus! {

/// The length of the longest prefix of `bytes` that is made of whole,
/// well-formed scalars.
pub open spec fn valid_up_to(bytes: Seq<u8>) -> int
    decreases bytes.len(),
{
    if bytes.len() == 0 || !valid_first_scalar(bytes) {
        0
    } else {
        length_of_first_scalar(bytes) + valid_up_to(pop_first_scalar(bytes))
    }
}

/// The valid prefix lies inside the string, and is the whole string exactly
/// when the string is UTF-8.
pub proof fn lemma_valid_up_to(bytes: Seq<u8>)
    ensures
        0 <= valid_up_to(bytes) <= bytes.len(),
        valid_utf8(bytes) <==> valid_up_to(bytes) == bytes.len(),
    decreases bytes.len(),
{
    if bytes.len() == 0 || !valid_first_scalar(bytes) {
    } else {
        lemma_valid_up_to(pop_first_scalar(bytes));
    }
}

/// The valid prefix is UTF-8.
pub proof fn lemma_valid_prefix(bytes: Seq<u8>)
    ensures
        valid_utf8(bytes.take(valid_up_to(bytes))),
    decreases bytes.len(),
{
    lemma_valid_up_to(bytes);
    if bytes.len() == 0 || !valid_first_scalar(bytes) {
    } else {
        let rest = pop_first_scalar(bytes);
        let width = length_of_first_scalar(bytes);
        lemma_valid_prefix(rest);
        lemma_valid_up_to(rest);
        let prefix = bytes.take(valid_up_to(bytes));
        assert(valid_first_scalar(prefix));
        assert(pop_first_scalar(prefix) =~= rest.take(valid_up_to(rest)));
    }
}

/// No prefix longer than the valid prefix is UTF-8: the valid prefix is
/// the longest.
pub proof fn lemma_valid_prefix_is_longest(bytes: Seq<u8>, k: int)
    requires
        valid_up_to(bytes) < k <= bytes.len(),
    ensures
        !valid_utf8(bytes.take(k)),
    decreases bytes.len(),
{
    let prefix = bytes.take(k);
    lemma_valid_up_to(bytes);
    assert(prefix.len() == k && k > 0);
    if !valid_first_scalar(bytes) {
        assert(!valid_first_scalar(prefix));
    } else if valid_first_scalar(prefix) {
        let rest = pop_first_scalar(bytes);
        let width = length_of_first_scalar(bytes);
        lemma_valid_up_to(rest);
        assert(length_of_first_scalar(prefix) == width);
        assert(pop_first_scalar(prefix) =~= rest.take(k - width));
        lemma_valid_prefix_is_longest(rest, k - width);
        assert(!valid_utf8(pop_first_scalar(prefix)));
    }
}

/// Checks that `bytes` is UTF-8. On failure the error is the length of the
/// longest prefix that is.
pub fn validate_utf8(bytes: &[u8]) -> (checked: Result<(), usize>)
    ensures
        checked is Ok <==> valid_utf8(bytes@),
        checked matches Err(n) ==> n == valid_up_to(bytes@) && n < bytes@.len(),
{
    let len = bytes.len();
    let mut i: usize = 0;
    assert(bytes@.skip(0) =~= bytes@);
    while i < len
        invariant
            len == bytes@.len(),
            0 <= i <= len,
            valid_up_to(bytes@) == i + valid_up_to(bytes@.skip(i as int)),
            valid_utf8(bytes@) == valid_utf8(bytes@.skip(i as int)),
        decreases len - i,
    {
        let ghost rest = bytes@.skip(i as int);
        let b0 = bytes[i];
        assert(rest[0] == b0);
        let width: usize = if b0 <= 0x7f {
            1
        } else if 0xc0 <= b0 && b0 <= 0xdf {
            2
        } else if 0xe0 <= b0 && b0 <= 0xef {
            3
        } else if 0xf0 <= b0 && b0 <= 0xf7 {
            4
        } else {
            return Err(i);
        };
        if len - i < width {
            return Err(i);
        }
        let scalar_ok = if width == 1 {
            true
        } else if width == 2 {
            let b1 = bytes[i + 1];
            assert(rest[1] == b1);
            let code: u32 = (((b0 & 0x1f) as u32) << 6) | ((b1 & 0x3f) as u32);
            assert(code < 0x800) by (bit_vector)
                requires
                    code == (((b0 & 0x1f) as u32) << 6) | ((b1 & 0x3f) as u32),
            ;
            0x80 <= b1 && b1 <= 0xbf && 0x80 <= code
        } else if width == 3 {
            let b1 = bytes[i + 1];
            let b2 = bytes[i + 2];
            assert(rest[1] == b1 && rest[2] == b2);
            let code: u32 = (((b0 & 0x0f) as u32) << 12) | (((b1 & 0x3f) as u32) << 6) | ((b2
                & 0x3f) as u32);
            0x80 <= b1 && b1 <= 0xbf && 0x80 <= b2 && b2 <= 0xbf && 0x800 <= code && !(0xd800
                <= code && code <= 0xdfff)
        } else {
            let b1 = bytes[i + 1];
            let b2 = bytes[i + 2];
            let b3 = bytes[i + 3];
            assert(rest[1] == b1 && rest[2] == b2 && rest[3] == b3);
            let code: u32 = (((b0 & 0x07) as u32) << 18) | (((b1 & 0x3f) as u32) << 12) | (((b2
                & 0x3f) as u32) << 6) | ((b3 & 0x3f) as u32);
            0x80 <= b1 && b1 <= 0xbf && 0x80 <= b2 && b2 <= 0xbf && 0x80 <= b3 && b3 <= 0xbf
                && 0x10000 <= code && code <= 0x10ffff && !(0xd800 <= code && code <= 0xdfff)
        };
        assert(scalar_ok == valid_first_scalar(rest));
        if !scalar_ok {
            return Err(i);
        }
        assert(pop_first_scalar(rest) =~= bytes@.skip(i + width));
        i += width;
    }
    Ok(())
}

/// Tells whether `bytes` is UTF-8.
pub fn is_utf8(bytes: &[u8]) -> (valid: bool)
    ensures
        valid == valid_utf8(bytes@),
{
    validate_utf8(bytes).is_ok()
}

} // verus!
