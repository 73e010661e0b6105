//! Length fields written in hexadecimal digits.

use crate::error::IntErrorKind;
use vstd::prelude::*;

verus! {

/// `b` is one of `0`-`9`, `a`-`f`, `A`-`F`.
pub open spec fn is_hex_digit(b: u8) -> bool {
    (0x30 <= b <= 0x39) || (0x61 <= b <= 0x66) || (0x41 <= b <= 0x46)
}

/// The number that the digit `b` stands for.
pub open spec fn digit_value(b: u8) -> int
    recommends
        is_hex_digit(b),
{
    if 0x30 <= b <= 0x39 {
        b - 0x30
    } else if 0x61 <= b <= 0x66 {
        b - 0x61 + 10
    } else {
        b - 0x41 + 10
    }
}

/// Every byte of `s` is a hexadecimal digit.
pub open spec fn all_hex(s: Seq<u8>) -> bool {
    forall|i: int| 0 <= i < s.len() ==> is_hex_digit(#[trigger] s[i])
}

/// The number that the digits of `s` stand for, most significant first.
pub open spec fn hex_value(s: Seq<u8>) -> int
    recommends
        all_hex(s),
    decreases s.len(),
{
    if s.len() == 0 {
        0
    } else {
        16 * hex_value(s.drop_last()) + digit_value(s.last())
    }
}

/// The lower-case digit for `d`.
pub open spec fn digit_of(d: int) -> u8
    recommends
        0 <= d < 16,
{
    if d < 10 {
        (0x30 + d) as u8
    } else {
        (0x61 + d - 10) as u8
    }
}

/// `n` written in lower-case digits without padding.
pub open spec fn hex_digits(n: nat) -> Seq<u8>
    decreases n,
{
    if n < 16 {
        seq![digit_of(n as int)]
    } else {
        hex_digits(n / 16).push(digit_of((n % 16) as int))
    }
}

/// What a length field reads as.
pub open spec fn parse_hex_spec(s: Seq<u8>) -> Result<u32, IntErrorKind> {
    if s.len() == 0 {
        Err(IntErrorKind::Empty)
    } else if !all_hex(s) {
        Err(IntErrorKind::InvalidDigit)
    } else if hex_value(s) > u32::MAX {
        Err(IntErrorKind::PosOverflow)
    } else {
        Ok(hex_value(s) as u32)
    }
}

/// A string of digits stands for a number that is not negative.
pub proof fn lemma_hex_value_nonnegative(s: Seq<u8>)
    requires
        all_hex(s),
    ensures
        0 <= hex_value(s),
    decreases s.len(),
{
    if s.len() > 0 {
        lemma_hex_value_nonnegative(s.drop_last());
    }
}

/// The value of a hexadecimal digit, if `b` is one.
fn digit(b: u8) -> (d: Option<u8>)
    ensures
        d is Some <==> is_hex_digit(b),
        d matches Some(v) ==> v == digit_value(b) && v < 16,
{
    if 0x30 <= b && b <= 0x39 {
        Some(b - 0x30)
    } else if 0x61 <= b && b <= 0x66 {
        Some(b - 0x61 + 10)
    } else if 0x41 <= b && b <= 0x46 {
        Some(b - 0x41 + 10)
    } else {
        None
    }
}

/// Reads a length field: one or more hexadecimal digits of either case, with
/// any number of leading zeros, that stand for a number up to `u32::MAX`.
/// Nothing else is a length: no sign, no prefix, no blank.
pub fn parse_hex(s: &[u8]) -> (parsed: Result<u32, IntErrorKind>)
    ensures
        parsed == parse_hex_spec(s@),
{
    if s.len() == 0 {
        return Err(IntErrorKind::Empty);
    }
    let mut value: u32 = 0;
    let mut overflow = false;
    let mut i: usize = 0;
    assert(s@.take(0) =~= Seq::<u8>::empty());
    while i < s.len()
        invariant
            0 <= i <= s@.len(),
            all_hex(s@.take(i as int)),
            !overflow ==> value == hex_value(s@.take(i as int)),
            overflow ==> hex_value(s@.take(i as int)) > u32::MAX,
        decreases s@.len() - i,
    {
        let ghost prefix = s@.take(i as int);
        let ghost next = s@.take(i + 1);
        assert(next.drop_last() =~= prefix);
        assert(next.last() == s@[i as int]);
        match digit(s[i]) {
            None => {
                assert(!all_hex(s@));
                return Err(IntErrorKind::InvalidDigit);
            },
            Some(d) => {
                assert forall|j: int| 0 <= j < next.len() implies is_hex_digit(
                    #[trigger] next[j],
                ) by {
                    if j < i {
                        assert(next[j] == prefix[j]);
                    }
                }
                proof {
                    lemma_hex_value_nonnegative(prefix);
                }
                if !overflow {
                    if value > (u32::MAX - d as u32) / 16 {
                        overflow = true;
                    } else {
                        value = value * 16 + d as u32;
                    }
                }
            },
        }
        i += 1;
    }
    assert(s@.take(i as int) =~= s@);
    if overflow {
        Err(IntErrorKind::PosOverflow)
    } else {
        Ok(value)
    }
}

/// Leading zeros do not change what a string of digits stands for.
pub proof fn lemma_hex_leading_zeros(zeros: Seq<u8>, s: Seq<u8>)
    requires
        forall|i: int| 0 <= i < zeros.len() ==> zeros[i] == 0x30,
    ensures
        hex_value(zeros + s) == hex_value(s),
    decreases s.len(), zeros.len(),
{
    if s.len() > 0 {
        assert((zeros + s).drop_last() =~= zeros + s.drop_last());
        lemma_hex_leading_zeros(zeros, s.drop_last());
    } else if zeros.len() > 0 {
        assert(zeros + s =~= zeros);
        assert(zeros.drop_last() + s =~= zeros.drop_last());
        lemma_hex_leading_zeros(zeros.drop_last(), s);
    } else {
        assert(zeros + s =~= s);
    }
}

/// Two strings whose digits stand for the same numbers, place by place,
/// stand for the same number: the case of a digit does not matter.
pub proof fn lemma_hex_case_insensitive(s: Seq<u8>, t: Seq<u8>)
    requires
        s.len() == t.len(),
        forall|i: int| 0 <= i < s.len() ==> digit_value(s[i]) == digit_value(t[i]),
    ensures
        hex_value(s) == hex_value(t),
    decreases s.len(),
{
    if s.len() > 0 {
        lemma_hex_case_insensitive(s.drop_last(), t.drop_last());
    }
}

/// A number written in digits reads back as itself.
pub proof fn lemma_hex_digits_value(n: nat)
    ensures
        hex_digits(n).len() >= 1,
        all_hex(hex_digits(n)),
        hex_value(hex_digits(n)) == n,
    decreases n,
{
    if n < 16 {
        let s = hex_digits(n);
        assert(s.drop_last() =~= Seq::<u8>::empty());
        assert(hex_value(s.drop_last()) == 0);
    } else {
        lemma_hex_digits_value(n / 16);
        let s = hex_digits(n);
        assert(s.drop_last() =~= hex_digits(n / 16));
        assert forall|i: int| 0 <= i < s.len() implies is_hex_digit(#[trigger] s[i]) by {
            if i < s.len() - 1 {
                assert(s[i] == hex_digits(n / 16)[i]);
            }
        }
    }
}

/// A length up to `u32::MAX`, written in digits, parses to itself.
pub proof fn lemma_parse_hex_digits(n: nat)
    requires
        n <= u32::MAX,
    ensures
        parse_hex_spec(hex_digits(n)) == Ok::<u32, IntErrorKind>(n as u32),
{
    lemma_hex_digits_value(n);
}

} // verus!
