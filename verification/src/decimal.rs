//! Decimal notation of natural numbers, as header values and status lines
//! carry it.

use vstd::prelude::*;
use crate::text::{NINE, PLUS, ZERO};

verus! {

/// Whether `b` is one of the digits `0` to `9`.
pub open spec fn is_digit(b: u8) -> bool {
    ZERO <= b && b <= NINE
}

/// Whether `s` holds nothing but digits.
pub open spec fn all_digits(s: Seq<u8>) -> bool {
    forall|i: int| 0 <= i < s.len() ==> is_digit(#[trigger] s[i])
}

/// The number that the digits `s` denote, most significant digit first.
pub open spec fn digits_value(s: Seq<u8>) -> nat
    decreases s.len(),
{
    if s.len() == 0 {
        0
    } else {
        10 * digits_value(s.drop_last()) + (s.last() - ZERO) as nat
    }
}

/// The number that `s` denotes: an optional `+`, then one or more digits and
/// nothing else. `None` for every other byte string.
pub open spec fn decimal_value(s: Seq<u8>) -> Option<nat> {
    let digits = if s.len() > 0 && s[0] == PLUS {
        s.skip(1)
    } else {
        s
    };
    if digits.len() > 0 && all_digits(digits) {
        Some(digits_value(digits))
    } else {
        None
    }
}

/// `decimal_value`, where the number fits a `usize`.
pub open spec fn usize_value(s: Seq<u8>) -> Option<usize> {
    match decimal_value(s) {
        Some(n) => if n <= usize::MAX {
            Some(n as usize)
        } else {
            None
        },
        None => None,
    }
}

/// `decimal_value`, where the number fits a `u32`.
pub open spec fn u32_value(s: Seq<u8>) -> Option<u32> {
    match decimal_value(s) {
        Some(n) => if n <= u32::MAX {
            Some(n as u32)
        } else {
            None
        },
        None => None,
    }
}

/// The decimal notation of `n`, without sign or leading zeros.
pub open spec fn decimal_digits(n: nat) -> Seq<u8>
    decreases n,
{
    if n < 10 {
        seq![(ZERO + n) as u8]
    } else {
        decimal_digits(n / 10).push((ZERO + n % 10) as u8)
    }
}

/// A prefix of a digit string denotes no more than the whole string.
proof fn lemma_prefix_value(s: Seq<u8>, k: int)
    requires
        0 <= k <= s.len(),
    ensures
        digits_value(s.take(k)) <= digits_value(s),
    decreases s.len(),
{
    if k == s.len() {
        assert(s.take(k) =~= s);
    } else {
        lemma_prefix_value(s.drop_last(), k);
        assert(s.drop_last().take(k) =~= s.take(k));
    }
}

/// Reads a `usize` in decimal notation.
pub fn parse_usize(s: &[u8]) -> (r: Option<usize>)
    ensures
        r == usize_value(s@),
{
    let start: usize = if s.len() > 0 && s[0] == PLUS {
        1
    } else {
        0
    };
    if start == s.len() {
        return None;
    }
    let ghost digits = if start == 1 {
        s@.skip(1)
    } else {
        s@
    };
    let mut value: usize = 0;
    let mut i: usize = start;
    assert(digits.take(0).len() == 0);
    while i < s.len()
        invariant
            start <= i <= s.len(),
            digits.len() == s.len() - start,
            digits.len() > 0,
            forall|j: int| 0 <= j < digits.len() ==> digits[j] == s@[j + start],
            decimal_value(s@) == if all_digits(digits) {
                Some(digits_value(digits))
            } else {
                None
            },
            all_digits(digits.take(i - start)),
            value == digits_value(digits.take(i - start)),
        decreases s.len() - i,
    {
        let b: u8 = s[i];
        let ghost k = i - start;
        assert(digits.take(k + 1).drop_last() =~= digits.take(k));
        assert(digits.take(k + 1).last() == b);
        if !(ZERO <= b && b <= NINE) {
            assert(!is_digit(digits[k]));
            return None;
        }
        let tens = value.checked_mul(10);
        let next = match tens {
            Some(t) => t.checked_add((b - ZERO) as usize),
            None => None,
        };
        match next {
            Some(v) => {
                value = v;
            },
            None => {
                proof {
                    lemma_prefix_value(digits, k + 1);
                    assert(all_digits(digits) ==> digits_value(digits) > usize::MAX);
                }
                return None;
            },
        }
        i += 1;
    }
    assert(digits.take(i - start) =~= digits);
    Some(value)
}

/// Reads a `u32` in decimal notation.
pub fn parse_u32(s: &[u8]) -> (r: Option<u32>)
    ensures
        r == u32_value(s@),
{
    match parse_usize(s) {
        Some(n) => if n <= 0xffff_ffff {
            Some(n as u32)
        } else {
            None
        },
        None => None,
    }
}

/// Writes `n` in decimal notation.
pub fn render_decimal(n: u64) -> (digits: Vec<u8>)
    ensures
        digits@ == decimal_digits(n as nat),
    decreases n,
{
    if n < 10 {
        let mut digits: Vec<u8> = Vec::new();
        digits.push(ZERO + n as u8);
        assert(digits@ =~= decimal_digits(n as nat));
        digits
    } else {
        let mut digits = render_decimal(n / 10);
        digits.push(ZERO + (n % 10) as u8);
        digits
    }
}

/// The notation that `decimal_digits` writes is made of digits only, and
/// `decimal_value` reads the same number back from it.
pub proof fn lemma_decimal_round_trip(n: nat)
    ensures
        decimal_digits(n).len() > 0,
        all_digits(decimal_digits(n)),
        digits_value(decimal_digits(n)) == n,
        decimal_value(decimal_digits(n)) == Some(n),
    decreases n,
{
    if n < 10 {
        let s = decimal_digits(n);
        assert(s.drop_last().len() == 0);
        assert(digits_value(s.drop_last()) == 0);
        assert(s.last() == (ZERO + n) as u8);
    } else {
        lemma_decimal_round_trip(n / 10);
        let s = decimal_digits(n);
        assert(s.drop_last() =~= decimal_digits(n / 10));
        assert(s.last() == (ZERO + n % 10) as u8);
        assert(s[0] == decimal_digits(n / 10)[0]);
    }
}

} // verus!
