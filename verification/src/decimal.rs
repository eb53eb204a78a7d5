//! Decimal numbers as the grammar writes them: ASCII digits, most
//! significant first.

use vstd::prelude::*;
use crate::token::{DIGIT_NINE, DIGIT_ZERO};

verus! {

/// Whether the byte is an ASCII decimal digit.
pub open spec fn is_digit(b: u8) -> bool {
    DIGIT_ZERO <= b <= DIGIT_NINE
}

/// Every byte is a decimal digit.
pub open spec fn all_digits(digits: Seq<u8>) -> bool {
    forall|i: int| 0 <= i < digits.len() ==> is_digit(#[trigger] digits[i])
}

/// The number that a run of decimal digits denotes.
pub open spec fn decimal_value(digits: Seq<u8>) -> nat
    decreases digits.len(),
{
    if digits.len() == 0 {
        0
    } else {
        decimal_value(digits.drop_last()) * 10 + (digits.last() - DIGIT_ZERO) as nat
    }
}

/// The decimal digits of a number, without leading zeros.
pub open spec fn decimal_digits(n: nat) -> Seq<u8>
    decreases n,
{
    if n < 10 {
        seq![(DIGIT_ZERO + n) as u8]
    } else {
        decimal_digits(n / 10).push((DIGIT_ZERO + n % 10) as u8)
    }
}

/// Where the run of digits that starts at `from` ends: the index of the first
/// byte from there on that is no digit, or the length of the input.
pub open spec fn digits_end(bytes: Seq<u8>, from: int) -> int
    decreases bytes.len() - from,
{
    if 0 <= from < bytes.len() && is_digit(bytes[from]) {
        digits_end(bytes, from + 1)
    } else {
        from
    }
}

/// The digits of a number are digits, denote the number, and start with a
/// zero only for zero itself.
pub proof fn lemma_decimal_digits(n: nat)
    ensures
        decimal_digits(n).len() >= 1,
        all_digits(decimal_digits(n)),
        decimal_value(decimal_digits(n)) == n,
        decimal_digits(n)[0] == DIGIT_ZERO <==> n == 0,
        n == 0 ==> decimal_digits(n).len() == 1,
    decreases n,
{
    if n < 10 {
        let digits = seq![(DIGIT_ZERO + n) as u8];
        assert(decimal_value(digits.drop_last()) == 0);
    } else {
        lemma_decimal_digits(n / 10);
        let front = decimal_digits(n / 10);
        assert(decimal_digits(n).drop_last() =~= front);
    }
}

/// Digits without a leading zero are the digits of the number that they
/// denote: a number is written in one way only.
pub proof fn lemma_digits_of_value(digits: Seq<u8>)
    requires
        digits.len() >= 1,
        all_digits(digits),
        digits[0] == DIGIT_ZERO ==> digits.len() == 1,
    ensures
        decimal_digits(decimal_value(digits)) == digits,
    decreases digits.len(),
{
    if digits.len() > 1 {
        lemma_digits_of_value(digits.drop_last());
    }
}

/// What `digits_end` returns: digits up to there and none at it.
pub proof fn lemma_digits_end(bytes: Seq<u8>, from: int)
    requires
        0 <= from <= bytes.len(),
    ensures
        from <= digits_end(bytes, from) <= bytes.len(),
        all_digits(bytes.subrange(from, digits_end(bytes, from))),
        digits_end(bytes, from) < bytes.len() ==> !is_digit(bytes[digits_end(bytes, from)]),
    decreases bytes.len() - from,
{
    if from < bytes.len() && is_digit(bytes[from]) {
        lemma_digits_end(bytes, from + 1);
        let end = digits_end(bytes, from);
        assert forall|i: int| 0 <= i < end - from implies is_digit(
            #[trigger] bytes.subrange(from, end)[i],
        ) by {
            if i > 0 {
                assert(bytes.subrange(from, end)[i] == bytes.subrange(from + 1, end)[i - 1]);
            }
        }
    }
}

/// A run of digits that is followed by no digit ends where it ends.
pub proof fn lemma_digits_end_is(bytes: Seq<u8>, from: int, end: int)
    requires
        0 <= from <= end <= bytes.len(),
        forall|i: int| from <= i < end ==> is_digit(#[trigger] bytes[i]),
        end < bytes.len() ==> !is_digit(bytes[end]),
    ensures
        digits_end(bytes, from) == end,
    decreases end - from,
{
    if from < end {
        lemma_digits_end_is(bytes, from + 1, end);
    }
}

/// Appends the decimal digits of `n`.
pub fn push_decimal(out: &mut Vec<u8>, n: u64)
    ensures
        final(out)@ == old(out)@ + decimal_digits(n as nat),
    decreases n,
{
    if n >= 10 {
        push_decimal(out, n / 10);
    }
    let digit: u8 = DIGIT_ZERO + (n % 10) as u8;
    out.push(digit);
}

/// Reads the run of decimal digits that starts at `from`. Returns where it
/// ends, and the number it denotes unless that exceeds `limit`.
pub fn scan_digits(bytes: &[u8], from: usize, limit: u64) -> (r: (usize, Option<u64>))
    requires
        from <= bytes.len(),
    ensures
        r.0 == digits_end(bytes@, from as int),
        from <= r.0 <= bytes.len(),
        decimal_value(bytes@.subrange(from as int, r.0 as int)) <= limit ==> r.1 == Some(
            decimal_value(bytes@.subrange(from as int, r.0 as int)) as u64,
        ),
        decimal_value(bytes@.subrange(from as int, r.0 as int)) > limit ==> r.1.is_none(),
{
    let mut i: usize = from;
    let mut value: u64 = 0;
    let mut exceeded: bool = false;
    while i < bytes.len() && DIGIT_ZERO <= bytes[i] && bytes[i] <= DIGIT_NINE
        invariant
            from <= i <= bytes.len(),
            digits_end(bytes@, from as int) == digits_end(bytes@, i as int),
            !exceeded ==> value <= limit && value == decimal_value(
                bytes@.subrange(from as int, i as int),
            ),
            exceeded ==> decimal_value(bytes@.subrange(from as int, i as int)) > limit,
        decreases bytes.len() - i,
    {
        let digit: u8 = bytes[i] - DIGIT_ZERO;
        proof {
            let longer = bytes@.subrange(from as int, i + 1);
            assert(longer.drop_last() =~= bytes@.subrange(from as int, i as int));
        }
        if !exceeded {
            let next: u128 = (value as u128) * 10 + (digit as u128);
            if next > limit as u128 {
                exceeded = true;
            } else {
                value = next as u64;
            }
        }
        i += 1;
    }
    if exceeded {
        (i, None)
    } else {
        (i, Some(value))
    }
}

} // verus!
