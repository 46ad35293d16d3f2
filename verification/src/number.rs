use vstd::prelude::*;
use crate::chars::{digit_value, is_digit_in, to_digit};

verus! {

/// The number that a digit stands for; zero for what is no digit.
pub open spec fn digit_or_zero(c: char) -> int {
    match digit_value(c) {
        Some(d) => d,
        None => 0,
    }
}

/// The number written by a sequence of digits in the given base, the most
/// significant digit first.
pub open spec fn digits_value(digits: Seq<char>, radix: int) -> int
    decreases digits.len(),
{
    if digits.len() == 0 {
        0
    } else {
        digits_value(digits.drop_last(), radix) * radix + digit_or_zero(digits.last())
    }
}

/// Whether every character of a text is a digit of the given base.
pub open spec fn all_digits(text: Seq<char>, radix: int) -> bool {
    forall|k: int| 0 <= k < text.len() ==> is_digit_in(#[trigger] text[k], radix)
}

/// What a text parses to as a signed 64-bit integer in the given base: the
/// value of its digits, unless it is empty, holds something that is no digit
/// of the base, or has a value that is too large.
pub open spec fn parsed_integer(digits: Seq<char>, radix: int) -> Option<int> {
    if digits.len() > 0 && all_digits(digits, radix) && digits_value(digits, radix)
        <= i64::MAX {
        Some(digits_value(digits, radix))
    } else {
        None
    }
}

/// A number never gets smaller when more digits are written behind it.
pub proof fn lemma_value_grows(digits: Seq<char>, k: int, radix: int)
    requires
        0 <= k <= digits.len(),
        radix >= 1,
    ensures
        0 <= digits_value(digits.subrange(0, k), radix) <= digits_value(digits, radix),
    decreases digits.len() - k,
{
    lemma_value_nonnegative(digits.subrange(0, k), radix);
    if k == digits.len() {
        assert(digits.subrange(0, k) =~= digits);
    } else {
        lemma_value_grows(digits, k + 1, radix);
        let longer = digits.subrange(0, k + 1);
        assert(longer.drop_last() =~= digits.subrange(0, k));
        let shorter = digits_value(digits.subrange(0, k), radix);
        assert(shorter * radix >= shorter) by (nonlinear_arith)
            requires
                shorter >= 0,
                radix >= 1,
        ;
    }
}

pub proof fn lemma_value_nonnegative(digits: Seq<char>, radix: int)
    requires
        radix >= 1,
    ensures
        digits_value(digits, radix) >= 0,
    decreases digits.len(),
{
    if digits.len() > 0 {
        lemma_value_nonnegative(digits.drop_last(), radix);
        let shorter = digits_value(digits.drop_last(), radix);
        assert(shorter * radix >= 0) by (nonlinear_arith)
            requires
                shorter >= 0,
                radix >= 1,
        ;
    }
}

/// Reads the characters `code[from..to]` as a number in the given base.
pub fn parse_integer(code: &[char], from: usize, to: usize, radix: u32) -> (parsed: Option<i64>)
    requires
        from <= to <= code@.len(),
        2 <= radix <= 36,
    ensures
        match parsed_integer(code@.subrange(from as int, to as int), radix as int) {
            Some(value) => parsed == Some(value as i64) && 0 <= value <= i64::MAX,
            None => parsed.is_none(),
        },
{
    let ghost digits = code@.subrange(from as int, to as int);
    proof {
        lemma_value_nonnegative(digits, radix as int);
    }
    if from == to {
        return None;
    }
    let mut value: u128 = 0;
    let mut k: usize = from;
    while k < to
        invariant
            from <= k <= to <= code@.len(),
            2 <= radix <= 36,
            digits == code@.subrange(from as int, to as int),
            forall|j: int| from <= j < k ==> is_digit_in(#[trigger] code@[j], radix as int),
            value == digits_value(digits.subrange(0, k - from), radix as int),
            value <= i64::MAX,
        decreases to - k,
    {
        let found = to_digit(code[k]);
        if found.is_none() || found.unwrap() >= radix {
            assert(!is_digit_in(digits[k - from], radix as int));
            return None;
        }
        let digit: u32 = found.unwrap();
        assert(value * radix <= 0x7fff_ffff_ffff_ffff * 36) by (nonlinear_arith)
            requires
                0 <= value <= 0x7fff_ffff_ffff_ffff,
                0 <= radix <= 36,
        ;
        let next: u128 = value * (radix as u128) + (digit as u128);
        proof {
            let longer = digits.subrange(0, k + 1 - from);
            assert(longer.drop_last() =~= digits.subrange(0, k - from));
            assert(longer.last() == code@[k as int]);
            assert(next == digits_value(longer, radix as int));
        }
        if next > 0x7fff_ffff_ffff_ffff {
            proof {
                lemma_value_grows(digits, k + 1 - from, radix as int);
            }
            return None;
        }
        value = next;
        k += 1;
    }
    proof {
        assert(digits.subrange(0, to - from) =~= digits);
        assert forall|j: int| 0 <= j < digits.len() implies is_digit_in(
            #[trigger] digits[j],
            radix as int,
        ) by {
            assert(is_digit_in(code@[from + j], radix as int));
        }
    }
    Some(value as i64)
}

} // verus!
