//! Signed 32-bit decimal integers at the start of a string.
use vstd::prelude::*;

use crate::text::{digit_run, digits_value, is_digit};

verus! {

/// Why no integer could be read.
#[derive(Debug, PartialEq, Eq, Structural)]
pub enum ParseIntegerError {
    NoDigits,
    Overflow,
}

/// The length of the optional sign at the start of `s`.
pub open spec fn sign_len(s: Seq<char>) -> int {
    if s.len() > 0 && (s[0] == '+' || s[0] == '-') {
        1
    } else {
        0
    }
}

/// Whether `s` starts with a minus sign.
pub open spec fn negative(s: Seq<char>) -> bool {
    s.len() > 0 && s[0] == '-'
}

/// The digits of the integer at the start of `s`.
pub open spec fn integer_digits(s: Seq<char>) -> Seq<char> {
    s.subrange(sign_len(s), sign_len(s) + digit_run(s, sign_len(s)))
}

/// The largest magnitude accepted: `i32::MAX`, or one more when negative.
pub open spec fn magnitude_limit(s: Seq<char>) -> int {
    if negative(s) {
        2147483648
    } else {
        2147483647
    }
}

pub proof fn lemma_digit_run_bounds(s: Seq<char>, i: int)
    requires
        0 <= i <= s.len(),
    ensures
        0 <= digit_run(s, i) <= s.len() - i,
        forall|k: int| i <= k < i + digit_run(s, i) ==> is_digit(#[trigger] s[k]),
        i + digit_run(s, i) < s.len() ==> !is_digit(s[i + digit_run(s, i)]),
    decreases s.len() - i,
{
    if i < s.len() && is_digit(s[i]) {
        lemma_digit_run_bounds(s, i + 1);
    }
}

proof fn lemma_digits_value_monotone(s: Seq<char>, n: int)
    requires
        0 <= n <= s.len(),
        forall|k: int| 0 <= k < s.len() ==> is_digit(#[trigger] s[k]),
    ensures
        digits_value(s.subrange(0, n)) <= digits_value(s),
        0 <= digits_value(s.subrange(0, n)),
    decreases s.len() - n,
{
    if n < s.len() {
        lemma_digits_value_monotone(s, n + 1);
        assert(s.subrange(0, n + 1).drop_last() == s.subrange(0, n));
    } else {
        assert(s.subrange(0, n) == s);
        lemma_digits_value_nonneg(s);
    }
}

/// The digits of an integer have a non-negative value.
pub proof fn lemma_digits_nonneg_of(s: Seq<char>)
    ensures
        0 <= digits_value(integer_digits(s)),
{
    lemma_digit_run_bounds(s, sign_len(s));
    let ds = integer_digits(s);
    assert forall|k: int| 0 <= k < ds.len() implies is_digit(#[trigger] ds[k]) by {
        assert(ds[k] == s[sign_len(s) + k]);
    }
    lemma_digits_value_nonneg(ds);
}

proof fn lemma_digits_value_nonneg(s: Seq<char>)
    requires
        forall|k: int| 0 <= k < s.len() ==> is_digit(#[trigger] s[k]),
    ensures
        0 <= digits_value(s),
    decreases s.len(),
{
    if s.len() > 0 {
        lemma_digits_value_nonneg(s.drop_last());
    }
}

/// Reads an optional sign and then the decimal digits at the start of
/// `input`, returning their value and the rest of `input`. Fails with
/// `NoDigits` when no digit follows the sign, and with `Overflow` when the
/// magnitude exceeds `i32::MAX` (`i32::MAX + 1` for a negative number).
pub fn parse_integer(input: &str) -> (r: Result<(i64, &str), ParseIntegerError>)
    ensures
        ({
            let s = input@;
            let ds = integer_digits(s);
            let v = digits_value(ds);
            match r {
                Ok((n, rest)) => ds.len() > 0 && v <= magnitude_limit(s) && n == (if negative(s) { -v } else { v })
                    && rest@ == s.subrange(sign_len(s) + ds.len(), s.len() as int),
                Err(ParseIntegerError::NoDigits) => ds.len() == 0,
                Err(ParseIntegerError::Overflow) => ds.len() > 0 && v > magnitude_limit(s),
            }
        }),
{
    let ghost s = input@;
    let len = input.unicode_len();
    let mut i: usize = 0;
    let mut neg = false;
    if len > 0 {
        let c = input.get_char(0);
        if c == '+' || c == '-' {
            neg = c == '-';
            i = 1;
        }
    }
    let start = i;
    let limit: i64 = if neg { 2147483648 } else { 2147483647 };
    proof {
        lemma_digit_run_bounds(s, start as int);
    }
    let ghost run = digit_run(s, start as int);
    let ghost ds = integer_digits(s);
    let mut value: i64 = 0;
    while i < len && is_ascii_digit(input.get_char(i))
        invariant
            len == s.len(),
            s == input@,
            start == sign_len(s),
            neg == negative(s),
            limit == magnitude_limit(s),
            run == digit_run(s, start as int),
            ds == integer_digits(s),
            0 <= run <= s.len() - start,
            forall|k: int| start <= k < start + run ==> is_digit(#[trigger] s[k]),
            start + run < s.len() ==> !is_digit(s[start + run]),
            start <= i <= start + run,
            value == digits_value(s.subrange(start as int, i as int)),
            0 <= value <= limit,
        decreases len - i,
    {
        let c = input.get_char(i);
        let digit = (c as u32 - '0' as u32) as i64;
        proof {
            let t = s.subrange(start as int, i + 1);
            assert(t.drop_last() == s.subrange(start as int, i as int));
            assert(t.last() == c);
        }
        value = value * 10 + digit;
        if value > limit {
            proof {
                assert(ds.len() == run);
                assert(forall|k: int| 0 <= k < ds.len() ==> is_digit(#[trigger] ds[k]));
                assert(ds.subrange(0, i + 1 - start) == s.subrange(start as int, i + 1));
                lemma_digits_value_monotone(ds, i + 1 - start);
            }
            return Err(ParseIntegerError::Overflow);
        }
        i += 1;
    }
    proof {
        assert(i == start + run);
        assert(s.subrange(start as int, i as int) == ds);
    }
    if i == start {
        return Err(ParseIntegerError::NoDigits);
    }
    let n = if neg { -value } else { value };
    Ok((n, input.substring_char(i, len)))
}

/// Whether `c` is an ASCII decimal digit.
fn is_ascii_digit(c: char) -> (r: bool)
    ensures
        r == is_digit(c),
{
    '0' <= c && c <= '9'
}

} // verus!
