//! Decimal numbers in text: what a run of characters denotes, and whether it
//! fits the integer type that is asked for.

use vstd::prelude::*;

verus! {

/// One of the ten ASCII digits.
pub open spec fn is_digit(c: char) -> bool {
    '0' <= c && c <= '9'
}

/// The number that a digit stands for.
pub open spec fn digit_value(c: char) -> nat {
    (c as u32 - '0' as u32) as nat
}

/// Every character is a digit.
pub open spec fn all_digits(s: Seq<char>) -> bool {
    forall|i: int| 0 <= i < s.len() ==> is_digit(#[trigger] s[i])
}

/// The number that a run of digits denotes in base ten; 0 for the empty run.
pub open spec fn decimal_value(s: Seq<char>) -> nat
    decreases s.len(),
{
    if s.len() == 0 {
        0
    } else {
        decimal_value(s.drop_last()) * 10 + digit_value(s.last())
    }
}

/// The text without a sign at its start. A minus sign counts only where `signed`.
pub open spec fn unsigned_part(s: Seq<char>, signed: bool) -> Seq<char> {
    if s.len() > 0 && (s[0] == '+' || (signed && s[0] == '-')) {
        s.drop_first()
    } else {
        s
    }
}

/// The `u64` that a text denotes: an optional `+`, then one or more digits,
/// and nothing else; `None` where the text has another shape or the number
/// does not fit.
pub open spec fn unsigned_from_text(s: Seq<char>) -> Option<u64> {
    let digits = unsigned_part(s, false);
    if digits.len() > 0 && all_digits(digits) && decimal_value(digits) <= u64::MAX {
        Some(decimal_value(digits) as u64)
    } else {
        None
    }
}

/// The `i32` that a text denotes: an optional `+` or `-`, then one or more
/// digits, and nothing else; `None` where the text has another shape or the
/// number does not fit.
pub open spec fn signed_from_text(s: Seq<char>) -> Option<i32> {
    let digits = unsigned_part(s, true);
    let value = if s.len() > 0 && s[0] == '-' {
        -(decimal_value(digits) as int)
    } else {
        decimal_value(digits) as int
    };
    if digits.len() > 0 && all_digits(digits) && i32::MIN <= value <= i32::MAX {
        Some(value as i32)
    } else {
        None
    }
}

/// A run of digits denotes at least what any of its beginnings denotes.
pub proof fn lemma_decimal_value_grows(s: Seq<char>, k: int)
    requires
        0 <= k <= s.len(),
    ensures
        decimal_value(s.take(k)) <= decimal_value(s),
    decreases s.len(),
{
    if k < s.len() {
        let front = s.drop_last();
        assert(front.take(k) == s.take(k));
        lemma_decimal_value_grows(front, k);
    } else {
        assert(s.take(k) == s);
    }
}

/// The value of the digits of `text` from `start` on, if there is at least
/// one character, all are digits, and the value is at most `limit`.
fn decimal_up_to(text: &[char], start: usize, limit: u64) -> (value: Option<u64>)
    requires
        start <= text.len(),
    ensures
        value == if text@.skip(start as int).len() > 0 && all_digits(text@.skip(start as int))
            && decimal_value(text@.skip(start as int)) <= limit {
            Some(decimal_value(text@.skip(start as int)) as u64)
        } else {
            None
        },
{
    let ghost digits = text@.skip(start as int);
    if start == text.len() {
        return None;
    }
    let mut value: u64 = 0;
    let mut i: usize = start;
    assert(digits.take(0) == Seq::<char>::empty());
    while i < text.len()
        invariant
            start <= i <= text.len(),
            digits == text@.skip(start as int),
            all_digits(digits.take(i - start)),
            value == decimal_value(digits.take(i - start)),
            value <= limit,
        decreases text.len() - i,
    {
        let c = text[i];
        let ghost seen = digits.take(i - start + 1);
        assert(seen.drop_last() == digits.take(i - start));
        assert(seen.last() == c);
        if !('0' <= c && c <= '9') {
            assert(!is_digit(digits[i - start]));
            return None;
        }
        let digit: u64 = (c as u32 - '0' as u32) as u64;
        let next: u128 = value as u128 * 10 + digit as u128;
        if next > limit as u128 {
            proof {
                lemma_decimal_value_grows(digits, i - start + 1);
            }
            return None;
        }
        value = next as u64;
        i += 1;
    }
    assert(digits.take(i - start) == digits);
    Some(value)
}

/// Reads a `u64` from text: an optional `+`, then digits.
pub fn parse_unsigned(text: &[char]) -> (number: Option<u64>)
    ensures
        number == unsigned_from_text(text@),
{
    let start: usize = if text.len() > 0 && text[0] == '+' {
        1
    } else {
        0
    };
    assert(text@.skip(0) == text@);
    decimal_up_to(text, start, u64::MAX)
}

/// Reads an `i32` from text: an optional `+` or `-`, then digits.
pub fn parse_signed(text: &[char]) -> (number: Option<i32>)
    ensures
        number == signed_from_text(text@),
{
    let negative = text.len() > 0 && text[0] == '-';
    let start: usize = if text.len() > 0 && (text[0] == '+' || text[0] == '-') {
        1
    } else {
        0
    };
    assert(text@.skip(0) == text@);
    let limit: u64 = if negative {
        2147483648
    } else {
        2147483647
    };
    match decimal_up_to(text, start, limit) {
        Some(magnitude) => {
            if negative {
                Some((-(magnitude as i64)) as i32)
            } else {
                Some(magnitude as i32)
            }
        },
        None => None,
    }
}

} // verus!
