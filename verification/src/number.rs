//! Decimal numbers.
use vstd::prelude::*;

verus! {

/// `c` is a decimal digit.
pub open spec fn is_digit(c: char) -> bool {
    '0' <= c && c <= '9'
}

/// The text is made of decimal digits, at least one.
pub open spec fn is_digits(text: Seq<char>) -> bool {
    text.len() > 0 && forall|i: int| 0 <= i < text.len() ==> is_digit(#[trigger] text[i])
}

/// The number that decimal digits write.
pub open spec fn digits_value(digits: Seq<char>) -> nat
    decreases digits.len(),
{
    if digits.len() == 0 {
        0
    } else {
        (digits_value(digits.drop_last()) * 10 + (digits.last() as int - '0' as int)) as nat
    }
}

/// The number that a text writes: digits behind at most one sign.
pub open spec fn decimal_value(text: Seq<char>) -> Option<int> {
    if is_digits(text) {
        Some(digits_value(text) as int)
    } else if text.len() > 0 && text[0] == '+' && is_digits(text.skip(1)) {
        Some(digits_value(text.skip(1)) as int)
    } else if text.len() > 0 && text[0] == '-' && is_digits(text.skip(1)) {
        Some(-(digits_value(text.skip(1)) as int))
    } else {
        None
    }
}

/// The `i64` that a text writes, where it writes one.
pub open spec fn decimal_i64(text: Seq<char>) -> Option<i64> {
    match decimal_value(text) {
        Some(value) if i64::MIN <= value <= i64::MAX => Some(value as i64),
        _ => None,
    }
}

/// Reads the `i64` that `text` writes in decimal.
pub fn parse_i64(text: &[char]) -> (value: Option<i64>)
    ensures
        value == decimal_i64(text@),
{
    let n = text.len();
    if n == 0 {
        return None;
    }
    let negative = text[0] == '-';
    let start: usize = if negative || text[0] == '+' {
        1
    } else {
        0
    };
    let ghost digits = text@.skip(start as int);
    proof {
        if start == 0 {
            assert(digits =~= text@);
        } else {
            assert(!is_digit(text@[0]));
        }
    }
    if n == start {
        return None;
    }
    // The value is built up from below zero, where one number more has a place.
    let mut value: i64 = 0;
    let mut fits = true;
    let mut i: usize = start;
    while i < n
        invariant
            n == text@.len(),
            start <= i <= n,
            start == 0 || start == 1,
            (start == 1) == (text@[0] == '-' || text@[0] == '+'),
            digits == text@.skip(start as int),
            n > start,
            forall|j: int| 0 <= j < i - start ==> is_digit(#[trigger] digits[j]),
            fits ==> value == -(digits_value(digits.take(i - start)) as int),
            !fits ==> digits_value(digits.take(i - start)) > -(i64::MIN as int),
        decreases n - i,
    {
        let c = text[i];
        proof {
            assert(digits[i - start] == c);
            assert(digits.take(i - start + 1).drop_last() =~= digits.take(i - start));
            assert(digits.take(i - start + 1).last() == c);
        }
        if c < '0' || c > '9' {
            proof {
                assert(!is_digit(digits[i - start]));
                assert(!is_digits(digits));
                if start == 0 {
                    assert(digits =~= text@);
                } else {
                    assert(!is_digit(text@[0]));
                    assert(!is_digits(text@));
                }
            }
            return None;
        }
        let digit: i64 = (c as u32 - '0' as u32) as i64;
        if fits {
            match value.checked_mul(10) {
                Some(tenfold) => {
                    match tenfold.checked_sub(digit) {
                        Some(next) => {
                            value = next;
                        },
                        None => {
                            fits = false;
                        },
                    }
                },
                None => {
                    fits = false;
                },
            }
        }
        i = i + 1;
    }
    proof {
        assert(digits.take(digits.len() as int) =~= digits);
        assert(is_digits(digits));
        if start == 1 {
            assert(!is_digits(text@));
        }
    }
    if !fits {
        None
    } else if negative {
        Some(value)
    } else if value == i64::MIN {
        None
    } else {
        Some(-value)
    }
}

} // verus!
