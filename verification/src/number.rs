//! Decimal integer literals: reading them as `i64` values and writing values
//! back as literals.

use vstd::prelude::*;

use crate::text::{push_signed_decimal, signed_decimal};

verus! {

pub open spec fn is_digit_char(c: char) -> bool {
    '0' <= c <= '9'
}

pub open spec fn digit_value(c: char) -> int {
    (c as int) - ('0' as int)
}

/// The value of a non-empty run of decimal digits.
pub open spec fn digits_value(s: Seq<char>) -> int
    decreases s.len(),
{
    if s.len() == 0 {
        0
    } else {
        digits_value(s.drop_last()) * 10 + digit_value(s.last())
    }
}

pub open spec fn all_digits(s: Seq<char>) -> bool {
    forall|i: int| 0 <= i < s.len() ==> is_digit_char(#[trigger] s[i])
}

/// The integer a literal spells: an optional `+` or `-` followed by at least
/// one decimal digit.
pub open spec fn literal_value(s: Seq<char>) -> Option<int> {
    if s.len() > 0 && (s[0] == '-' || s[0] == '+') {
        let digits = s.drop_first();
        if digits.len() > 0 && all_digits(digits) {
            if s[0] == '-' {
                Some(-digits_value(digits))
            } else {
                Some(digits_value(digits))
            }
        } else {
            None
        }
    } else if s.len() > 0 && all_digits(s) {
        Some(digits_value(s))
    } else {
        None
    }
}

pub open spec fn fits_i64(v: int) -> bool {
    i64::MIN <= v <= i64::MAX
}

/// What reading a literal as an `i64` gives: its value when it spells one that
/// fits, nothing otherwise.
pub open spec fn literal_i64(s: Seq<char>) -> Option<i64> {
    match literal_value(s) {
        Some(v) => if fits_i64(v) {
            Some(v as i64)
        } else {
            None
        },
        None => None,
    }
}

proof fn lemma_digits_value_grows(s: Seq<char>, j: int)
    requires
        0 <= j <= s.len(),
        all_digits(s),
    ensures
        0 <= digits_value(s.take(j)) <= digits_value(s),
    decreases s.len() - j,
{
    if j < s.len() {
        lemma_digits_value_grows(s, j + 1);
        assert(s.take(j + 1).drop_last() =~= s.take(j));
        lemma_digits_nonnegative(s.take(j));
    } else {
        assert(s.take(j) =~= s);
        lemma_digits_nonnegative(s);
    }
}

proof fn lemma_digits_nonnegative(s: Seq<char>)
    requires
        all_digits(s),
    ensures
        digits_value(s) >= 0,
    decreases s.len(),
{
    if s.len() > 0 {
        lemma_digits_nonnegative(s.drop_last());
    }
}

/// How a literal splits into its sign and digits.
proof fn lemma_literal_digits(chars: Seq<char>, start: int, n: int, digits: Seq<char>)
    requires
        n == chars.len(),
        0 <= start < n,
        start == (if chars[0] == '-' || chars[0] == '+' { 1int } else { 0int }),
        digits == chars.subrange(start, n),
    ensures
        literal_value(chars) == if all_digits(digits) {
            if chars[0] == '-' {
                Some(-digits_value(digits))
            } else {
                Some(digits_value(digits))
            }
        } else {
            None::<int>
        },
{
    if start == 1 {
        assert(digits =~= chars.drop_first());
    } else {
        assert(digits =~= chars);
    }
}

/// Reads a decimal literal as an `i64`, as `str::parse::<i64>` does.
pub fn parse_i64(text: &String) -> (r: Option<i64>)
    ensures
        r == literal_i64(text@),
{
    let s = text.as_str();
    let n = s.unicode_len();
    let ghost chars = text@;
    if n == 0 {
        return None;
    }
    let first = s.get_char(0);
    assert(first == chars[0]);
    let negative = first == '-';
    let start: usize = if first == '-' || first == '+' { 1 } else { 0 };
    if start >= n {
        return None;
    }
    let ghost digits = chars.subrange(start as int, n as int);
    assert(start == 1 ==> digits =~= chars.drop_first());
    assert(start == 0 ==> digits =~= chars);
    let mut value: i64 = 0;
    let mut i: usize = start;
    while i < n
        invariant
            s@ == chars,
            chars == text@,
            n == chars.len(),
            start <= i <= n,
            start < n,
            start == (if chars[0] == '-' || chars[0] == '+' { 1int } else { 0int }),
            negative == (chars[0] == '-'),
            digits == chars.subrange(start as int, n as int),
            forall|k: int| 0 <= k < i - start ==> is_digit_char(#[trigger] digits[k]),
            value as int == if negative {
                -digits_value(digits.take(i - start))
            } else {
                digits_value(digits.take(i - start))
            },
        decreases n - i,
    {
        let c = s.get_char(i);
        if !('0' <= c && c <= '9') {
            assert(!is_digit_char(digits[i - start]));
            assert(!all_digits(digits));
            proof {
                lemma_literal_digits(chars, start as int, n as int, digits);
                assert(literal_value(chars) is None);
                assert(chars == text@);
            }
            return None;
        }
        let d = (c as u32 - '0' as u32) as i128;
        proof {
            assert(digits.take(i - start + 1).drop_last() =~= digits.take(i - start));
            assert(digits.take(i - start + 1).last() == c);
        }
        let wide: i128 = if negative {
            (value as i128) * 10 - d
        } else {
            (value as i128) * 10 + d
        };
        if wide < i64::MIN as i128 || wide > i64::MAX as i128 {
            proof {
                let grown = digits_value(digits.take(i - start + 1));
                assert(wide as int == if negative { -grown } else { grown });
                if all_digits(digits) {
                    lemma_digits_value_grows(digits, i - start + 1);
                    assert(digits.take(digits.len() as int) =~= digits);
                    lemma_digits_nonnegative(digits.take(i - start + 1));
                }
                lemma_literal_digits(chars, start as int, n as int, digits);
                if all_digits(digits) {
                    let total = digits_value(digits);
                    assert(!fits_i64(if negative { -total } else { total }));
                }
            }
            return None;
        }
        value = wide as i64;
        i = i + 1;
    }
    proof {
        assert(digits.take(digits.len() as int) =~= digits);
        assert(all_digits(digits));
        lemma_literal_digits(chars, start as int, n as int, digits);
    }
    Some(value)
}

/// Writes a value as a decimal literal, as `i64::to_string` does.
pub fn i64_text(v: i64) -> (r: String)
    ensures
        r@ == signed_decimal(v as int),
{
    let mut out = String::new();
    push_signed_decimal(&mut out, v);
    assert(out@ =~= signed_decimal(v as int));
    out
}

} // verus!
