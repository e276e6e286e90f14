//! Decimal text of integers, as it stands between `i` and `e` and in front of
//! the `:` of a byte string.

use vstd::prelude::*;

verus! {

/// `0`, the lowest digit.
pub const ZERO: u8 = 48;

/// `9`, the highest digit.
pub const NINE: u8 = 57;

/// `-`, the sign of a negative number.
pub const MINUS: u8 = 45;

/// The ASCII digit for `d`, for `d` below ten.
pub open spec fn digit_byte(d: nat) -> u8 {
    (ZERO + d) as u8
}

/// Whether `b` is one of the ASCII digits `0` to `9`.
pub open spec fn is_digit(b: u8) -> bool {
    ZERO <= b && b <= NINE
}

/// Decimal text of a natural number: no sign, no leading zero, `0` for zero.
pub open spec fn nat_text(n: nat) -> Seq<u8>
    decreases n,
{
    if n < 10 {
        seq![digit_byte(n)]
    } else {
        nat_text(n / 10).push(digit_byte(n % 10))
    }
}

/// Decimal text of an integer: a `-` in front of a negative number, nothing in
/// front of the others.
pub open spec fn int_text(v: int) -> Seq<u8> {
    if v < 0 {
        seq![MINUS] + nat_text((-v) as nat)
    } else {
        nat_text(v as nat)
    }
}

/// Whether every byte of `s` is an ASCII digit.
pub open spec fn all_digits(s: Seq<u8>) -> bool {
    forall|i: int| 0 <= i < s.len() ==> is_digit(#[trigger] s[i])
}

/// The number that a run of ASCII digits denotes; leading zeros count for nothing.
pub open spec fn digits_value(s: Seq<u8>) -> nat
    decreases s.len(),
{
    if s.len() == 0 {
        0
    } else {
        digits_value(s.drop_last()) * 10 + (s.last() - ZERO) as nat
    }
}

/// Whether `s` starts with the sign `-`.
pub open spec fn has_sign(s: Seq<u8>) -> bool {
    s.len() > 0 && s[0] == MINUS
}

/// The integer that `s` denotes: an optional `-`, then one digit or more and
/// nothing else. `None` for any other text, a leading `+` among them.
pub open spec fn text_int(s: Seq<u8>) -> Option<int> {
    let digits = if has_sign(s) {
        s.skip(1)
    } else {
        s
    };
    if digits.len() == 0 || !all_digits(digits) {
        None
    } else if s[0] == MINUS {
        Some(-(digits_value(digits) as int))
    } else {
        Some(digits_value(digits) as int)
    }
}

/// The `i64` that `s` denotes, `None` where `s` is no integer or lies outside `i64`.
pub open spec fn text_i64(s: Seq<u8>) -> Option<i64> {
    match text_int(s) {
        Some(v) => if i64::MIN <= v <= i64::MAX {
            Some(v as i64)
        } else {
            None
        },
        None => None,
    }
}

/// The length that `s` denotes: digits only, at least one, the value within `usize`.
pub open spec fn text_usize(s: Seq<u8>) -> Option<usize> {
    if s.len() > 0 && all_digits(s) && digits_value(s) <= usize::MAX {
        Some(digits_value(s) as usize)
    } else {
        None
    }
}

/// The text of a natural number is made of digits and denotes that number.
pub proof fn lemma_nat_text(n: nat)
    ensures
        nat_text(n).len() > 0,
        all_digits(nat_text(n)),
        digits_value(nat_text(n)) == n,
    decreases n,
{
    assert(digits_value(Seq::<u8>::empty()) == 0);
    if n >= 10 {
        lemma_nat_text(n / 10);
        assert(nat_text(n).drop_last() =~= nat_text(n / 10));
    } else {
        assert(nat_text(n).drop_last() =~= Seq::<u8>::empty());
    }
}

/// Reading the text of an integer gives the integer back.
pub proof fn lemma_text_int_of_int_text(v: int)
    ensures
        text_int(int_text(v)) == Some(v),
        forall|i: int|
            0 <= i < int_text(v).len() ==> is_digit(#[trigger] int_text(v)[i]) || int_text(v)[i]
                == MINUS,
{
    if v < 0 {
        lemma_nat_text((-v) as nat);
        assert(int_text(v).skip(1) =~= nat_text((-v) as nat));
    } else {
        lemma_nat_text(v as nat);
    }
}

/// A run of digits denotes at least what any of its prefixes denotes.
pub proof fn lemma_digits_value_prefix(s: Seq<u8>, k: int)
    requires
        all_digits(s),
        0 <= k <= s.len(),
    ensures
        digits_value(s.take(k)) <= digits_value(s),
    decreases s.len(),
{
    if k < s.len() {
        lemma_digits_value_prefix(s.drop_last(), k);
        assert(s.drop_last().take(k) =~= s.take(k));
    } else {
        assert(s.take(k) =~= s);
    }
}

/// Appends the decimal text of `n` to `buf`.
pub fn push_decimal(buf: &mut Vec<u8>, n: u64)
    ensures
        final(buf)@ == old(buf)@ + nat_text(n as nat),
    decreases n,
{
    if n >= 10 {
        push_decimal(buf, n / 10);
    }
    buf.push(ZERO + (n % 10) as u8);
    assert(buf@ =~= old(buf)@ + nat_text(n as nat));
}

/// Appends the decimal text of `v` to `buf`, with a `-` in front where `v` is negative.
pub fn push_decimal_i64(buf: &mut Vec<u8>, v: i64)
    ensures
        final(buf)@ == old(buf)@ + int_text(v as int),
{
    if v < 0 {
        buf.push(MINUS);
        let magnitude: u64 = ((-(v + 1)) as u64) + 1;
        push_decimal(buf, magnitude);
        assert(buf@ =~= old(buf)@ + int_text(v as int));
    } else {
        push_decimal(buf, v as u64);
    }
}

/// Reads a run of digits as a number no greater than `limit`.
fn parse_digits(s: &[u8], start: usize, limit: u64) -> (r: Option<u64>)
    requires
        start <= s.len(),
    ensures
        r == if all_digits(s@.skip(start as int)) && digits_value(s@.skip(start as int)) <= limit {
            Some(digits_value(s@.skip(start as int)) as u64)
        } else {
            None
        },
{
    let ghost digits = s@.skip(start as int);
    let mut value: u64 = 0;
    let mut i: usize = start;
    while i < s.len()
        invariant
            start <= i <= s.len(),
            digits == s@.skip(start as int),
            all_digits(digits.take(i - start)),
            value == digits_value(digits.take(i - start)),
            value <= limit,
        decreases s.len() - i,
    {
        let b = s[i];
        assert(b == digits[i - start]);
        if b < ZERO || b > NINE {
            return None;
        }
        let ghost next = digits.take(i - start + 1);
        assert(next.drop_last() =~= digits.take(i - start));
        assert(all_digits(next)) by {
            assert forall|j: int| 0 <= j < next.len() implies is_digit(#[trigger] next[j]) by {
                if j < i - start {
                    assert(next[j] == digits.take(i - start)[j]);
                }
            }
        }
        let wide: u128 = (value as u128) * 10 + ((b - ZERO) as u128);
        if wide > limit as u128 {
            proof {
                if all_digits(digits) {
                    lemma_digits_value_prefix(digits, i - start + 1);
                }
            }
            return None;
        }
        value = wide as u64;
        i += 1;
    }
    assert(digits.take(i - start) =~= digits);
    Some(value)
}

/// Reads `s` as a signed decimal number: an optional `-`, then digits.
pub fn parse_i64(s: &[u8]) -> (r: Option<i64>)
    ensures
        r == text_i64(s@),
{
    if s.len() == 0 {
        return None;
    }
    let negative = s[0] == MINUS;
    let start: usize = if negative {
        1
    } else {
        0
    };
    if start == s.len() {
        return None;
    }
    assert(s@.skip(0) =~= s@);
    let limit: u64 = if negative {
        9223372036854775808
    } else {
        9223372036854775807
    };
    match parse_digits(s, start, limit) {
        None => None,
        Some(magnitude) => {
            if negative {
                if magnitude == 9223372036854775808 {
                    Some(i64::MIN)
                } else {
                    Some(-(magnitude as i64))
                }
            } else {
                Some(magnitude as i64)
            }
        },
    }
}

/// Reads `s` as a length: digits only.
pub fn parse_usize(s: &[u8]) -> (r: Option<usize>)
    ensures
        r == text_usize(s@),
{
    if s.len() == 0 {
        return None;
    }
    assert(s@.skip(0) =~= s@);
    match parse_digits(s, 0, usize::MAX as u64) {
        None => None,
        Some(n) => Some(n as usize),
    }
}

} // verus!
