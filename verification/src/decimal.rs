//! Decimal text: the digits of a number and the number of a run of digits.

use vstd::prelude::*;
use crate::text::{all_ascii, ascii_chars, decode, lemma_ascii_is_utf8};

verus! {

/// ASCII `0`.
pub const DIGIT_ZERO: u8 = 48;

/// ASCII `9`.
pub const DIGIT_NINE: u8 = 57;

/// ASCII `+`.
pub const PLUS: u8 = 43;

/// ASCII `-`.
pub const MINUS: u8 = 45;

/// Whether `b` is an ASCII decimal digit.
pub open spec fn is_digit(b: u8) -> bool {
    DIGIT_ZERO <= b <= DIGIT_NINE
}

/// Whether every byte of `s` is a decimal digit.
pub open spec fn all_digits(s: Seq<u8>) -> bool {
    forall|i: int| 0 <= i < s.len() ==> is_digit(#[trigger] s[i])
}

/// The number that a run of digits denotes, most significant digit first.
pub open spec fn digits_value(s: Seq<u8>) -> nat
    decreases s.len(),
{
    if s.len() == 0 {
        0
    } else {
        digits_value(s.drop_last()) * 10 + (s.last() - DIGIT_ZERO) as nat
    }
}

/// The digits of `n` without leading zeros; a single `0` for zero.
pub open spec fn digits_of(n: nat) -> Seq<u8>
    decreases n,
{
    if n < 10 {
        seq![(DIGIT_ZERO + n) as u8]
    } else {
        digits_of(n / 10).push((DIGIT_ZERO + n % 10) as u8)
    }
}

/// The decimal text of an integer: a `-` before the digits of a negative one.
pub open spec fn decimal_of(i: int) -> Seq<u8> {
    if i < 0 {
        seq![MINUS] + digits_of((-i) as nat)
    } else {
        digits_of(i as nat)
    }
}

/// Whether `s` is a non-empty run of digits.
pub open spec fn is_number(s: Seq<u8>) -> bool {
    s.len() > 0 && all_digits(s)
}

/// The integer that `s` denotes: an optional sign, then one digit or more.
pub open spec fn decimal_value(s: Seq<u8>) -> Option<int> {
    if s.len() > 0 && s[0] == MINUS {
        if is_number(s.skip(1)) {
            Some(-(digits_value(s.skip(1)) as int))
        } else {
            None
        }
    } else if s.len() > 0 && s[0] == PLUS {
        if is_number(s.skip(1)) {
            Some(digits_value(s.skip(1)) as int)
        } else {
            None
        }
    } else if is_number(s) {
        Some(digits_value(s) as int)
    } else {
        None
    }
}

/// What `parse_i64` returns: the value of `s` where it fits an `i64`.
pub open spec fn spec_parse_i64(s: Seq<u8>) -> Option<i64> {
    match decimal_value(s) {
        Some(v) if i64::MIN <= v <= i64::MAX => Some(v as i64),
        _ => None,
    }
}

/// What `parse_u64` returns: the value of `s` where it has no `-` and fits a
/// `u64`.
pub open spec fn spec_parse_u64(s: Seq<u8>) -> Option<u64> {
    match decimal_value(s) {
        Some(v) if s[0] != MINUS && v <= u64::MAX => Some(v as u64),
        _ => None,
    }
}

/// A run of digits with one more digit behind it is worth ten times the run
/// plus the digit.
pub proof fn lemma_digits_value_push(s: Seq<u8>, b: u8)
    ensures
        digits_value(s.push(b)) == digits_value(s) * 10 + (b - DIGIT_ZERO) as nat,
{
    assert(s.push(b).drop_last() =~= s);
}

/// No prefix of a run of digits is worth more than the run.
pub proof fn lemma_digits_value_prefix(s: Seq<u8>, k: int)
    requires
        0 <= k <= s.len(),
    ensures
        digits_value(s.take(k)) <= digits_value(s),
    decreases s.len(),
{
    if k == s.len() {
        assert(s.take(k) =~= s);
    } else {
        lemma_digits_value_prefix(s.drop_last(), k);
        assert(s.drop_last().take(k) =~= s.take(k));
    }
}

/// The digits of a number are digits, and there is at least one.
pub proof fn lemma_digits_of_is_number(n: nat)
    ensures
        is_number(digits_of(n)),
    decreases n,
{
    if n >= 10 {
        lemma_digits_of_is_number(n / 10);
    }
}

/// The digits of a number denote that number.
pub proof fn lemma_digits_round_trip(n: nat)
    ensures
        digits_value(digits_of(n)) == n,
    decreases n,
{
    if n < 10 {
        let s = digits_of(n);
        assert(s.drop_last() =~= Seq::<u8>::empty());
        assert(digits_value(s.drop_last()) == 0);
    } else {
        lemma_digits_round_trip(n / 10);
        lemma_digits_value_push(digits_of(n / 10), (DIGIT_ZERO + n % 10) as u8);
    }
}

/// The decimal text of an integer denotes that integer.
pub proof fn lemma_decimal_round_trip(i: int)
    ensures
        decimal_value(decimal_of(i)) == Some(i),
{
    if i < 0 {
        let d = digits_of((-i) as nat);
        lemma_digits_of_is_number((-i) as nat);
        lemma_digits_round_trip((-i) as nat);
        assert(decimal_of(i).skip(1) =~= d);
    } else {
        lemma_digits_of_is_number(i as nat);
        lemma_digits_round_trip(i as nat);
    }
}

/// Reads the digits of `text` from `start` to its end. `None` where there is
/// no digit, where another byte stands among them, or where the number is
/// above `limit`.
fn parse_magnitude(text: &[u8], start: usize, limit: u64) -> (r: Option<u64>)
    requires
        start <= text@.len(),
    ensures
        r == (if is_number(text@.skip(start as int)) && digits_value(text@.skip(start as int))
            <= limit {
            Some(digits_value(text@.skip(start as int)) as u64)
        } else {
            None
        }),
{
    let ghost run = text@.skip(start as int);
    if start >= text.len() {
        return None;
    }
    let mut acc: u128 = 0;
    let mut i: usize = start;
    while i < text.len()
        invariant
            start <= i <= text@.len(),
            run == text@.skip(start as int),
            all_digits(run.take(i - start)),
            acc == digits_value(run.take(i - start)),
            acc <= limit,
        decreases text@.len() - i,
    {
        let b: u8 = text[i];
        if b < DIGIT_ZERO || b > DIGIT_NINE {
            assert(run[i - start] == b);
            return None;
        }
        let next: u128 = acc * 10 + (b - DIGIT_ZERO) as u128;
        proof {
            assert(run.take(i + 1 - start) =~= run.take(i - start).push(b));
            lemma_digits_value_push(run.take(i - start), b);
        }
        if next > limit as u128 {
            proof {
                lemma_digits_value_prefix(run, i + 1 - start);
            }
            return None;
        }
        acc = next;
        i += 1;
    }
    assert(run.take(i - start) =~= run);
    Some(acc as u64)
}

/// Reads a signed decimal number: an optional `+` or `-`, then one digit or
/// more, and nothing else. `None` where `text` is not of that form or the
/// number does not fit.
pub fn parse_i64(text: &[u8]) -> (r: Option<i64>)
    ensures
        r == spec_parse_i64(text@),
{
    if text.len() == 0 {
        return None;
    }
    let first: u8 = text[0];
    assert(text@.skip(0) =~= text@);
    if first == MINUS {
        match parse_magnitude(text, 1, 0x8000_0000_0000_0000u64) {
            Some(m) => {
                if m == 0x8000_0000_0000_0000u64 {
                    Some(i64::MIN)
                } else {
                    Some(-(m as i64))
                }
            },
            None => None,
        }
    } else if first == PLUS {
        match parse_magnitude(text, 1, 0x7fff_ffff_ffff_ffffu64) {
            Some(m) => Some(m as i64),
            None => None,
        }
    } else {
        match parse_magnitude(text, 0, 0x7fff_ffff_ffff_ffffu64) {
            Some(m) => Some(m as i64),
            None => None,
        }
    }
}

/// Reads an unsigned decimal number: an optional `+`, then one digit or more,
/// and nothing else. `None` where `text` is not of that form or the number
/// does not fit.
pub fn parse_u64(text: &[u8]) -> (r: Option<u64>)
    ensures
        r == spec_parse_u64(text@),
{
    if text.len() == 0 {
        return None;
    }
    let first: u8 = text[0];
    assert(text@.skip(0) =~= text@);
    if first == PLUS {
        parse_magnitude(text, 1, u64::MAX)
    } else {
        parse_magnitude(text, 0, u64::MAX)
    }
}

/// Appends the digits of `n` to `out`.
pub fn push_digits(out: &mut Vec<u8>, n: u64)
    ensures
        final(out)@ == old(out)@ + digits_of(n as nat),
    decreases n,
{
    if n >= 10 {
        push_digits(out, n / 10);
    }
    out.push(DIGIT_ZERO + (n % 10) as u8);
    assert(final(out)@ =~= old(out)@ + digits_of(n as nat));
}

/// Appends the decimal text of `i` to `out`.
pub fn push_decimal(out: &mut Vec<u8>, i: i64)
    ensures
        final(out)@ == old(out)@ + decimal_of(i as int),
{
    if i < 0 {
        out.push(MINUS);
        let m: u64 = (-(i + 1)) as u64 + 1;
        push_digits(out, m);
        assert(final(out)@ =~= old(out)@ + decimal_of(i as int));
    } else {
        push_digits(out, i as u64);
    }
}

/// The digits of a number are ASCII.
pub proof fn lemma_digits_ascii(n: nat)
    ensures
        all_ascii(digits_of(n)),
{
    lemma_digits_of_is_number(n);
}

/// The digits of `n` as text.
pub open spec fn decimal_text(n: nat) -> Seq<char> {
    ascii_chars(digits_of(n))
}

/// The digits of `n` as a string.
pub fn decimal_string(n: u64) -> (r: String)
    ensures
        r@ == decimal_text(n as nat),
{
    let mut out: Vec<u8> = Vec::new();
    push_digits(&mut out, n);
    proof {
        assert(out@ =~= digits_of(n as nat));
        lemma_digits_ascii(n as nat);
        lemma_ascii_is_utf8(out@);
    }
    match decode(out) {
        Some(s) => s,
        None => vstd::pervasive::unreached(),
    }
}

} // verus!
