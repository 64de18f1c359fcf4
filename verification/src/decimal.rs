//! Decimal numerals as bytes: reading an unsigned number, and writing one.

use vstd::prelude::*;
use vstd::string::StringSliceAdditionalSpecFns;

verus! {

/// The byte is one of the ASCII digits `0` to `9`.
pub open spec fn is_digit(b: u8) -> bool {
    0x30 <= b <= 0x39
}

/// Every byte of `s` is an ASCII digit.
pub open spec fn all_digits(s: Seq<u8>) -> bool {
    forall|i: int| 0 <= i < s.len() ==> is_digit(#[trigger] s[i])
}

/// The number that a run of ASCII digits denotes, most significant digit
/// first. The empty run denotes zero.
pub open spec fn digits_value(s: Seq<u8>) -> nat
    decreases s.len(),
{
    if s.len() == 0 {
        0
    } else {
        digits_value(s.drop_last()) * 10 + (s.last() - 0x30) as nat
    }
}

/// The numeral without its optional leading `+`.
pub open spec fn unsigned_body(s: Seq<u8>) -> Seq<u8> {
    if s.len() > 0 && s[0] == 0x2b {
        s.skip(1)
    } else {
        s
    }
}

/// The value of an unsigned decimal numeral: an optional `+`, then one or
/// more ASCII digits and nothing else. Leading zeros are allowed. Anything
/// else is not a numeral.
pub open spec fn unsigned_decimal(s: Seq<u8>) -> Option<nat> {
    let body = unsigned_body(s);
    if body.len() > 0 && all_digits(body) {
        Some(digits_value(body))
    } else {
        None
    }
}

/// A run of digits is worth at least as much as any of its prefixes.
pub proof fn lemma_digits_value_prefix(s: Seq<u8>, k: int)
    requires
        0 <= k <= s.len(),
        all_digits(s),
    ensures
        digits_value(s.take(k)) <= digits_value(s),
    decreases s.len() - k,
{
    if k == s.len() {
        assert(s.take(k) =~= s);
    } else {
        lemma_digits_value_prefix(s, k + 1);
        assert(s.take(k + 1).drop_last() =~= s.take(k));
    }
}

/// Reads an unsigned decimal numeral whose value is below `bound`.
///
/// The result is `Some(v)` exactly when `bytes` is a numeral of value `v` and
/// `v < bound`; a numeral that is too large and a text that is no numeral
/// both give `None`.
pub fn parse_below(bytes: &[u8], bound: u32) -> (r: Option<u32>)
    ensures
        match r {
            Some(v) => unsigned_decimal(bytes@) == Some(v as nat) && v < bound,
            None => match unsigned_decimal(bytes@) {
                Some(n) => n >= bound,
                None => true,
            },
        },
{
    let start: usize = if bytes.len() > 0 && bytes[0] == 0x2b { 1 } else { 0 };
    let ghost body = unsigned_body(bytes@);
    assert(body =~= bytes@.skip(start as int));
    if start == bytes.len() || bound == 0 {
        return None;
    }
    let mut value: u64 = 0;
    let mut i: usize = start;
    assert(body.take(0) =~= Seq::<u8>::empty());
    while i < bytes.len()
        invariant
            start <= i <= bytes.len(),
            body == bytes@.skip(start as int),
            body == unsigned_body(bytes@),
            all_digits(body.take(i - start)),
            value == digits_value(body.take(i - start)),
            value < bound,
        decreases bytes.len() - i,
    {
        let b: u8 = bytes[i];
        let ghost next = body.take(i - start + 1);
        assert(next.drop_last() =~= body.take(i - start));
        assert(next.last() == b);
        if b < 0x30 || b > 0x39 {
            assert(!is_digit(body[i - start]));
            return None;
        }
        let digit: u64 = (b - 0x30) as u64;
        let wider: u64 = value * 10 + digit;
        if wider >= bound as u64 {
            proof {
                if all_digits(body) {
                    lemma_digits_value_prefix(body, i - start + 1);
                }
            }
            return None;
        }
        value = wider;
        i += 1;
    }
    assert(body.take(i - start) =~= body);
    Some(value as u32)
}

/// The decimal numeral of a number: its digits, most significant first,
/// without a sign and without leading zeros.
pub open spec fn decimal_digits(n: nat) -> Seq<u8>
    decreases n,
{
    if n < 10 {
        seq![(0x30 + n) as u8]
    } else {
        decimal_digits(n / 10).push((0x30 + n % 10) as u8)
    }
}

/// A number of hundredths as a numeral with two decimal places: the whole
/// part, a point, and the two digits of the hundredths.
pub open spec fn hundredths_digits(v: nat) -> Seq<u8> {
    decimal_digits(v / 100).push(0x2e).push((0x30 + (v % 100) / 10) as u8).push(
        (0x30 + v % 10) as u8,
    )
}

/// Reading what `decimal_digits` wrote gives the number back.
pub proof fn lemma_decimal_round_trip(n: nat)
    ensures
        decimal_digits(n).len() > 0,
        all_digits(decimal_digits(n)),
        digits_value(decimal_digits(n)) == n,
        unsigned_decimal(decimal_digits(n)) == Some(n),
    decreases n,
{
    let text = decimal_digits(n);
    if n < 10 {
        assert(text.drop_last() =~= Seq::<u8>::empty());
        assert(digits_value(text.drop_last()) == 0);
    } else {
        lemma_decimal_round_trip(n / 10);
        assert(text.drop_last() =~= decimal_digits(n / 10));
    }
    assert(is_digit(text[0]));
    assert(unsigned_body(text) == text);
}

/// Appends the decimal numeral of `value` to `out`.
pub fn push_decimal(out: &mut Vec<u8>, value: u64)
    ensures
        final(out)@ == old(out)@ + decimal_digits(value as nat),
    decreases value,
{
    if value >= 10 {
        push_decimal(out, value / 10);
    }
    let digit: u8 = 0x30 + (value % 10) as u8;
    out.push(digit);
    proof {
        assert(out@ =~= old(out)@ + decimal_digits(value as nat));
    }
}

/// Appends `value`, a number of hundredths, to `out` as a numeral with two
/// decimal places.
pub fn push_hundredths(out: &mut Vec<u8>, value: u64)
    ensures
        final(out)@ == old(out)@ + hundredths_digits(value as nat),
{
    push_decimal(out, value / 100);
    out.push(0x2e);
    let tens: u8 = 0x30 + ((value % 100) / 10) as u8;
    let ones: u8 = 0x30 + (value % 10) as u8;
    out.push(tens);
    out.push(ones);
    proof {
        assert(out@ =~= old(out)@ + hundredths_digits(value as nat));
    }
}

/// Appends the bytes of `text` to `out`.
pub fn push_text(out: &mut Vec<u8>, text: &str)
    ensures
        final(out)@ == old(out)@ + text.spec_bytes(),
{
    let bytes = text.as_bytes();
    let mut i: usize = 0;
    while i < bytes.len()
        invariant
            i <= bytes.len(),
            bytes@ == text.spec_bytes(),
            out@ == old(out)@ + bytes@.take(i as int),
        decreases bytes.len() - i,
    {
        out.push(bytes[i]);
        proof {
            assert(bytes@.take(i + 1) =~= bytes@.take(i as int).push(bytes@[i as int]));
        }
        i += 1;
    }
    proof {
        assert(bytes@.take(i as int) =~= bytes@);
    }
}

} // verus!
