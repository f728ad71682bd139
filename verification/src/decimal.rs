//! The decimal literal of a signed integer, and the proof that it travels
//! round: parsing the literal of a value gives that value back under both
//! readings, within both parsers' domains.

use vstd::prelude::*;

use crate::digits::{
    all_digits, digit_slice, digit_value, digits_value, has_sign, is_ascii_digit,
    lemma_digits_skip_le, lemma_digits_take_le, lemma_values_agree, parse_ok, parsed_value,
    parsed_value_positional, pow10, prefixes_fit, suffixes_fit,
};

verus! {

/// The digit run of a nonnegative integer, most significant digit first.
pub open spec fn decimal_digits(n: int) -> Seq<u8>
    recommends
        n >= 0,
    decreases n,
{
    if n < 10 {
        seq![(48 + n) as u8]
    } else {
        decimal_digits(n / 10).push((48 + n % 10) as u8)
    }
}

/// The decimal literal of a signed integer: an optional minus sign, then
/// the digit run of its magnitude.
pub open spec fn decimal_bytes(v: int) -> Seq<u8> {
    if v < 0 {
        seq![45u8] + decimal_digits(-v)
    } else {
        decimal_digits(v)
    }
}

/// The digit run of `n` is non-empty, made of digits, and reads back as `n`.
pub proof fn lemma_decimal_digits_value(n: int)
    requires
        n >= 0,
    ensures
        decimal_digits(n).len() >= 1,
        all_digits(decimal_digits(n)),
        digits_value(decimal_digits(n)) == n,
    decreases n,
{
    if n < 10 {
        let s = decimal_digits(n);
        assert(s.len() == 1);
        assert(s.drop_last() =~= Seq::<u8>::empty());
        assert(digits_value(Seq::<u8>::empty()) == 0);
        assert(s.last() == (48 + n) as u8);
        assert(digits_value(s) == digits_value(s.drop_last()) * 10 + digit_value(s.last()));
    } else {
        lemma_decimal_digits_value(n / 10);
        let s0 = decimal_digits(n / 10);
        let b = (48 + n % 10) as u8;
        assert(s0.push(b).drop_last() =~= s0);
        assert(s0.push(b).last() == b);
        assert forall|j: int| 0 <= j < s0.push(b).len() implies is_ascii_digit(
            #[trigger] s0.push(b)[j],
        ) by {
            if j < s0.len() {
                assert(s0.push(b)[j] == s0[j]);
            }
        }
        assert(digits_value(s0.push(b)) == (n / 10) * 10 + (n % 10));
    }
}

/// A nonnegative integer below ten to the power `k` needs at most `k`
/// digits.
pub proof fn lemma_decimal_digits_len(n: int, k: nat)
    requires
        n >= 0,
        k >= 1,
        n < pow10(k),
    ensures
        decimal_digits(n).len() <= k,
    decreases n,
{
    if n >= 10 {
        assert(pow10(1) == 10) by {
            reveal_with_fuel(pow10, 2);
        }
        if k == 1 {
            assert(false);
        }
        assert(pow10(k) == 10 * pow10((k - 1) as nat));
        assert(n / 10 < pow10((k - 1) as nat));
        lemma_decimal_digits_len(n / 10, (k - 1) as nat);
    }
}

/// Round trip: the decimal literal of any 64-bit signed integer other than
/// the smallest is a valid literal inside both parsers' domains, and parses
/// back to that integer under both the sequential and the positional
/// reading.
pub proof fn lemma_round_trip(v: i64)
    requires
        v != i64::MIN,
    ensures
        decimal_bytes(v as int).len() >= 1,
        prefixes_fit(digit_slice(decimal_bytes(v as int))),
        suffixes_fit(digit_slice(decimal_bytes(v as int))),
        parse_ok(decimal_bytes(v as int)),
        parsed_value(decimal_bytes(v as int)) == v as int,
        parsed_value_positional(decimal_bytes(v as int)) == v as int,
{
    let m: int = if v < 0 {
        -(v as int)
    } else {
        v as int
    };
    lemma_decimal_digits_value(m);
    assert(pow10(19) == 10000000000000000000) by {
        reveal_with_fuel(pow10, 20);
    }
    lemma_decimal_digits_len(m, 19);
    let s = decimal_bytes(v as int);
    let dd = decimal_digits(m);
    if v < 0 {
        assert(s == seq![45u8] + dd);
        assert(s[0] == 45);
        assert(has_sign(s));
        assert(s.skip(1) =~= dd);
    } else {
        assert(s == dd);
        assert(is_ascii_digit(dd[0]));
        assert(!has_sign(s));
    }
    assert(digit_slice(s) == dd);
    assert forall|i: int|
        0 <= i <= dd.len() && all_digits(#[trigger] dd.take(i)) implies digits_value(dd.take(i))
        <= i64::MAX by {
        lemma_digits_take_le(dd, i);
    }
    assert forall|i: int|
        0 <= i <= dd.len() && all_digits(#[trigger] dd.skip(dd.len() - i)) implies i <= 19
        && digits_value(dd.skip(dd.len() - i)) <= i64::MAX by {
        lemma_digits_skip_le(dd, dd.len() - i);
    }
    lemma_values_agree(dd);
}

} // verus!
