//! Two verified parsers for signed decimal integer literals, alike in their
//! contract but deliberately different in structure.
//!
//! `atoi1` scans the digits left to right and threads an accumulator through
//! every step: a true data-dependency chain.  `atoi2` scans right to left and
//! adds up independent digit-times-weight products, the weights coming from a
//! table of powers of ten.  Both return the parsed value, or nothing when a
//! byte outside `'0'..='9'` follows the optional leading minus sign.

use vstd::prelude::*;

mod decimal;
mod digits;

use crate::digits::{
    all_digits, digit_slice, digit_value, digits_value, has_sign, is_ascii_digit,
    lemma_digits_value_lt_pow10, lemma_digits_value_nonneg, lemma_pow10_mono, lemma_pow10_pos,
    lemma_values_agree, lemma_weighted_nonneg, parse_ok, parsed_value, parsed_value_positional,
    pow10, prefixes_fit, suffixes_fit, weighted_value,
};
use vstd::string::StringSliceAdditionalSpecFns;

verus! {

/// Sequential-accumulate parser: reads the digits most-significant first,
/// each step extending the value produced by the step before.
///
/// Returns the parsed value exactly when every byte after the optional
/// leading minus sign is an ASCII decimal digit, and nothing otherwise.
/// Empty input, and any input whose digit run would overflow an `i64`, is
/// excluded by precondition; `atoi1_checked` reports those instead.
pub fn atoi1(input: &str) -> (r: Option<i64>)
    requires
        input.spec_bytes().len() >= 1,
        prefixes_fit(digit_slice(input.spec_bytes())),
    ensures
        (r is Some) == parse_ok(input.spec_bytes()),
        r matches Some(v) ==> v as int == parsed_value(input.spec_bytes()),
{
    let bytes = input.as_bytes();
    let n = bytes.len();
    let neg = bytes[0] == 45;
    let start: usize = if neg {
        1
    } else {
        0
    };
    let ghost d = digit_slice(input.spec_bytes());
    proof {
        assert(d =~= bytes@.skip(start as int));
    }
    let mut output: i64 = 0;
    let mut i: usize = start;
    while i < n
        invariant
            bytes@ == input.spec_bytes(),
            n == bytes@.len(),
            1 <= n,
            neg == has_sign(bytes@),
            start == if neg { 1int } else { 0int },
            start <= i <= n,
            d == digit_slice(bytes@),
            d =~= bytes@.skip(start as int),
            prefixes_fit(d),
            all_digits(d.take(i - start)),
            output as int == digits_value(d.take(i - start)),
        decreases n - i,
    {
        let c = bytes[i];
        if c < 48 || c > 57 {
            proof {
                assert(d[i - start] == bytes@[i as int]);
                assert(!is_ascii_digit(d[i - start]));
            }
            return None;
        }
        proof {
            let j = i - start;
            assert(d.take(j + 1) =~= d.take(j).push(d[j]));
            assert(d.take(j + 1).drop_last() =~= d.take(j));
            assert(all_digits(d.take(j + 1)));
            lemma_digits_value_nonneg(d.take(j));
            assert(digits_value(d.take(j + 1)) == output * 10 + digit_value(d[j]));
        }
        output = output * 10 + (c - 48) as i64;
        i += 1;
    }
    proof {
        assert(d.take(n - start) =~= d);
        lemma_digits_value_nonneg(d);
    }
    let output = if neg {
        -output
    } else {
        output
    };
    Some(output)
}

/// The positional weight table: entry `i` holds ten to the power `i`, one
/// entry for each of the 19 decimal places a 64-bit signed integer can span.
pub fn pow10_table() -> (t: [i64; 19])
    ensures
        forall|k: int| 0 <= k < 19 ==> t@[k] == pow10(k as nat),
{
    let mut t: [i64; 19] = [1; 19];
    let mut w: i64 = 1;
    let mut i: usize = 0;
    while i < 19
        invariant
            i <= 19,
            forall|k: int| 0 <= k < i ==> t@[k] == pow10(k as nat),
            i < 19 ==> w as int == pow10(i as nat),
        decreases 19 - i,
    {
        t[i] = w;
        i += 1;
        if i < 19 {
            proof {
                lemma_pow10_pos((i - 1) as nat);
                lemma_pow10_mono(i as nat, 18);
                assert(pow10(18) == 1000000000000000000) by {
                    reveal_with_fuel(pow10, 20);
                }
                assert(w as int == pow10((i - 1) as nat));
                assert(pow10(i as nat) == 10 * pow10((i - 1) as nat));
                assert(w * 10 <= 1000000000000000000);
            }
            w = w * 10;
        }
    }
    t
}

/// Positional-weight parser: reads the digits least-significant first and
/// accumulates independent digit-times-weight products, the weight of each
/// place coming from the table of powers of ten.
///
/// Returns the parsed value exactly when every byte after the optional
/// leading minus sign is an ASCII decimal digit, and nothing otherwise.
/// Empty input, a digit run past the weight table's span, and any input
/// whose digit run would overflow an `i64`, is excluded by precondition;
/// `atoi2_checked` reports those instead.
pub fn atoi2(input: &str) -> (r: Option<i64>)
    requires
        input.spec_bytes().len() >= 1,
        suffixes_fit(digit_slice(input.spec_bytes())),
    ensures
        (r is Some) == parse_ok(input.spec_bytes()),
        r matches Some(v) ==> v as int == parsed_value_positional(input.spec_bytes()),
{
    let bytes = input.as_bytes();
    let n = bytes.len();
    let neg = bytes[0] == 45;
    let start: usize = if neg {
        1
    } else {
        0
    };
    let ghost d = digit_slice(input.spec_bytes());
    proof {
        assert(d =~= bytes@.skip(start as int));
    }
    let w = pow10_table();
    let m = n - start;
    let mut output: i64 = 0;
    let mut i: usize = 0;
    while i < m
        invariant
            bytes@ == input.spec_bytes(),
            n == bytes@.len(),
            1 <= n,
            neg == has_sign(bytes@),
            start == if neg { 1int } else { 0int },
            m == n - start,
            d == digit_slice(bytes@),
            d =~= bytes@.skip(start as int),
            d.len() == m,
            suffixes_fit(d),
            0 <= i <= m,
            forall|k: int| 0 <= k < 19 ==> w@[k] == pow10(k as nat),
            all_digits(d.skip(m - i)),
            output as int == weighted_value(d.skip(m - i)),
            0 <= output,
        decreases m - i,
    {
        let c = bytes[n - 1 - i];
        if c < 48 || c > 57 {
            proof {
                assert(d[m - 1 - i] == bytes@[n - 1 - i]);
                assert(!is_ascii_digit(d[m - 1 - i]));
            }
            return None;
        }
        proof {
            let t = d.skip(m - i);
            let t1 = d.skip(m - i - 1);
            assert(t1.skip(1) =~= t);
            assert(t1[0] == d[m - 1 - i]);
            assert forall|j: int| 0 <= j < t1.len() implies is_ascii_digit(#[trigger] t1[j]) by {
                if j == 0 {
                    assert(t1[0] == bytes@[n - 1 - i]);
                } else {
                    assert(t1[j] == t[j - 1]);
                }
            }
            assert(all_digits(t1));
            assert(d.len() - (i + 1) == m - i - 1);
            assert(t1.len() == i + 1);
            assert(weighted_value(t1) == digit_value(t1[0]) * pow10(i as nat) + weighted_value(t));
            lemma_values_agree(t1);
            assert(digits_value(t1) <= i64::MAX);
            lemma_weighted_nonneg(t1);
        }
        output = output + (c - 48) as i64 * w[i];
        i += 1;
    }
    proof {
        assert(d.skip(0) =~= d);
        lemma_weighted_nonneg(d);
    }
    let output = if neg {
        -output
    } else {
        output
    };
    Some(output)
}

/// Why a checked parse rejected its input before scanning it, or while
/// scanning it.
#[derive(Clone, Copy, Debug, PartialEq, Eq)]
pub enum ParseError {
    /// The input held no bytes at all.
    EmptyInput,
    /// The digit slice was longer than 18 digits.  Every run of at most 18
    /// digits fits in an `i64`; some runs of 19 do not, so the checked
    /// parsers stop at the count that can never overflow.
    TooManyDigits,
    /// A byte of the digit slice was not an ASCII decimal digit.
    InvalidDigit,
}

/// Whether the checked parsers accept the shape of this byte run: non-empty,
/// with a digit slice short enough that no value it can denote overflows.
pub open spec fn checked_domain(s: Seq<u8>) -> bool {
    s.len() >= 1 && digit_slice(s).len() <= 18
}

/// Within the checked domain every all-digit prefix and suffix of the digit
/// slice denotes less than ten to the eighteenth, so both parsers' domain
/// bounds hold.
proof fn lemma_checked_domain_fits(d: Seq<u8>)
    requires
        d.len() <= 18,
    ensures
        prefixes_fit(d),
        suffixes_fit(d),
{
    assert(pow10(18) == 1000000000000000000) by {
        reveal_with_fuel(pow10, 20);
    }
    assert forall|i: int|
        0 <= i <= d.len() && all_digits(#[trigger] d.take(i)) implies digits_value(d.take(i))
        <= i64::MAX by {
        lemma_digits_value_lt_pow10(d.take(i));
        lemma_pow10_mono(d.take(i).len() as nat, 18);
    }
    assert forall|i: int|
        0 <= i <= d.len() && all_digits(#[trigger] d.skip(d.len() - i)) implies i <= 19
        && digits_value(d.skip(d.len() - i)) <= i64::MAX by {
        lemma_digits_value_lt_pow10(d.skip(d.len() - i));
        lemma_pow10_mono(d.skip(d.len() - i).len() as nat, 18);
    }
}

/// The sequential parser behind explicit domain checks: empty input and an
/// overlong digit slice come back as reported errors instead of being ruled
/// out by contract, so every input has a defined answer.
pub fn atoi1_checked(input: &str) -> (r: Result<i64, ParseError>)
    ensures
        match r {
            Ok(v) => checked_domain(input.spec_bytes()) && parse_ok(input.spec_bytes()) && v as int
                == parsed_value(input.spec_bytes()),
            Err(e) => match e {
                ParseError::EmptyInput => input.spec_bytes().len() == 0,
                ParseError::TooManyDigits => input.spec_bytes().len() >= 1 && digit_slice(
                    input.spec_bytes(),
                ).len() > 18,
                ParseError::InvalidDigit => checked_domain(input.spec_bytes()) && !parse_ok(
                    input.spec_bytes(),
                ),
            },
        },
{
    let bytes = input.as_bytes();
    let n = bytes.len();
    if n == 0 {
        return Err(ParseError::EmptyInput);
    }
    let neg = bytes[0] == 45;
    let start: usize = if neg {
        1
    } else {
        0
    };
    let ghost d = digit_slice(input.spec_bytes());
    proof {
        assert(d =~= bytes@.skip(start as int));
    }
    if n - start > 18 {
        return Err(ParseError::TooManyDigits);
    }
    proof {
        lemma_checked_domain_fits(d);
    }
    match atoi1(input) {
        Some(v) => Ok(v),
        None => Err(ParseError::InvalidDigit),
    }
}

/// The positional-weight parser behind the same explicit domain checks as
/// `atoi1_checked`.
pub fn atoi2_checked(input: &str) -> (r: Result<i64, ParseError>)
    ensures
        match r {
            Ok(v) => checked_domain(input.spec_bytes()) && parse_ok(input.spec_bytes()) && v as int
                == parsed_value_positional(input.spec_bytes()),
            Err(e) => match e {
                ParseError::EmptyInput => input.spec_bytes().len() == 0,
                ParseError::TooManyDigits => input.spec_bytes().len() >= 1 && digit_slice(
                    input.spec_bytes(),
                ).len() > 18,
                ParseError::InvalidDigit => checked_domain(input.spec_bytes()) && !parse_ok(
                    input.spec_bytes(),
                ),
            },
        },
{
    let bytes = input.as_bytes();
    let n = bytes.len();
    if n == 0 {
        return Err(ParseError::EmptyInput);
    }
    let neg = bytes[0] == 45;
    let start: usize = if neg {
        1
    } else {
        0
    };
    let ghost d = digit_slice(input.spec_bytes());
    proof {
        assert(d =~= bytes@.skip(start as int));
    }
    if n - start > 18 {
        return Err(ParseError::TooManyDigits);
    }
    proof {
        lemma_checked_domain_fits(d);
    }
    match atoi2(input) {
        Some(v) => Ok(v),
        None => Err(ParseError::InvalidDigit),
    }
}

} // verus!
