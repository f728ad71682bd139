//! The numeric model shared by both parser variants: what a run of ASCII
//! digit bytes denotes, read sequentially (Horner's rule) or positionally
//! (each digit times the power of ten of its place), and the facts that tie
//! the two readings together.

use vstd::prelude::*;

verus! {

/// An ASCII decimal digit, `b'0'` through `b'9'`.
pub open spec fn is_ascii_digit(b: u8) -> bool {
    48 <= b && b <= 57
}

/// The numeric value of one ASCII digit byte.
pub open spec fn digit_value(b: u8) -> int
    recommends
        is_ascii_digit(b),
{
    b - 48
}

/// Every byte of `s` is an ASCII decimal digit.
pub open spec fn all_digits(s: Seq<u8>) -> bool {
    forall|i: int| 0 <= i < s.len() ==> is_ascii_digit(#[trigger] s[i])
}

/// The integer a digit run denotes, read most-significant digit first:
/// each step multiplies the value accumulated so far by ten and adds the
/// next digit (Horner's rule).
pub open spec fn digits_value(s: Seq<u8>) -> int
    decreases s.len(),
{
    if s.len() == 0 {
        0
    } else {
        digits_value(s.drop_last()) * 10 + digit_value(s.last())
    }
}

/// Ten to the power `n`.
pub open spec fn pow10(n: nat) -> int
    decreases n,
{
    if n == 0 {
        1
    } else {
        10 * pow10((n - 1) as nat)
    }
}

/// The same integer read as a positional sum: each digit times the power of
/// ten of its place, the rightmost digit having place zero.
pub open spec fn weighted_value(s: Seq<u8>) -> int
    decreases s.len(),
{
    if s.len() == 0 {
        0
    } else {
        digit_value(s[0]) * pow10((s.len() - 1) as nat) + weighted_value(s.skip(1))
    }
}

/// True when the literal opens with the ASCII minus sign.
pub open spec fn has_sign(s: Seq<u8>) -> bool
    recommends
        s.len() >= 1,
{
    s[0] == 45
}

/// The digit slice: the bytes left after the optional leading minus sign.
pub open spec fn digit_slice(s: Seq<u8>) -> Seq<u8>
    recommends
        s.len() >= 1,
{
    if has_sign(s) {
        s.skip(1)
    } else {
        s
    }
}

/// A parse of `s` succeeds exactly when every byte of its digit slice is an
/// ASCII decimal digit.
pub open spec fn parse_ok(s: Seq<u8>) -> bool
    recommends
        s.len() >= 1,
{
    all_digits(digit_slice(s))
}

/// The signed value of the literal under the sequential (Horner) reading.
pub open spec fn parsed_value(s: Seq<u8>) -> int
    recommends
        s.len() >= 1,
{
    if has_sign(s) {
        -digits_value(digit_slice(s))
    } else {
        digits_value(digit_slice(s))
    }
}

/// The signed value of the literal under the positional-weight reading.
pub open spec fn parsed_value_positional(s: Seq<u8>) -> int
    recommends
        s.len() >= 1,
{
    if has_sign(s) {
        -weighted_value(digit_slice(s))
    } else {
        weighted_value(digit_slice(s))
    }
}

/// Every all-digit prefix of `d` denotes a value that fits in an `i64`.
/// The sequential parser's accumulator walks exactly these prefix values,
/// so this is the weakest bound that keeps its arithmetic in range.
pub open spec fn prefixes_fit(d: Seq<u8>) -> bool {
    forall|i: int|
        0 <= i <= d.len() && all_digits(#[trigger] d.take(i)) ==> digits_value(d.take(i))
            <= i64::MAX
}

/// Every all-digit suffix of `d` denotes a value that fits in an `i64` and
/// spans at most the 19 places of the weight table.  The positional parser's
/// accumulator walks exactly these suffix values and indexes the table by
/// place, so this is the weakest bound that keeps it in range.
pub open spec fn suffixes_fit(d: Seq<u8>) -> bool {
    forall|i: int|
        0 <= i <= d.len() && all_digits(#[trigger] d.skip(d.len() - i)) ==> i <= 19
            && digits_value(d.skip(d.len() - i)) <= i64::MAX
}

/// A digit run denotes a nonnegative integer.
pub proof fn lemma_digits_value_nonneg(s: Seq<u8>)
    requires
        all_digits(s),
    ensures
        digits_value(s) >= 0,
    decreases s.len(),
{
    if s.len() > 0 {
        assert(all_digits(s.drop_last()));
        lemma_digits_value_nonneg(s.drop_last());
    }
}

/// Powers of ten are positive.
pub proof fn lemma_pow10_pos(n: nat)
    ensures
        pow10(n) >= 1,
    decreases n,
{
    if n > 0 {
        lemma_pow10_pos((n - 1) as nat);
    }
}

/// Powers of ten grow with the exponent.
pub proof fn lemma_pow10_mono(m: nat, n: nat)
    requires
        m <= n,
    ensures
        pow10(m) <= pow10(n),
    decreases n,
{
    if m < n {
        lemma_pow10_mono(m, (n - 1) as nat);
        lemma_pow10_pos((n - 1) as nat);
    }
}

/// Appending one more digit on the right multiplies the positional reading
/// by ten and adds that digit: the step the sequential reading takes.
proof fn lemma_weighted_push(s: Seq<u8>, b: u8)
    ensures
        weighted_value(s.push(b)) == weighted_value(s) * 10 + digit_value(b),
    decreases s.len(),
{
    if s.len() == 0 {
        assert(s.push(b).skip(1) =~= Seq::<u8>::empty());
        assert(s.push(b)[0] == b);
        assert(weighted_value(s.push(b)) == digit_value(b) * pow10(0) + weighted_value(
            s.push(b).skip(1),
        ));
        assert(pow10(0) == 1);
    } else {
        assert(s.push(b).skip(1) =~= s.skip(1).push(b));
        lemma_weighted_push(s.skip(1), b);
        let a = digit_value(s[0]);
        let p = pow10((s.len() - 1) as nat);
        assert(s.push(b)[0] == s[0]);
        assert(s.push(b).len() == s.len() + 1);
        assert(weighted_value(s.push(b)) == a * pow10(s.len() as nat) + weighted_value(
            s.skip(1).push(b),
        ));
        assert(pow10(s.len() as nat) == 10 * p);
        assert(a * (10 * p) == (a * p) * 10) by (nonlinear_arith);
        assert(weighted_value(s) == a * p + weighted_value(s.skip(1)));
    }
}

/// The sequential (Horner) reading and the positional-weight reading of any
/// byte run denote the same integer.
pub proof fn lemma_values_agree(s: Seq<u8>)
    ensures
        digits_value(s) == weighted_value(s),
    decreases s.len(),
{
    if s.len() > 0 {
        lemma_values_agree(s.drop_last());
        lemma_weighted_push(s.drop_last(), s.last());
        assert(s.drop_last().push(s.last()) =~= s);
    }
}

/// Under the positional reading every digit contributes a nonnegative amount.
pub proof fn lemma_weighted_nonneg(s: Seq<u8>)
    requires
        all_digits(s),
    ensures
        weighted_value(s) >= 0,
    decreases s.len(),
{
    if s.len() > 0 {
        assert(all_digits(s.skip(1)));
        lemma_weighted_nonneg(s.skip(1));
        let a = digit_value(s[0]);
        let p = pow10((s.len() - 1) as nat);
        lemma_pow10_pos((s.len() - 1) as nat);
        assert(a * p >= 0) by (nonlinear_arith)
            requires
                a >= 0,
                p >= 0,
        ;
    }
}

/// A prefix of a digit run never denotes more than the whole run.
pub proof fn lemma_digits_take_le(s: Seq<u8>, i: int)
    requires
        all_digits(s),
        0 <= i <= s.len(),
    ensures
        0 <= digits_value(s.take(i)) <= digits_value(s),
    decreases s.len(),
{
    assert(all_digits(s.take(i)));
    lemma_digits_value_nonneg(s.take(i));
    if i < s.len() {
        assert(all_digits(s.drop_last()));
        assert(s.drop_last().take(i) =~= s.take(i));
        lemma_digits_take_le(s.drop_last(), i);
        lemma_digits_value_nonneg(s.drop_last());
    } else {
        assert(s.take(i) =~= s);
    }
}

/// A suffix of a digit run never denotes more than the whole run.
pub proof fn lemma_digits_skip_le(s: Seq<u8>, i: int)
    requires
        all_digits(s),
        0 <= i <= s.len(),
    ensures
        0 <= digits_value(s.skip(i)) <= digits_value(s),
    decreases i,
{
    assert(all_digits(s.skip(i)));
    lemma_values_agree(s);
    lemma_values_agree(s.skip(i));
    lemma_weighted_nonneg(s.skip(i));
    if i > 0 {
        assert(s.skip(1).skip(i - 1) =~= s.skip(i));
        assert(all_digits(s.skip(1)));
        lemma_digits_skip_le(s.skip(1), i - 1);
        lemma_values_agree(s.skip(1));
        let a = digit_value(s[0]);
        let p = pow10((s.len() - 1) as nat);
        lemma_pow10_pos((s.len() - 1) as nat);
        assert(a * p >= 0) by (nonlinear_arith)
            requires
                a >= 0,
                p >= 0,
        ;
        assert(weighted_value(s) == a * p + weighted_value(s.skip(1)));
        assert(digits_value(s.skip(i)) <= digits_value(s.skip(1)));
    } else {
        assert(s.skip(0) =~= s);
    }
}

/// A digit run of length `n` denotes less than ten to the power `n`.
pub proof fn lemma_digits_value_lt_pow10(s: Seq<u8>)
    requires
        all_digits(s),
    ensures
        0 <= digits_value(s) < pow10(s.len() as nat),
    decreases s.len(),
{
    if s.len() > 0 {
        assert(all_digits(s.drop_last()));
        lemma_digits_value_lt_pow10(s.drop_last());
    }
}

/// Both parser variants denote the same signed value on every non-empty
/// literal: the sequential and the positional reading of the digit slice
/// agree, sign included.
pub proof fn lemma_variants_agree(s: Seq<u8>)
    requires
        s.len() >= 1,
    ensures
        parsed_value(s) == parsed_value_positional(s),
{
    lemma_values_agree(digit_slice(s));
}

/// An all-zero digit run denotes exactly zero.
proof fn lemma_zero_run(d: Seq<u8>)
    requires
        forall|i: int| 0 <= i < d.len() ==> #[trigger] d[i] == 48,
    ensures
        digits_value(d) == 0,
    decreases d.len(),
{
    if d.len() > 0 {
        lemma_zero_run(d.drop_last());
    }
}

/// Sign stripping followed by an all-zero digit run yields exactly zero
/// under either reading: there is no negative-zero artifact.
pub proof fn lemma_all_zero_digits(s: Seq<u8>)
    requires
        s.len() >= 1,
        forall|i: int| 0 <= i < digit_slice(s).len() ==> #[trigger] digit_slice(s)[i] == 48,
    ensures
        parse_ok(s),
        parsed_value(s) == 0,
        parsed_value_positional(s) == 0,
{
    lemma_zero_run(digit_slice(s));
    lemma_values_agree(digit_slice(s));
}

} // verus!
