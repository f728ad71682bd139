use atoi::{atoi1, atoi1_checked, atoi2, atoi2_checked, pow10_table, ParseError};

#[test]
fn parses_simple_literals() {
    assert_eq!(atoi1("0"), Some(0));
    assert_eq!(atoi1("7"), Some(7));
    assert_eq!(atoi1("12345"), Some(12345));
    assert_eq!(atoi1("007"), Some(7));
    assert_eq!(atoi2("0"), Some(0));
    assert_eq!(atoi2("7"), Some(7));
    assert_eq!(atoi2("12345"), Some(12345));
    assert_eq!(atoi2("007"), Some(7));
}

#[test]
fn parses_negative_literals() {
    assert_eq!(atoi1("-1"), Some(-1));
    assert_eq!(atoi1("-98765"), Some(-98765));
    assert_eq!(atoi2("-1"), Some(-1));
    assert_eq!(atoi2("-98765"), Some(-98765));
}

#[test]
fn negative_zero_normalizes_to_zero() {
    assert_eq!(atoi1("-0"), Some(0));
    assert_eq!(atoi2("-0"), Some(0));
    assert_eq!(atoi1("-000"), Some(0));
    assert_eq!(atoi2("-000"), Some(0));
    assert_eq!(atoi1_checked("-0"), Ok(0));
    assert_eq!(atoi2_checked("-0"), Ok(0));
}

#[test]
fn fails_fast_on_invalid_character() {
    assert_eq!(atoi1("12a45"), None);
    assert_eq!(atoi2("12a45"), None);
    assert_eq!(atoi1("--5"), None);
    assert_eq!(atoi2("--5"), None);
    assert_eq!(atoi1("+5"), None);
    assert_eq!(atoi2("+5"), None);
    assert_eq!(atoi1("1 2"), None);
    assert_eq!(atoi2("1 2"), None);
    assert_eq!(atoi1_checked("12a45"), Err(ParseError::InvalidDigit));
    assert_eq!(atoi2_checked("12a45"), Err(ParseError::InvalidDigit));
    assert_eq!(atoi1_checked("--5"), Err(ParseError::InvalidDigit));
    assert_eq!(atoi2_checked("--5"), Err(ParseError::InvalidDigit));
}

#[test]
fn parses_reference_literal() {
    assert_eq!(atoi1("-1234567899876543210"), Some(-1234567899876543210));
    assert_eq!(atoi2("-1234567899876543210"), Some(-1234567899876543210));
}

#[test]
fn boundary_digit_counts() {
    // 19 digits, ten to the eighteenth: in both parsers' domains.
    assert_eq!(atoi1("1000000000000000000"), Some(1_000_000_000_000_000_000));
    assert_eq!(atoi2("1000000000000000000"), Some(1_000_000_000_000_000_000));
    // A 20-digit run is outside the supported domain: the contract-bound
    // parsers exclude it by precondition rather than wrapping around, and
    // the checked parsers report it.  This is an accepted limitation.
    assert_eq!(
        atoi1_checked("99999999999999999999"),
        Err(ParseError::TooManyDigits)
    );
    assert_eq!(
        atoi2_checked("99999999999999999999"),
        Err(ParseError::TooManyDigits)
    );
}

#[test]
fn empty_input_is_a_reported_error() {
    // The contract-bound parsers exclude empty input by precondition; the
    // checked parsers turn that precondition into a defined error value.
    assert_eq!(atoi1_checked(""), Err(ParseError::EmptyInput));
    assert_eq!(atoi2_checked(""), Err(ParseError::EmptyInput));
}

#[test]
fn lone_minus_sign_parses_as_zero() {
    // An empty digit run after the sign accumulates to zero in both scans.
    assert_eq!(atoi1("-"), Some(0));
    assert_eq!(atoi2("-"), Some(0));
}

#[test]
fn variants_agree_on_samples() {
    let samples = [
        "0",
        "-0",
        "1",
        "-1",
        "42",
        "12345",
        "-12345",
        "1000000000000000000",
        "-1234567899876543210",
        "12a45",
        "--5",
        "-",
        "abc",
        "9223372036854775807",
        "-9223372036854775807",
    ];
    for s in samples {
        assert_eq!(atoi1(s), atoi2(s), "variants disagree on {s:?}");
    }
}

#[test]
fn round_trips_decimal_strings() {
    // i64::MIN is excluded: its magnitude does not fit in an i64, so its
    // literal lies outside the verified domain.
    let values: [i64; 10] = [
        0,
        1,
        -1,
        42,
        -99,
        1_000_000_000_000_000_000,
        -1_000_000_000_000_000_000,
        i64::MAX,
        -i64::MAX,
        -1234567899876543210,
    ];
    for v in values {
        let s = format!("{v}");
        assert_eq!(atoi1(&s), Some(v));
        assert_eq!(atoi2(&s), Some(v));
    }
}

#[test]
fn checked_parses_within_its_domain() {
    assert_eq!(atoi1_checked("123456789012345678"), Ok(123456789012345678));
    assert_eq!(atoi2_checked("123456789012345678"), Ok(123456789012345678));
    assert_eq!(
        atoi1_checked("-123456789012345678"),
        Ok(-123456789012345678)
    );
    assert_eq!(
        atoi2_checked("-123456789012345678"),
        Ok(-123456789012345678)
    );
    // The checked domain stops at 18 digits, the count that can never
    // overflow, so a fitting 19-digit literal is still reported.
    assert_eq!(
        atoi1_checked("1234567890123456789"),
        Err(ParseError::TooManyDigits)
    );
    assert_eq!(
        atoi2_checked("1234567890123456789"),
        Err(ParseError::TooManyDigits)
    );
}

#[test]
fn weight_table_holds_powers_of_ten() {
    let t = pow10_table();
    assert_eq!(t.len(), 19);
    assert_eq!(t[0], 1);
    assert_eq!(t[1], 10);
    assert_eq!(t[2], 100);
    assert_eq!(t[18], 1_000_000_000_000_000_000);
}
