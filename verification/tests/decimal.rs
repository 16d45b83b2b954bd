use rust_quadratic_solver::decimal::{write_signed, Decimal, ParseError, SCALE};

#[test]
fn scale_is_ten_thousand() {
    assert_eq!(SCALE, 10_000);
    assert_eq!(Decimal::from_units(25_000).units, 25_000);
}

#[test]
fn text_has_four_fractional_digits() {
    assert_eq!(Decimal::from_units(0).to_text(), "0.0000");
    assert_eq!(Decimal::from_units(1).to_text(), "0.0001");
    assert_eq!(Decimal::from_units(-1).to_text(), "-0.0001");
    assert_eq!(Decimal::from_units(50_000).to_text(), "5.0000");
    assert_eq!(Decimal::from_units(-5_000).to_text(), "-0.5000");
    assert_eq!(Decimal::from_units(8_660).to_text(), "0.8660");
    assert_eq!(Decimal::from_units(-27_656).to_text(), "-2.7656");
    assert_eq!(Decimal::from_units(1_234_567_890).to_text(), "123456.7890");
    assert_eq!(Decimal::from_units(100_700).to_text(), "10.0700");
}

#[test]
fn signed_text() {
    assert_eq!(write_signed(false, 0), "0.0000");
    assert_eq!(write_signed(true, 0), "-0.0000");
    assert_eq!(write_signed(true, 5_000), "-0.5000");
    assert_eq!(write_signed(false, u64::MAX), "1844674407370955.1615");
    assert_eq!(Decimal::parse("-0.0000"), Ok(Decimal::from_units(0)));
}

#[test]
fn text_of_the_extremes() {
    assert_eq!(Decimal::from_units(i64::MAX).to_text(), "922337203685477.5807");
    assert_eq!(Decimal::from_units(i64::MIN).to_text(), "-922337203685477.5808");
}

#[test]
fn parse_reads_decimal_literals() {
    assert_eq!(Decimal::parse("0"), Ok(Decimal::from_units(0)));
    assert_eq!(Decimal::parse("1"), Ok(Decimal::from_units(10_000)));
    assert_eq!(Decimal::parse("-7"), Ok(Decimal::from_units(-70_000)));
    assert_eq!(Decimal::parse("+2.5"), Ok(Decimal::from_units(25_000)));
    assert_eq!(Decimal::parse("2.50"), Ok(Decimal::from_units(25_000)));
    assert_eq!(Decimal::parse("2.05"), Ok(Decimal::from_units(20_500)));
    assert_eq!(Decimal::parse("0.0001"), Ok(Decimal::from_units(1)));
    assert_eq!(Decimal::parse("-0.0001"), Ok(Decimal::from_units(-1)));
    assert_eq!(Decimal::parse("-0"), Ok(Decimal::from_units(0)));
    assert_eq!(Decimal::parse("12.345"), Ok(Decimal::from_units(123_450)));
    assert_eq!(Decimal::parse("0012.3456"), Ok(Decimal::from_units(123_456)));
    assert_eq!(
        Decimal::parse("00000000000000000000000000000000000001"),
        Ok(Decimal::from_units(10_000))
    );
}

#[test]
fn parse_refuses_what_is_no_literal() {
    for text in [
        "", "-", "+", ".", "abc", "1a", "a1", ".5", "5.", "-.5", "1..2", "1.2.3", "1.23456",
        "--1", "+-1", "1-", " 1", "1 ", "1e3", "inf", "NaN", "1,5", "１", "1.２", "é",
        "99999999999999999999999999x", "1.2345.",
    ] {
        assert_eq!(Decimal::parse(text), Err(ParseError::Malformed), "{:?}", text);
    }
}

#[test]
fn parse_refuses_what_is_too_large() {
    assert_eq!(Decimal::parse("922337203685477.5807"), Ok(Decimal::from_units(i64::MAX)));
    assert_eq!(Decimal::parse("922337203685477.5808"), Err(ParseError::OutOfRange));
    assert_eq!(Decimal::parse("-922337203685477.5808"), Ok(Decimal::from_units(i64::MIN)));
    assert_eq!(Decimal::parse("-922337203685477.5809"), Err(ParseError::OutOfRange));
    assert_eq!(Decimal::parse("922337203685478"), Err(ParseError::OutOfRange));
    assert_eq!(Decimal::parse("1000000000000000000"), Err(ParseError::OutOfRange));
    assert_eq!(
        Decimal::parse("99999999999999999999999999999999999999999999.9"),
        Err(ParseError::OutOfRange)
    );
    assert_eq!(Decimal::parse("-18446744073709551616"), Err(ParseError::OutOfRange));
}

#[test]
fn parse_inverts_text() {
    for units in [
        0,
        1,
        -1,
        9,
        10,
        9_999,
        10_000,
        -10_000,
        50_000,
        -27_656,
        123_456_789,
        i64::MAX,
        i64::MIN,
        i64::MIN + 1,
    ] {
        let d = Decimal::from_units(units);
        assert_eq!(Decimal::parse(&d.to_text()), Ok(d));
    }
}

#[test]
fn parse_error_messages() {
    assert_eq!(
        ParseError::Malformed.message(),
        "ERROR: Expected a number with at most four fractional digits."
    );
    assert_eq!(ParseError::OutOfRange.message(), "ERROR: The number is too large.");
}
