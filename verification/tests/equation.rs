use rust_quadratic_solver::decimal::ParseError;
use rust_quadratic_solver::equation::{read_equation, read_error_message};
use rust_quadratic_solver::quadratic::{solve_quadratic, QuadraticRoots, SolveError};

#[test]
fn whole_numbers_are_read_as_they_are() {
    assert_eq!(read_equation("1", "-7", "10"), Ok((1, -7, 10)));
    assert_eq!(read_equation("+2", "5", "-3"), Ok((2, 5, -3)));
    assert_eq!(read_equation("0", "-0", "+0"), Ok((0, 0, 0)));
    assert_eq!(read_equation("007", "0", "000"), Ok((7, 0, 0)));
}

#[test]
fn decimals_are_read_in_one_unit() {
    assert_eq!(read_equation("1", "-0.5", "0.125"), Ok((1000, -500, 125)));
    assert_eq!(read_equation("0.1", "0.1", "0.1"), Ok((1, 1, 1)));
    assert_eq!(read_equation("1.0", "2", "3"), Ok((10, 20, 30)));
    assert_eq!(
        read_equation("0.12345678", "1", "-2.71828"),
        Ok((12_345_678, 100_000_000, -271_828_000))
    );
    assert_eq!(read_equation(".5", "5.", "-.25"), Ok((50, 500, -25)));
    assert_eq!(read_equation("1.", "1", "1"), Ok((1, 1, 1)));
    assert_eq!(read_equation("0.0000000000000000000000001", "0", "0.0"), Ok((1, 0, 0)));
}

#[test]
fn what_writes_no_number_is_refused() {
    for text in [
        "", ".", "-", "+", "-.", "abc", "1e3", "1a", "1..2", "1.2.3", "--1", "1-", " 1", "1 ",
        "inf", "NaN", "1,5", "é", "１",
    ] {
        assert_eq!(read_equation(text, "1", "1"), Err(ParseError::Malformed), "{:?}", text);
        assert_eq!(read_equation("1", text, "1"), Err(ParseError::Malformed), "{:?}", text);
        assert_eq!(read_equation("1", "1", text), Err(ParseError::Malformed), "{:?}", text);
    }
    assert_eq!(
        read_equation("1000000000000000000", "x", "1"),
        Err(ParseError::Malformed)
    );
}

#[test]
fn numbers_of_more_than_eighteen_digits_are_refused() {
    assert_eq!(
        read_equation("999999999999999999", "-999999999999999999", "0"),
        Ok((999_999_999_999_999_999, -999_999_999_999_999_999, 0))
    );
    assert_eq!(read_equation("1000000000000000000", "1", "1"), Err(ParseError::OutOfRange));
    assert_eq!(read_equation("1", "-1000000000000000000", "1"), Err(ParseError::OutOfRange));
    assert_eq!(read_equation("1", "1", "0.000000000000000001"), Err(ParseError::OutOfRange));
    assert_eq!(read_equation("0.1", "1", "100000000000000000"), Err(ParseError::OutOfRange));
    assert_eq!(
        read_equation("99999999999999999999999999999999999999", "0", "0"),
        Err(ParseError::OutOfRange)
    );
    assert_eq!(read_equation("0.99999999999999999999", "0", "0"), Err(ParseError::OutOfRange));
}

#[test]
fn an_equation_is_read_and_solved() {
    let (a, b, c) = read_equation("0.5", "-3.5", "5").unwrap();
    assert_eq!((a, b, c), (5, -35, 50));
    match solve_quadratic(a, b, c) {
        Ok(QuadraticRoots::Real((first, second))) => {
            assert_eq!((first.round().units, second.round().units), (50_000, 20_000));
        }
        other => panic!("expected real roots, got {:?}", other),
    }
    let (a, b, c) = read_equation("0", "-1", "-6").unwrap();
    assert_eq!(solve_quadratic(a, b, c), Err(SolveError::InvalidCoefficient));
    let (a, b, c) = read_equation("0.0", "1", "1").unwrap();
    assert_eq!(solve_quadratic(a, b, c), Err(SolveError::InvalidCoefficient));
}

#[test]
fn read_error_messages() {
    assert_eq!(read_error_message(&ParseError::Malformed), "ERROR: Parameters must be numbers.");
    assert_eq!(
        read_error_message(&ParseError::OutOfRange),
        "ERROR: Parameters are too large, or differ too much in size."
    );
}
