use rust_quadratic_solver::decimal::{Decimal, ParseError};
use rust_quadratic_solver::quadratic::{solve_quadratic, Complex, QuadraticRoots, Surd};
use rust_quadratic_solver::utils::{
    create_error_message, extension_message, format_record, has_csv_extension,
    is_csv_extension, make_record, parse_record, results_heading, results_record, results_text,
    root_text, success_message, write_error_message, RootKind, RootRecord,
};

/// The number of so many ten-thousandths, as an exact number.
fn exact(units: i64) -> Surd {
    Surd { p: units, plus: true, n: 0, q: 5_000 }
}

fn real_roots(first: i64, second: i64) -> QuadraticRoots {
    QuadraticRoots::Real((exact(first), exact(second)))
}

fn complex_roots(re: i64, im: i64) -> QuadraticRoots {
    QuadraticRoots::NotReal((
        Complex::new(exact(re), exact(im)),
        Complex::new(exact(re), exact(-im)),
    ))
}

fn solved(a: i64, b: i64, c: i64) -> QuadraticRoots {
    solve_quadratic(a, b, c).unwrap()
}

#[test]
fn text_of_real_roots() {
    assert_eq!(results_text(&real_roots(50_000, 20_000)), "Root1: 5.0000\nRoot2: 2.0000");
    assert_eq!(results_text(&real_roots(5_000, -30_000)), "Root1: 0.5000\nRoot2: -3.0000");
    assert_eq!(results_heading(&real_roots(50_000, 20_000)), "Real Quadratic Roots:");
}

#[test]
fn text_of_complex_roots() {
    assert_eq!(
        results_text(&complex_roots(-5_000, 8_660)),
        "Root1: -0.5000 +0.8660i\nRoot2: -0.5000 -0.8660i"
    );
    assert_eq!(
        results_text(&complex_roots(10_000, -20_000)),
        "Root1: 1.0000 +-2.0000i\nRoot2: 1.0000 2.0000i"
    );
    assert_eq!(results_heading(&complex_roots(-5_000, 8_660)), "Complex Quadratic Roots:");
}

#[test]
fn record_of_real_roots() {
    assert_eq!(results_record(&real_roots(50_000, 20_000)), "v1,r,5.0000,2.0000");
    assert_eq!(results_record(&real_roots(30_000, -20_000)), "v1,r,3.0000,-2.0000");
}

#[test]
fn record_of_complex_roots_keeps_the_first_root() {
    assert_eq!(results_record(&complex_roots(-5_000, 8_660)), "v1,c,-0.5000,0.8660");
    assert_eq!(
        make_record(&complex_roots(-5_000, 8_660)),
        RootRecord {
            kind: RootKind::Complex,
            first: Decimal::from_units(-5_000),
            second: Decimal::from_units(8_660)
        }
    );
    assert_eq!(
        make_record(&real_roots(1, 2)),
        RootRecord {
            kind: RootKind::Real,
            first: Decimal::from_units(1),
            second: Decimal::from_units(2)
        }
    );
}

#[test]
fn record_of_solved_equations() {
    let roots = solved(10_000, -70_000, 100_000);
    assert_eq!(results_record(&roots), "v1,r,5.0000,2.0000");
    let roots = solved(10_000, 10_000, 10_000);
    assert_eq!(results_record(&roots), "v1,c,-0.5000,0.8660");
    assert_eq!(results_text(&roots), "Root1: -0.5000 +0.8660i\nRoot2: -0.5000 -0.8660i");
}

#[test]
fn parse_record_reads_records() {
    assert_eq!(
        parse_record("v1,r,5.0000,2.0000"),
        Ok(RootRecord {
            kind: RootKind::Real,
            first: Decimal::from_units(50_000),
            second: Decimal::from_units(20_000)
        })
    );
    assert_eq!(
        parse_record("v1,c,-0.5000,0.8660"),
        Ok(RootRecord {
            kind: RootKind::Complex,
            first: Decimal::from_units(-5_000),
            second: Decimal::from_units(8_660)
        })
    );
    assert_eq!(
        parse_record("v1,r,1,-2.5"),
        Ok(RootRecord {
            kind: RootKind::Real,
            first: Decimal::from_units(10_000),
            second: Decimal::from_units(-25_000)
        })
    );
}

#[test]
fn parse_record_refuses_other_lines() {
    for line in [
        "",
        "v1",
        "v1,r",
        "v1,r,",
        "v1,r,1",
        "v1,r,1,",
        "v1,r,,1",
        "v1,r,1,2,3",
        "v2,r,1,2",
        "V1,r,1,2",
        "v1,x,1,2",
        "v1,R,1,2",
        "v1;r;1;2",
        "v1,r,1,2\n",
        " v1,r,1,2",
        "v1,r,1.00000,2",
        "v1,r,a,2",
        "v1,r,1,b",
        "v1,r,é,2",
        "v1,r,1,２",
        "v1,r,1000000000000000000,x",
        "v1,r,x,1000000000000000000",
    ] {
        assert_eq!(parse_record(line), Err(ParseError::Malformed), "{:?}", line);
    }
}

#[test]
fn parse_record_refuses_numbers_too_large() {
    assert_eq!(parse_record("v1,r,1000000000000000000,2"), Err(ParseError::OutOfRange));
    assert_eq!(parse_record("v1,c,1,922337203685477.5808"), Err(ParseError::OutOfRange));
    assert_eq!(
        parse_record("v1,c,1000000000000000000,1000000000000000000"),
        Err(ParseError::OutOfRange)
    );
}

#[test]
fn reading_a_record_gives_it_back() {
    for roots in [
        real_roots(50_000, 20_000),
        real_roots(-27_656, 12_656),
        real_roots(0, 0),
        real_roots(100_000_000_000_000, -100_000_000_000_000),
        solved(10_000, 0, -20_000),
        solved(1_000_000_000, 0, 1),
        solved(-1_000_000_000, 0, -1),
        solved(320_000, -10_000, 0),
        complex_roots(-5_000, 8_660),
        complex_roots(10_000, -20_000),
        complex_roots(0, 100_000_000_000),
    ] {
        let record = make_record(&roots);
        assert_eq!(parse_record(&results_record(&roots)), Ok(record));
        assert_eq!(parse_record(&format_record(&record)), Ok(record));
    }
}

#[test]
fn numbers_are_rounded_where_they_are_written() {
    // √2 = 1.41421356…
    let root = Surd { p: 0, plus: true, n: 800_000_000, q: 10_000 };
    assert_eq!(root_text(&root), "1.4142");
    assert_eq!(root_text(&Surd { plus: false, ..root }), "-1.4142");
    // (3 + √65) / -4 = -2.76556…
    assert_eq!(root_text(&Surd { p: 3, plus: true, n: 65, q: -2 }), "-2.7656");
    // 1 / 3 and 2 / 3
    assert_eq!(root_text(&Surd { p: 2, plus: true, n: 0, q: 3 }), "0.3333");
    assert_eq!(root_text(&Surd { p: 4, plus: true, n: 0, q: 3 }), "0.6667");
    assert_eq!(results_text(&solved(10_000, 0, -20_000)), "Root1: 1.4142\nRoot2: -1.4142");
    assert_eq!(results_record(&solved(10_000, 0, -20_000)), "v1,r,1.4142,-1.4142");
}

#[test]
fn a_number_halfway_between_two_goes_to_the_even_digit() {
    // 32x² - x has the roots 0.03125 and 0
    assert_eq!(results_text(&solved(320_000, -10_000, 0)), "Root1: 0.0312\nRoot2: 0.0000");
    // 32x² + x has the roots 0 and -0.03125
    assert_eq!(results_text(&solved(320_000, 10_000, 0)), "Root1: 0.0000\nRoot2: -0.0312");
    assert_eq!(results_record(&solved(320_000, 10_000, 0)), "v1,r,0.0000,-0.0312");
    // 0.00005, 0.00015, 0.00025 and 0.00035
    assert_eq!(root_text(&Surd { p: 1, plus: true, n: 0, q: 10_000 }), "0.0000");
    assert_eq!(root_text(&Surd { p: 3, plus: true, n: 0, q: 10_000 }), "0.0002");
    assert_eq!(root_text(&Surd { p: 5, plus: true, n: 0, q: 10_000 }), "0.0002");
    assert_eq!(root_text(&Surd { p: 7, plus: true, n: 0, q: 10_000 }), "0.0004");
    assert_eq!(root_text(&Surd { p: -3, plus: true, n: 0, q: 10_000 }), "-0.0002");
    assert_eq!(root_text(&Surd { p: 3, plus: false, n: 0, q: -10_000 }), "-0.0002");
    assert_eq!(root_text(&Surd { p: -1, plus: true, n: 0, q: 10_000 }), "-0.0000");
}

#[test]
fn a_number_below_zero_keeps_its_sign_when_it_rounds_to_zero() {
    // 100000x² + 0.0001 has the roots ±0.0000316…i
    let roots = solved(1_000_000_000, 0, 1);
    assert_eq!(results_text(&roots), "Root1: 0.0000 +0.0000i\nRoot2: 0.0000 -0.0000i");
    assert_eq!(results_record(&roots), "v1,c,0.0000,0.0000");
    let roots = solved(-1_000_000_000, 0, -1);
    assert_eq!(results_text(&roots), "Root1: 0.0000 +-0.0000i\nRoot2: 0.0000 0.0000i");
    assert_eq!(results_record(&roots), "v1,c,0.0000,-0.0000");
    assert_eq!(
        parse_record("v1,c,0.0000,-0.0000"),
        Ok(RootRecord {
            kind: RootKind::Complex,
            first: Decimal::from_units(0),
            second: Decimal::from_units(0)
        })
    );
    assert_eq!(root_text(&Surd { p: -1, plus: true, n: 0, q: 100_000 }), "-0.0000");
    assert_eq!(root_text(&Surd { p: 0, plus: true, n: 0, q: -7 }), "0.0000");
}

#[test]
fn csv_is_the_only_extension() {
    assert!(is_csv_extension("csv"));
    for extension in ["", "c", "cs", "csvx", "CSV", "Csv", "txt", "cs v", ".csv", "ćsv", "csν"] {
        assert!(!is_csv_extension(extension), "{:?}", extension);
        assert!(!has_csv_extension(Some(extension)), "{:?}", extension);
    }
    assert!(has_csv_extension(Some("csv")));
    assert!(!has_csv_extension(None));
}

#[test]
fn file_messages() {
    assert_eq!(extension_message(), "\nERROR: File extension must be .csv");
    assert_eq!(
        create_error_message("out/roots.csv", "No such file or directory"),
        "ERROR: Could not create file: out/roots.csv due to: No such file or directory"
    );
    assert_eq!(success_message("roots.csv"), "\n\nSuccessfully wrote results to: roots.csv");
    assert_eq!(
        write_error_message("roots.csv", "disk full"),
        "ERROR: Could not write to file: roots.csv due to: disk full"
    );
}
