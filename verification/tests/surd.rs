use rust_quadratic_solver::surd::{isqrt, round_surd};

#[test]
fn integer_square_roots() {
    assert_eq!(isqrt(0), 0);
    assert_eq!(isqrt(1), 1);
    assert_eq!(isqrt(2), 1);
    assert_eq!(isqrt(3), 1);
    assert_eq!(isqrt(4), 2);
    assert_eq!(isqrt(8), 2);
    assert_eq!(isqrt(9), 3);
    assert_eq!(isqrt(99), 9);
    assert_eq!(isqrt(100), 10);
    assert_eq!(isqrt(90_000_000_000_000_000), 300_000_000);
    assert_eq!(isqrt(89_999_999_999_999_999), 299_999_999);
    assert_eq!(isqrt(1_000_000_000_000_000_000_000_000_000_000_000_000), 1_000_000_000_000_000_000);
    assert_eq!(isqrt(u128::MAX), 18_446_744_073_709_551_615);
}

#[test]
fn integer_square_root_is_the_largest_with_a_square_below() {
    for n in 0..2_000u128 {
        let r = isqrt(n);
        assert!(r * r <= n && n < (r + 1) * (r + 1));
    }
}

#[test]
fn rounded_surds() {
    // (7 + √9) / 2 = 5
    assert_eq!(round_surd(7, 9, 1), 5);
    // (7 - √9) / 2 = 2, as -(−7 + √9) / 2
    assert_eq!(-round_surd(-7, 9, 1), 2);
    // (0 + √2) / 2 = 0.707…
    assert_eq!(round_surd(0, 2, 1), 1);
    // (1 + √0) / 2 = 0.5 and (-1 + √0) / 2 = -0.5 go to the even 0
    assert_eq!(round_surd(1, 0, 1), 0);
    assert_eq!(round_surd(-1, 0, 1), 0);
    // ±1.5 and ±2.5 go to the even ±2
    assert_eq!(round_surd(3, 0, 1), 2);
    assert_eq!(round_surd(-3, 0, 1), -2);
    assert_eq!(round_surd(5, 0, 1), 2);
    assert_eq!(round_surd(-5, 0, 1), -2);
    assert_eq!(round_surd(7, 0, 1), 4);
    // (1 + √4) / 2 = 1.5 and (-5 + √4) / 2 = -1.5
    assert_eq!(round_surd(1, 4, 1), 2);
    assert_eq!(round_surd(-5, 4, 1), -2);
    // (1 + √5) / 2 = 1.618… and (0 + √3) / 2 = 0.866… are no ties
    assert_eq!(round_surd(1, 5, 1), 2);
    assert_eq!(round_surd(0, 3, 1), 1);
    // (2 + √1) / 6 = 0.5 and (8 + √1) / 6 = 1.5
    assert_eq!(round_surd(2, 1, 3), 0);
    assert_eq!(round_surd(8, 1, 3), 2);
    // (1 + √0) / 4 = 0.25 and (-1 + √0) / 4 = -0.25
    assert_eq!(round_surd(1, 0, 2), 0);
    assert_eq!(round_surd(-1, 0, 2), 0);
    // (-10 + √8) / 2 = -3.585…
    assert_eq!(round_surd(-10, 8, 1), -4);
    // (-10 + √50) / 2 = -1.464…
    assert_eq!(round_surd(-10, 50, 1), -1);
    // (-3 + √8) / 2 = -0.085…
    assert_eq!(round_surd(-3, 8, 1), 0);
    // (3 + √3) / 6 = 0.788…
    assert_eq!(round_surd(3, 3, 3), 1);
}

#[test]
fn rounded_surd_is_within_a_half() {
    for p in -30i128..30 {
        for n in 0u128..40 {
            for q in 1i128..5 {
                let r = round_surd(p, n, q);
                // |2q·r - p - √n| <= q
                let low = 2 * q * r - p - q;
                let high = 2 * q * r - p + q;
                assert!(low <= 0 || (low * low) as u128 <= n);
                assert!(high >= 0 && (high * high) as u128 >= n);
            }
        }
    }
}
