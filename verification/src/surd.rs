//! Integer square roots, and rounding a quadratic surd `(p + √n) / (2q)` to
//! the nearest integer without ever leaving integer arithmetic.

use vstd::prelude::*;
use vstd::arithmetic::div_mod::{lemma_fundamental_div_mod, lemma_mod_bound};

verus! {

/// `r` is the integer square root of `n`: the largest integer whose square
/// does not exceed `n`.
pub open spec fn is_sqrt_floor(n: int, r: int) -> bool {
    0 <= r && r * r <= n < (r + 1) * (r + 1)
}

/// The integer square root `⌊√n⌋`.
pub open spec fn sqrt_floor(n: nat) -> nat
    decreases n,
{
    if n == 0 {
        0
    } else {
        let below = sqrt_floor((n - 1) as nat);
        if (below + 1) * (below + 1) <= n {
            below + 1
        } else {
            below
        }
    }
}

/// The least integer that is not below the square root, `⌈√n⌉`.
pub open spec fn sqrt_ceil(n: nat) -> nat {
    let r = sqrt_floor(n);
    if r * r == n {
        r
    } else {
        r + 1
    }
}

/// `x ≤ √n` for an integer `x` and the real square root of `n ≥ 0`.
pub open spec fn at_most_sqrt(x: int, n: int) -> bool {
    x <= 0 || x * x <= n
}

/// `x ≥ √n` for an integer `x` and the real square root of `n ≥ 0`.
pub open spec fn at_least_sqrt(x: int, n: int) -> bool {
    x >= 0 && x * x >= n
}

/// Whether `n` is the square of an integer.
pub open spec fn is_square(n: nat) -> bool {
    sqrt_floor(n) * sqrt_floor(n) == n
}

/// The integer nearest to `y / (2q)` for `q > 0` and a `y ≥ 0` of which `x`
/// is the whole part, `whole` saying that `y` is `x`. Where `y / (2q)` lies
/// exactly halfway between two integers, which takes a whole `y`, the even
/// one of the two is nearest.
pub open spec fn half_to_even(x: int, whole: bool, q: int) -> int {
    let up = (x + q) / (2 * q);
    if whole && (x + q) % (2 * q) == 0 && up % 2 == 1 {
        up - 1
    } else {
        up
    }
}

/// The integer nearest to `(p + √n) / (2q)` for `q > 0`, where a value that
/// lies exactly halfway between two integers goes to the even one.
pub open spec fn nearest_to_surd(p: int, n: nat, q: int) -> int {
    if p + sqrt_floor(n) >= 0 {
        half_to_even(p + sqrt_floor(n), is_square(n), q)
    } else {
        -half_to_even(-p - sqrt_ceil(n), is_square(n), q)
    }
}

/// Squaring keeps the order of non-negative integers.
pub proof fn lemma_square_monotonic(x: int, y: int)
    requires
        0 <= x <= y,
    ensures
        x * x <= y * y,
{
    assert(x * x <= y * y) by (nonlinear_arith)
        requires
            0 <= x <= y,
    ;
}

/// `sqrt_floor(n)` is the integer square root of `n`.
pub proof fn lemma_sqrt_floor(n: nat)
    ensures
        is_sqrt_floor(n as int, sqrt_floor(n) as int),
    decreases n,
{
    if n > 0 {
        let below = sqrt_floor((n - 1) as nat) as int;
        lemma_sqrt_floor((n - 1) as nat);
        assert((below + 2) * (below + 2) > (below + 1) * (below + 1)) by (nonlinear_arith)
            requires
                below >= 0,
        ;
    }
}

/// A number has only one integer square root.
pub proof fn lemma_sqrt_floor_unique(n: int, r1: int, r2: int)
    requires
        is_sqrt_floor(n, r1),
        is_sqrt_floor(n, r2),
    ensures
        r1 == r2,
{
    if r1 < r2 {
        lemma_square_monotonic(r1 + 1, r2);
    } else if r2 < r1 {
        lemma_square_monotonic(r2 + 1, r1);
    }
}

/// `sqrt_ceil(n)` is at least the square root of `n` and exceeds
/// `sqrt_floor(n)` by at most one.
pub proof fn lemma_sqrt_ceil(n: nat)
    ensures
        at_least_sqrt(sqrt_ceil(n) as int, n as int),
        sqrt_floor(n) <= sqrt_ceil(n) <= sqrt_floor(n) + 1,
        sqrt_ceil(n) > sqrt_floor(n) ==> sqrt_floor(n) * sqrt_floor(n) < n,
{
    lemma_sqrt_floor(n);
}

/// The rounded surd is nearest: with `r = nearest_to_surd(p, n, q)`, the
/// distance between `2q·r − p` and `√n` is at most `q`, which is to say that
/// `r` differs from `(p + √n) / (2q)` by at most one half.
pub proof fn lemma_nearest_to_surd(p: int, n: nat, q: int)
    requires
        q > 0,
    ensures
        at_most_sqrt(2 * q * nearest_to_surd(p, n, q) - p - q, n as int),
        at_least_sqrt(2 * q * nearest_to_surd(p, n, q) - p + q, n as int),
{
    let f = sqrt_floor(n) as int;
    let c = sqrt_ceil(n) as int;
    let r = nearest_to_surd(p, n, q);
    lemma_sqrt_floor(n);
    lemma_sqrt_ceil(n);
    if p + f >= 0 {
        let x = p + f + q;
        let up = x / (2 * q);
        lemma_fundamental_div_mod(x, 2 * q);
        lemma_mod_bound(x, 2 * q);
        if r == up {
            assert((2 * q) * (x / (2 * q)) == 2 * q * r) by (nonlinear_arith)
                requires
                    r == x / (2 * q),
            ;
            let e = 2 * q * r - p;
            // e - q <= f and f + 1 <= e + q
            if e - q > 0 {
                lemma_square_monotonic(e - q, f);
            }
            lemma_square_monotonic(f + 1, e + q);
        } else {
            // halfway: 2q·up = p + f + q with f² = n, and r = up - 1
            assert((2 * q) * (x / (2 * q)) == 2 * q * r + 2 * q) by (nonlinear_arith)
                requires
                    r == x / (2 * q) - 1,
            ;
            let e = 2 * q * r - p;
            assert(e + q == f);
            if e - q > 0 {
                lemma_square_monotonic(e - q, f);
            }
        }
    } else {
        let x = q - p - c;
        let up = x / (2 * q);
        lemma_fundamental_div_mod(x, 2 * q);
        lemma_mod_bound(x, 2 * q);
        if r == -up {
            assert((2 * q) * (x / (2 * q)) == -(2 * q * r)) by (nonlinear_arith)
                requires
                    r == -(x / (2 * q)),
            ;
            let e = 2 * q * r - p;
            // c <= e + q and e - q <= c - 1 <= f
            lemma_square_monotonic(c, e + q);
            if e - q > 0 {
                lemma_square_monotonic(e - q, f);
            }
        } else {
            // halfway: 2q·up = q - p - c with c² = n, and r = -(up - 1)
            assert((2 * q) * (x / (2 * q)) == -(2 * q * r) + 2 * q) by (nonlinear_arith)
                requires
                    r == -(x / (2 * q) - 1),
            ;
            let e = 2 * q * r - p;
            assert(e - q == c);
            lemma_square_monotonic(c, e + q);
        }
    }
}

/// A number that is at most `m²` has no square root above `m`.
pub proof fn lemma_sqrt_ceil_bound(n: nat, m: int)
    requires
        m >= 0,
        n <= m * m,
    ensures
        sqrt_ceil(n) <= m,
{
    let f = sqrt_floor(n) as int;
    lemma_sqrt_floor(n);
    if f >= m {
        lemma_square_monotonic(m, f);
        if f > m {
            lemma_square_monotonic(m + 1, f);
            assert((m + 1) * (m + 1) > m * m) by (nonlinear_arith)
                requires
                    m >= 0,
            ;
        }
    }
}

/// The rounded surd is no larger in magnitude than a common bound on `|p|`
/// and on the square root.
pub proof fn lemma_nearest_to_surd_bound(p: int, n: nat, q: int, m: int)
    requires
        q > 0,
        -m <= p <= m,
        sqrt_ceil(n) <= m,
    ensures
        -m <= nearest_to_surd(p, n, q) <= m,
{
    let f = sqrt_floor(n) as int;
    let c = sqrt_ceil(n) as int;
    lemma_sqrt_ceil(n);
    let x = if p + f >= 0 {
        p + f + q
    } else {
        q - p - c
    };
    let k = x / (2 * q);
    lemma_fundamental_div_mod(x, 2 * q);
    lemma_mod_bound(x, 2 * q);
    assert(0 <= k <= m) by (nonlinear_arith)
        requires
            q > 0,
            m >= 0,
            0 <= x <= 2 * m + q,
            x == (2 * q) * k + x % (2 * q),
            0 <= x % (2 * q) < 2 * q,
    ;
    assert(k % 2 == 1 ==> k >= 1);
}

/// The sign of the rounded surd is that of the surd: `p + √n` is negative
/// where `p < 0` and `p² > n`, and positive where `p > 0` or `p² < n`.
pub proof fn lemma_nearest_to_surd_sign(p: int, n: nat, q: int)
    requires
        q > 0,
    ensures
        p < 0 && p * p > n ==> nearest_to_surd(p, n, q) <= 0,
        !(p < 0 && p * p > n) ==> nearest_to_surd(p, n, q) >= 0,
        nearest_to_surd(p, n, q) > 0 ==> p > 0 || p * p < n,
        nearest_to_surd(p, n, q) < 0 ==> p < 0 && p * p > n,
{
    let f = sqrt_floor(n) as int;
    let c = sqrt_ceil(n) as int;
    lemma_sqrt_floor(n);
    lemma_sqrt_ceil(n);
    if p < 0 && p * p > n {
        if -p <= f {
            lemma_square_monotonic(-p, f);
            assert((-p) * (-p) == p * p) by (nonlinear_arith);
        }
    }
    if p + f < 0 {
        lemma_square_monotonic(f + 1, -p);
        assert((-p) * (-p) == p * p) by (nonlinear_arith);
    }
    let x = if p + f >= 0 {
        p + f + q
    } else {
        q - p - c
    };
    let k = x / (2 * q);
    lemma_fundamental_div_mod(x, 2 * q);
    lemma_mod_bound(x, 2 * q);
    assert(k >= 0 && (k > 0 ==> x >= 2 * q)) by (nonlinear_arith)
        requires
            q > 0,
            x >= 0,
            x == (2 * q) * k + x % (2 * q),
            0 <= x % (2 * q) < 2 * q,
    ;
    assert(k % 2 == 1 ==> k >= 1);
    if p + f >= 0 && k > 0 && p <= 0 {
        // f >= q - p > -p >= 0
        lemma_square_monotonic(-p + 1, f);
        assert((-p + 1) * (-p + 1) > p * p) by (nonlinear_arith)
            requires
                p <= 0,
        ;
    }
}

/// Computes the integer square root of `n`.
pub fn isqrt(n: u128) -> (r: u128)
    ensures
        r == sqrt_floor(n as nat),
        r < 0x1_0000_0000_0000_0000,
{
    let mut lo: u128 = 0;
    let mut hi: u128 = 0x1_0000_0000_0000_0000;
    while hi - lo > 1
        invariant
            lo < hi <= 0x1_0000_0000_0000_0000,
            lo * lo <= n < hi * hi,
        decreases hi - lo,
    {
        let mid: u128 = lo + (hi - lo) / 2;
        assert(mid * mid <= 0xffff_ffff_ffff_ffff * 0xffff_ffff_ffff_ffff) by (nonlinear_arith)
            requires
                0 <= mid <= 0xffff_ffff_ffff_ffff,
        ;
        if mid * mid <= n {
            lo = mid;
        } else {
            hi = mid;
        }
    }
    proof {
        lemma_sqrt_floor(n as nat);
        lemma_sqrt_floor_unique(n as int, lo as int, sqrt_floor(n as nat) as int);
    }
    lo
}

/// The largest `|p|` and `q` that `round_surd` takes.
pub const SURD_LIMIT: i128 = 0x10_0000_0000_0000_0000_0000_0000;

/// Computes the integer nearest to `(p + √n) / (2q)`, a value halfway
/// between two integers going to the even one.
pub fn round_surd(p: i128, n: u128, q: i128) -> (r: i128)
    requires
        -SURD_LIMIT <= p <= SURD_LIMIT,
        0 < q <= SURD_LIMIT,
    ensures
        r == nearest_to_surd(p as int, n as nat, q as int),
{
    let floor: i128 = isqrt(n) as i128;
    assert(floor * floor <= 0xffff_ffff_ffff_ffff * 0xffff_ffff_ffff_ffff) by (nonlinear_arith)
        requires
            0 <= floor <= 0xffff_ffff_ffff_ffff,
    ;
    let square: bool = (floor as u128) * (floor as u128) == n;
    let ceil: i128 = if square {
        floor
    } else {
        floor + 1
    };
    if p + floor >= 0 {
        round_half_to_even(p + floor, square, q)
    } else {
        -round_half_to_even(-p - ceil, square, q)
    }
}

/// Computes the integer nearest to `y / (2q)`, where `x` is the whole part
/// of `y` and `whole` says that `y` is `x`.
fn round_half_to_even(x: i128, whole: bool, q: i128) -> (r: i128)
    requires
        0 <= x <= 4 * SURD_LIMIT,
        0 < q <= SURD_LIMIT,
    ensures
        r == half_to_even(x as int, whole, q as int),
        r >= 0,
{
    let up: i128 = (x + q) / (2 * q);
    proof {
        lemma_fundamental_div_mod(x + q, 2 * q);
        lemma_mod_bound(x + q, 2 * q);
        assert(0 <= (x + q) / (2 * q) <= x + q) by (nonlinear_arith)
            requires
                x + q >= 0,
                q > 0,
                x + q == (2 * q) * ((x + q) / (2 * q)) + (x + q) % (2 * q),
                0 <= (x + q) % (2 * q) < 2 * q,
        ;
    }
    if whole && (x + q) % (2 * q) == 0 && up % 2 == 1 {
        up - 1
    } else {
        up
    }
}

} // verus!
