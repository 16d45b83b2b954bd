//! Roots of `a·x² + b·x + c = 0`, held exactly.

use vstd::prelude::*;
use crate::decimal::{Decimal, SCALE};
use crate::surd::{
    at_least_sqrt, at_most_sqrt, lemma_nearest_to_surd, lemma_nearest_to_surd_bound,
    lemma_nearest_to_surd_sign, lemma_sqrt_ceil, lemma_sqrt_ceil_bound, lemma_square_monotonic,
    nearest_to_surd, round_surd, sqrt_ceil,
};

verus! {

/// The largest magnitude of a coefficient that the solver takes.
pub const COEFFICIENT_LIMIT: i64 = 100_000_000_000_000;

/// The largest radicand of a root: five times the square of
/// `COEFFICIENT_LIMIT`, which no discriminant of coefficients in range
/// exceeds.
pub const RADICAND_LIMIT: u128 = 50_000_000_000_000_000_000_000_000_000;

/// The exact number `(p + √n) / (2q)`, or `(p − √n) / (2q)` where `plus`
/// is false. Nothing of it is rounded: `p`, `n` and `q` are whole numbers.
#[derive(Clone, Copy, Debug, PartialEq, Eq, Structural)]
pub struct Surd {
    pub p: i64,
    pub plus: bool,
    pub n: u128,
    pub q: i64,
}

/// A complex number with exact parts.
#[derive(Clone, Copy, Debug, PartialEq, Eq, Structural)]
pub struct Complex {
    pub re: Surd,
    pub im: Surd,
}

/// The two roots of a quadratic equation.
#[derive(Clone, Copy, Debug, PartialEq, Eq)]
pub enum QuadraticRoots {
    /// `(−b + √d) / 2a` and `(−b − √d) / 2a`, in this order.
    Real((Surd, Surd)),
    /// The root `−b / 2a + i·√(−d) / 2a`, and its conjugate.
    NotReal((Complex, Complex)),
}

/// Why an equation was not solved.
#[derive(Clone, Copy, Debug, PartialEq, Eq, Structural)]
pub enum SolveError {
    /// The leading coefficient is zero: the equation is not quadratic.
    InvalidCoefficient,
    /// A coefficient is larger in magnitude than `COEFFICIENT_LIMIT`.
    OutOfRange,
}

impl SolveError {
    /// The text of `message`.
    pub open spec fn message_text(self) -> Seq<char> {
        match self {
            SolveError::InvalidCoefficient => "ERROR: Parameter 'a' cannot be zero."@,
            SolveError::OutOfRange => "ERROR: Parameters are too large, or differ too much in size."@,
        }
    }

    /// A message that says what is wrong with the equation.
    pub fn message(&self) -> (message: &'static str)
        ensures
            message@ == self.message_text(),
    {
        match self {
            SolveError::InvalidCoefficient => "ERROR: Parameter 'a' cannot be zero.",
            SolveError::OutOfRange => "ERROR: Parameters are too large, or differ too much in size.",
        }
    }
}

/// `b² − 4ac`.
pub open spec fn discriminant(a: int, b: int, c: int) -> int {
    b * b - 4 * a * c
}

/// `|x|`.
pub open spec fn magnitude(x: int) -> int {
    if x < 0 {
        -x
    } else {
        x
    }
}

/// `x` if `a` is not negative, else `−x`: the product of `x` and the sign
/// of `a`.
pub open spec fn with_sign_of(a: int, x: int) -> int {
    if a < 0 {
        -x
    } else {
        x
    }
}

/// `SCALE² · |b² − 4ac|`: the magnitude of the discriminant, scaled so
/// that its square root stands beside `SCALE·b`.
pub open spec fn scaled_discriminant(a: int, b: int, c: int) -> nat {
    (SCALE * SCALE * magnitude(discriminant(a, b, c))) as nat
}

/// `(−b + √d) / 2a` rounded to the nearest ten-thousandth, in units.
pub open spec fn first_real_root(a: int, b: int, c: int) -> int {
    with_sign_of(a, nearest_to_surd(-SCALE * b, scaled_discriminant(a, b, c), magnitude(a)))
}

/// `(−b − √d) / 2a` rounded to the nearest ten-thousandth, in units.
pub open spec fn second_real_root(a: int, b: int, c: int) -> int {
    -with_sign_of(a, nearest_to_surd(SCALE * b, scaled_discriminant(a, b, c), magnitude(a)))
}

/// `−b / 2a` rounded to the nearest ten-thousandth, in units.
pub open spec fn real_part(a: int, b: int) -> int {
    with_sign_of(a, nearest_to_surd(-SCALE * b, 0, magnitude(a)))
}

/// `√(−d) / 2a` rounded to the nearest ten-thousandth, in units.
pub open spec fn imaginary_part(a: int, b: int, c: int) -> int {
    with_sign_of(a, nearest_to_surd(0, scaled_discriminant(a, b, c), magnitude(a)))
}

/// Whether a coefficient is one that the solver takes.
pub open spec fn is_coefficient(x: int) -> bool {
    -COEFFICIENT_LIMIT <= x <= COEFFICIENT_LIMIT
}

impl Surd {
    /// Whether the number is one that this library puts into words: the
    /// divisor is not zero, and no part exceeds its limit.
    pub open spec fn wf(self) -> bool {
        &&& self.q != 0
        &&& is_coefficient(self.p as int)
        &&& is_coefficient(self.q as int)
        &&& self.n <= RADICAND_LIMIT
    }

    /// `p`, or `−p` where the square root is taken away: the number is
    /// `±(inner + √n) / (2q)`.
    pub open spec fn inner(self) -> int {
        if self.plus {
            self.p as int
        } else {
            -self.p
        }
    }

    /// Whether `(inner + √n) / (2·|q|)` has the sign opposite to the
    /// number's.
    pub open spec fn turned(self) -> bool {
        self.plus != (self.q > 0)
    }

    /// Whether the number is below zero.
    pub open spec fn is_negative(self) -> bool {
        let p = self.inner();
        if self.turned() {
            p > 0 || p * p < self.n
        } else {
            p < 0 && p * p > self.n
        }
    }

    /// The number rounded to the nearest ten-thousandth, in units; a number
    /// halfway between two goes to the one with an even last digit.
    pub open spec fn rounded(self) -> int {
        let nearest = nearest_to_surd(
            SCALE * self.inner(),
            (SCALE * SCALE * self.n) as nat,
            magnitude(self.q as int),
        );
        if self.turned() {
            -nearest
        } else {
            nearest
        }
    }

    /// Whether the number is well formed.
    pub fn is_wf(&self) -> (yes: bool)
        ensures
            yes == self.wf(),
    {
        self.q != 0 && -COEFFICIENT_LIMIT <= self.p && self.p <= COEFFICIENT_LIMIT
            && -COEFFICIENT_LIMIT <= self.q && self.q <= COEFFICIENT_LIMIT && self.n
            <= RADICAND_LIMIT
    }

    /// Whether the number is below zero.
    pub fn negative(&self) -> (yes: bool)
        requires
            self.wf(),
        ensures
            yes == self.is_negative(),
    {
        let p: i128 = if self.plus {
            self.p as i128
        } else {
            -(self.p as i128)
        };
        assert(0 <= p * p <= 10_000_000_000_000_000_000_000_000_000) by (nonlinear_arith)
            requires
                -100_000_000_000_000 <= p <= 100_000_000_000_000,
        ;
        let square: u128 = (p * p) as u128;
        if self.plus != (self.q > 0) {
            p > 0 || square < self.n
        } else {
            p < 0 && square > self.n
        }
    }

    /// Rounds the number to the nearest ten-thousandth.
    pub fn round(&self) -> (nearest: Decimal)
        requires
            self.wf(),
        ensures
            nearest@ == self.rounded(),
            -ROOT_LIMIT <= nearest@ <= ROOT_LIMIT,
    {
        let p: i128 = if self.plus {
            self.p as i128
        } else {
            -(self.p as i128)
        };
        let q: i128 = if self.q < 0 {
            -(self.q as i128)
        } else {
            self.q as i128
        };
        proof {
            lemma_rounded_in_range(*self);
            assert(SCALE * SCALE == 100_000_000);
        }
        let n: u128 = 100_000_000 * self.n;
        let nearest: i128 = round_surd(10_000 * p, n, q);
        if self.plus != (self.q > 0) {
            Decimal { units: (-nearest) as i64 }
        } else {
            Decimal { units: nearest as i64 }
        }
    }
}

/// The rounded number has the sign of the number, where it is not zero.
pub proof fn lemma_rounded_sign(s: Surd)
    requires
        s.wf(),
    ensures
        s.is_negative() ==> s.rounded() <= 0,
        !s.is_negative() ==> s.rounded() >= 0,
{
    let p = s.inner();
    let big = SCALE * p;
    let n = s.n as int;
    let wide = (SCALE * SCALE * s.n) as nat;
    lemma_nearest_to_surd_sign(big, wide, magnitude(s.q as int));
    assert(SCALE * SCALE == 100_000_000);
    assert(wide == 100_000_000 * n);
    assert(big * big == 100_000_000 * (p * p)) by (nonlinear_arith)
        requires
            big == 10_000 * p,
    ;
}

/// A well-formed number rounds to within `ROOT_LIMIT`.
pub proof fn lemma_rounded_in_range(s: Surd)
    requires
        s.wf(),
    ensures
        -ROOT_LIMIT <= s.rounded() <= ROOT_LIMIT,
{
    let m = ROOT_LIMIT as int;
    let wide = (SCALE * SCALE * s.n) as nat;
    assert(SCALE * SCALE == 100_000_000);
    assert(wide == 100_000_000 * s.n);
    assert(wide <= m * m) by (nonlinear_arith)
        requires
            wide <= 5_000_000_000_000_000_000_000_000_000_000_000_000,
            m == 2_300_000_000_000_000_000,
    ;
    lemma_sqrt_ceil_bound(wide, m);
    lemma_nearest_to_surd_bound(SCALE * s.inner(), wide, magnitude(s.q as int), m);
}

impl Complex {
    /// Whether both parts are well formed.
    pub open spec fn wf(self) -> bool {
        self.re.wf() && self.im.wf()
    }

    /// Whether this is the complex conjugate of `other`: the real parts are
    /// equal, and the imaginary parts differ in the sign of the square root
    /// only.
    pub open spec fn is_conjugate_of(self, other: Complex) -> bool {
        self.re == other.re && self.im == (Surd { plus: !other.im.plus, ..other.im })
    }

    /// Makes a complex number from its parts.
    pub fn new(re: Surd, im: Surd) -> (z: Complex)
        ensures
            z.re == re,
            z.im == im,
    {
        Complex { re, im }
    }
}

impl QuadraticRoots {
    /// Whether every part of the roots is well formed.
    pub open spec fn wf(self) -> bool {
        match self {
            QuadraticRoots::Real((first, second)) => first.wf() && second.wf(),
            QuadraticRoots::NotReal((first, second)) => first.wf() && second.wf(),
        }
    }

    /// Whether every part of the roots is well formed.
    pub fn is_wf(&self) -> (yes: bool)
        ensures
            yes == self.wf(),
    {
        match self {
            QuadraticRoots::Real((first, second)) => first.is_wf() && second.is_wf(),
            QuadraticRoots::NotReal((first, second)) => first.re.is_wf() && first.im.is_wf()
                && second.re.is_wf() && second.im.is_wf(),
        }
    }
}

/// What `solve_quadratic` returns for the equation `a·x² + b·x + c = 0`:
/// with `d = b² − 4ac`, the roots `(−b ± √d) / 2a` for `d ≥ 0`, else the
/// roots `−b / 2a ± i·√(−d) / 2a`.
pub open spec fn solution(a: i64, b: i64, c: i64) -> Result<
    QuadraticRoots,
    SolveError,
> {
    let d = discriminant(a as int, b as int, c as int);
    if a == 0 {
        Err(SolveError::InvalidCoefficient)
    } else if !(is_coefficient(a as int) && is_coefficient(b as int) && is_coefficient(c as int)) {
        Err(SolveError::OutOfRange)
    } else if d >= 0 {
        let first = Surd { p: (-b) as i64, plus: true, n: d as u128, q: a };
        Ok(QuadraticRoots::Real((first, Surd { plus: false, ..first })))
    } else {
        let re = Surd { p: (-b) as i64, plus: true, n: 0, q: a };
        let im = Surd { p: 0, plus: true, n: (-d) as u128, q: a };
        Ok(
            QuadraticRoots::NotReal(
                (Complex { re, im }, Complex { re, im: Surd { plus: false, ..im } }),
            ),
        )
    }
}

/// Whether `(p ± √n) / (2q)` solves `a·x² + b·x + c = 0` exactly, for
/// either sign of the square root; a negative `n` stands for the complex
/// numbers `(p ± i·√(−n)) / (2q)`. Put into the equation and multiplied by
/// `4q²`, such a number gives `a·(p² + n) + 2q·b·p + 4q²·c` and the square
/// root `(2a·p + 2q·b)` times: both are zero.
pub open spec fn solves(a: int, b: int, c: int, p: int, n: int, q: int) -> bool {
    &&& q != 0
    &&& a * (p * p + n) + 2 * q * b * p + 4 * q * q * c == 0
    &&& 2 * a * p + 2 * q * b == 0
}

/// `(−b ± √d) / 2a` solves the equation exactly, whatever the sign of the
/// discriminant `d`.
pub proof fn lemma_formula_solves(a: int, b: int, c: int)
    requires
        a != 0,
    ensures
        solves(a, b, c, -b, discriminant(a, b, c), a),
{
    let d = discriminant(a, b, c);
    assert(a * ((-b) * (-b) + d) + 2 * a * b * (-b) + 4 * a * a * c == 0) by (nonlinear_arith)
        requires
            d == b * b - 4 * a * c,
    ;
    assert(2 * a * (-b) + 2 * a * b == 0) by (nonlinear_arith);
}

/// Whether `roots` are what the equation has: of the kind that the sign
/// of the discriminant asks for, and each of them an exact solution. Real
/// roots differ in the sign of the square root only; complex roots are a
/// conjugate pair with an imaginary part that is not zero.
pub open spec fn solve_equation(roots: QuadraticRoots, a: int, b: int, c: int) -> bool {
    match roots {
        QuadraticRoots::Real((first, second)) => {
            &&& discriminant(a, b, c) >= 0
            &&& first.plus
            &&& second == (Surd { plus: false, ..first })
            &&& solves(a, b, c, first.p as int, first.n as int, first.q as int)
        },
        QuadraticRoots::NotReal((first, second)) => {
            &&& discriminant(a, b, c) < 0
            &&& second.is_conjugate_of(first)
            &&& first.re.n == 0
            &&& first.im.p == 0
            &&& first.im.n > 0
            &&& first.im.plus
            &&& first.im.q == first.re.q
            &&& solves(a, b, c, first.re.p as int, -(first.im.n as int), first.re.q as int)
        },
    }
}

/// The roots that the solver returns solve the equation exactly.
pub proof fn lemma_solution_solves_equation(a: i64, b: i64, c: i64)
    ensures
        solution(a, b, c) matches Ok(roots) ==> roots.wf() && solve_equation(roots, a as int, b as int, c as int),
{
    if solution(a, b, c) is Ok {
        lemma_discriminant_bound(a as int, b as int, c as int);
        lemma_formula_solves(a as int, b as int, c as int);
    }
}

/// Whether the magnitude of `x` is at most `COEFFICIENT_LIMIT`.
fn in_range(x: i64) -> (r: bool)
    ensures
        r == is_coefficient(x as int),
{
    -COEFFICIENT_LIMIT <= x && x <= COEFFICIENT_LIMIT
}

/// Solves `a·x² + b·x + c = 0`, the coefficients being whole numbers of
/// one unit, whichever: an equation keeps its roots when its coefficients
/// are multiplied by a common factor, so that decimal coefficients are
/// handed over as so many tenths, or ten-thousandths, each.
///
/// With `d = b² − 4ac`: for `d ≥ 0` the roots are `(−b + √d) / 2a` and
/// `(−b − √d) / 2a`, in this order; for `d < 0` they are the complex number
/// with real part `−b / 2a` and imaginary part `√(−d) / 2a`, and its
/// conjugate. The roots are exact: nothing is rounded, and no square root
/// is taken.
///
/// An equation with `a = 0` is refused as `InvalidCoefficient`, and
/// otherwise one with a coefficient beyond `COEFFICIENT_LIMIT` as
/// `OutOfRange`.
pub fn solve_quadratic(a: i64, b: i64, c: i64) -> (result: Result<
    QuadraticRoots,
    SolveError,
>)
    ensures
        result == solution(a, b, c),
        a == 0 <==> result == Err::<QuadraticRoots, SolveError>(SolveError::InvalidCoefficient),
        result is Ok <==> a != 0 && is_coefficient(a as int) && is_coefficient(b as int) && is_coefficient(c as int),
        result matches Ok(roots) ==> roots.wf() && solve_equation(roots, a as int, b as int, c as int),
{
    proof {
        lemma_solution_solves_equation(a, b, c);
    }
    if a == 0 {
        return Err(SolveError::InvalidCoefficient);
    }
    if !(in_range(a) && in_range(b) && in_range(c)) {
        return Err(SolveError::OutOfRange);
    }
    let a_units: i128 = a as i128;
    let b_units: i128 = b as i128;
    let c_units: i128 = c as i128;
    proof {
        lemma_discriminant_bound(a as int, b as int, c as int);
    }
    let ac: i128 = a_units * c_units;
    let d: i128 = b_units * b_units - 4 * ac;
    if d >= 0 {
        let first = Surd { p: -b, plus: true, n: d as u128, q: a };
        Ok(QuadraticRoots::Real((first, Surd { p: -b, plus: false, n: d as u128, q: a })))
    } else {
        let re = Surd { p: -b, plus: true, n: 0, q: a };
        let im = Surd { p: 0, plus: true, n: (-d) as u128, q: a };
        let turned = Surd { p: 0, plus: false, n: (-d) as u128, q: a };
        Ok(QuadraticRoots::NotReal((Complex { re, im }, Complex { re, im: turned })))
    }
}

/// A bound on the magnitude of every rounded root: such a number fits the
/// units of a `Decimal` with room to spare.
pub const ROOT_LIMIT: i64 = 2_300_000_000_000_000_000;

/// The discriminant of coefficients in range is at most five times the
/// square of the limit in magnitude.
proof fn lemma_discriminant_bound(a: int, b: int, c: int)
    requires
        is_coefficient(a),
        is_coefficient(b),
        is_coefficient(c),
    ensures
        0 <= b * b <= 10_000_000_000_000_000_000_000_000_000,
        magnitude(a * c) <= 10_000_000_000_000_000_000_000_000_000,
        discriminant(a, b, c) == b * b - 4 * (a * c),
        magnitude(discriminant(a, b, c)) <= 50_000_000_000_000_000_000_000_000_000,
        scaled_discriminant(a, b, c) <= 5_000_000_000_000_000_000_000_000_000_000_000_000,
{
    let l = COEFFICIENT_LIMIT as int;
    assert(l * l == 10_000_000_000_000_000_000_000_000_000) by (nonlinear_arith)
        requires
            l == 100_000_000_000_000,
    ;
    assert(0 <= b * b <= l * l) by (nonlinear_arith)
        requires
            -l <= b <= l,
    ;
    assert(-(l * l) <= a * c <= l * l) by (nonlinear_arith)
        requires
            -l <= a <= l,
            -l <= c <= l,
    ;
    assert(4 * a * c == 4 * (a * c)) by (nonlinear_arith);
    assert(SCALE * SCALE == 100_000_000);
}

/// `SCALE²` times the value of `a·x² + b·x + c` at the decimal with `x`
/// units.
pub open spec fn residual(a: int, b: int, c: int, x: int) -> int {
    a * x * x + SCALE * b * x + SCALE * SCALE * c
}

/// `SCALE²` times the real part of `a·z² + b·z + c` at the complex number
/// with parts of `re` and `im` units.
pub open spec fn residual_re(a: int, b: int, c: int, re: int, im: int) -> int {
    a * (re * re - im * im) + SCALE * b * re + SCALE * SCALE * c
}

/// `SCALE²` times the imaginary part of `a·z² + b·z + c` at the complex
/// number with parts of `re` and `im` units.
pub open spec fn residual_im(a: int, b: int, re: int, im: int) -> int {
    2 * a * re * im + SCALE * b * im
}

/// Whether the decimal of `x` units nearly solves the equation with real
/// roots: four times the magnitude of the residual is at most
/// `|a| + 2·⌈√(SCALE²·d)⌉`.
pub open spec fn nearly_solves(a: int, b: int, c: int, x: int) -> bool {
    4 * magnitude(residual(a, b, c, x)) <= magnitude(a) + 2 * sqrt_ceil(
        scaled_discriminant(a, b, c),
    )
}

/// Whether the complex number with parts of `re` and `im` units nearly
/// solves the equation without real roots: for the real part of the
/// residual, twice its magnitude is at most `|a| + ⌈√(SCALE²·(−d))⌉`; the
/// imaginary part of the residual is at most `|a|·|im|` in magnitude.
pub open spec fn nearly_solves_complex(a: int, b: int, c: int, re: int, im: int) -> bool {
    &&& 2 * magnitude(residual_re(a, b, c, re, im)) <= magnitude(a) + sqrt_ceil(
        scaled_discriminant(a, b, c),
    )
    &&& magnitude(residual_im(a, b, re, im)) <= magnitude(a) * magnitude(im)
}

/// Completing the square: `4a·(a·x² + b·x + c) = (2a·x + b)² − d`, for `x`
/// in units.
proof fn lemma_completed_square(a: int, b: int, c: int, x: int)
    ensures
        4 * a * residual(a, b, c, x) == (2 * a * x + SCALE * b) * (2 * a * x + SCALE * b) - SCALE
            * SCALE * discriminant(a, b, c),
{
    let s = SCALE as int;
    let h = a * x;
    let t = s * b;
    let k = s * s * c;
    assert(4 * a * (h * x + t * x + k) == 4 * (a * (h * x)) + 4 * (a * (t * x)) + 4 * (a * k))
        by (nonlinear_arith);
    assert((2 * h + t) * (2 * h + t) == 4 * (h * h) + 4 * (h * t) + t * t) by (nonlinear_arith);
    assert(h * h == a * (h * x)) by (nonlinear_arith)
        requires
            h == a * x,
    ;
    assert(h * t == a * (t * x)) by (nonlinear_arith)
        requires
            h == a * x,
    ;
    assert(s * s * (b * b - 4 * a * c) == t * t - 4 * (a * k)) by (nonlinear_arith)
        requires
            t == s * b,
            k == s * s * c,
    ;
    assert(a * x * x == h * x);
    assert(2 * a * x == 2 * h) by (nonlinear_arith)
        requires
            h == a * x,
    ;
}

/// If `e` is within `q` of `√n`, then `e²` is within `q·(q + 2·⌈√n⌉)` of
/// `n`.
proof fn lemma_square_gap(e: int, n: nat, q: int)
    requires
        q > 0,
        at_most_sqrt(e - q, n as int),
        at_least_sqrt(e + q, n as int),
    ensures
        magnitude(e * e - n) <= q * (q + 2 * sqrt_ceil(n)),
{
    let c = sqrt_ceil(n) as int;
    lemma_sqrt_ceil(n);
    if e * e >= n {
        if e - q <= 0 {
            lemma_square_monotonic(magnitude(e), q);
            assert(magnitude(e) * magnitude(e) == e * e) by (nonlinear_arith);
            assert(q * q <= q * (q + 2 * c)) by (nonlinear_arith)
                requires
                    q > 0,
                    c >= 0,
            ;
        } else {
            if e - q > c {
                lemma_square_monotonic(c + 1, e - q);
                assert((c + 1) * (c + 1) > c * c) by (nonlinear_arith)
                    requires
                        c >= 0,
                ;
            }
            assert(e * e - n <= q * (q + 2 * c)) by (nonlinear_arith)
                requires
                    q > 0,
                    e - q <= c,
                    (e - q) * (e - q) <= n,
            ;
        }
    } else {
        if e > c {
            lemma_square_monotonic(c, e);
        }
        assert(n - e * e <= q * (q + 2 * c)) by (nonlinear_arith)
            requires
                q > 0,
                e <= c,
                (e + q) * (e + q) >= n,
        ;
    }
}

/// Both real roots nearly solve the equation. For the values that the
/// units stand for the bound reads
/// `|a·x² + b·x + c| ≤ |a| / (4·SCALE²) + √d / (2·SCALE)`, up to the rounding
/// of the square root.
pub proof fn lemma_real_roots_solve_equation(a: int, b: int, c: int)
    requires
        a != 0,
        discriminant(a, b, c) >= 0,
    ensures
        nearly_solves(a, b, c, first_real_root(a, b, c)),
        nearly_solves(a, b, c, second_real_root(a, b, c)),
{
    let q = magnitude(a);
    let n = scaled_discriminant(a, b, c);
    let bound = q + 2 * sqrt_ceil(n);
    assert(n == SCALE * SCALE * discriminant(a, b, c));
    {
        let u = nearest_to_surd(-SCALE * b, n, q);
        let x = first_real_root(a, b, c);
        lemma_nearest_to_surd(-SCALE * b, n, q);
        let e = 2 * q * u + SCALE * b;
        assert(2 * a * x == 2 * q * u) by (nonlinear_arith)
            requires
                x == with_sign_of(a, u),
                q == magnitude(a),
        ;
        lemma_completed_square(a, b, c, x);
        lemma_square_gap(e, n, q);
        lemma_residual_bound(a, residual(a, b, c, x), e * e - n, bound);
    }
    {
        let v = nearest_to_surd(SCALE * b, n, q);
        let x = second_real_root(a, b, c);
        lemma_nearest_to_surd(SCALE * b, n, q);
        let e = 2 * q * v - SCALE * b;
        assert(2 * a * x == -(2 * q * v)) by (nonlinear_arith)
            requires
                x == -with_sign_of(a, v),
                q == magnitude(a),
        ;
        lemma_completed_square(a, b, c, x);
        assert((2 * a * x + SCALE * b) * (2 * a * x + SCALE * b) == e * e) by (nonlinear_arith)
            requires
                2 * a * x + SCALE * b == -e,
        ;
        lemma_square_gap(e, n, q);
        lemma_residual_bound(a, residual(a, b, c, x), e * e - n, bound);
    }
}

/// From `4a·r = g` and `|g| ≤ |a|·bound` follows `4|r| ≤ bound`.
proof fn lemma_residual_bound(a: int, r: int, g: int, bound: int)
    requires
        a != 0,
        4 * a * r == g,
        magnitude(g) <= magnitude(a) * bound,
    ensures
        4 * magnitude(r) <= bound,
{
    let q = magnitude(a);
    let m = magnitude(r);
    assert(q * (4 * m) == magnitude(4 * a * r)) by (nonlinear_arith)
        requires
            q == magnitude(a),
            m == magnitude(r),
    ;
    assert(4 * m <= bound) by (nonlinear_arith)
        requires
            q > 0,
            q * (4 * m) <= q * bound,
    ;
}

/// Both complex roots nearly solve the equation: the root with the
/// imaginary part `√(−d) / 2a`, and its conjugate.
pub proof fn lemma_complex_roots_solve_equation(a: int, b: int, c: int)
    requires
        a != 0,
        discriminant(a, b, c) < 0,
    ensures
        nearly_solves_complex(a, b, c, real_part(a, b), imaginary_part(a, b, c)),
        nearly_solves_complex(a, b, c, real_part(a, b), -imaginary_part(a, b, c)),
{
    let q = magnitude(a);
    let n = scaled_discriminant(a, b, c);
    let ceil = sqrt_ceil(n) as int;
    assert(SCALE * SCALE == 100_000_000);
    assert(n == -(SCALE * SCALE * discriminant(a, b, c)));
    let u = nearest_to_surd(-SCALE * b, 0, q);
    let k = nearest_to_surd(0, n, q);
    let re = real_part(a, b);
    let im = imaginary_part(a, b, c);
    lemma_nearest_to_surd(-SCALE * b, 0, q);
    lemma_nearest_to_surd(0, n, q);
    let w = 2 * q * u + SCALE * b;
    let v = 2 * q * k;
    assert(2 * a * re == 2 * q * u) by (nonlinear_arith)
        requires
            re == with_sign_of(a, u),
            q == magnitude(a),
    ;
    assert(2 * a * im == v) by (nonlinear_arith)
        requires
            im == with_sign_of(a, k),
            q == magnitude(a),
            v == 2 * q * k,
    ;
    // |w| <= q
    assert(w - q <= 0) by (nonlinear_arith)
        requires
            w - q <= 0 || (w - q) * (w - q) <= 0,
    ;
    lemma_square_monotonic(magnitude(w), q);
    assert(magnitude(w) * magnitude(w) == w * w) by (nonlinear_arith);
    lemma_completed_square(a, b, c, re);
    lemma_square_gap(v, n, q);
    let r = residual_re(a, b, c, re, im);
    assert(a * (re * re - im * im) == a * re * re - a * (im * im)) by (nonlinear_arith);
    assert(4 * a * r == 4 * a * residual(a, b, c, re) - v * v) by (nonlinear_arith)
        requires
            r == residual(a, b, c, re) - a * (im * im),
            2 * a * im == v,
    ;
    assert(q * q + q * (q + 2 * ceil) == q * (2 * q + 2 * ceil)) by (nonlinear_arith);
    lemma_residual_bound(a, r, w * w - (v * v - n), 2 * q + 2 * ceil);
    // the imaginary part
    let i = residual_im(a, b, re, im);
    assert(i == im * w) by (nonlinear_arith)
        requires
            i == 2 * a * re * im + SCALE * b * im,
            2 * a * re + SCALE * b == w,
    ;
    assert(magnitude(im * w) <= q * magnitude(im)) by (nonlinear_arith)
        requires
            magnitude(w) <= q,
    ;
    assert((-im) * (-im) == im * im) by (nonlinear_arith);
    assert(2 * a * re * (-im) == -(2 * a * re * im)) by (nonlinear_arith);
    assert(SCALE * b * (-im) == -(SCALE * b * im)) by (nonlinear_arith);
}

/// The roots that the solver returns, rounded to the nearest
/// ten-thousandth, nearly solve the equation.
pub proof fn lemma_rounded_solution(a: i64, b: i64, c: i64)
    ensures
        match solution(a, b, c) {
            Ok(QuadraticRoots::Real((first, second))) => {
                &&& first.rounded() == first_real_root(a as int, b as int, c as int)
                &&& second.rounded() == second_real_root(a as int, b as int, c as int)
                &&& nearly_solves(a as int, b as int, c as int, first.rounded())
                &&& nearly_solves(a as int, b as int, c as int, second.rounded())
            },
            Ok(QuadraticRoots::NotReal((first, second))) => {
                &&& first.re.rounded() == real_part(a as int, b as int)
                &&& first.im.rounded() == imaginary_part(a as int, b as int, c as int)
                &&& second.re.rounded() == first.re.rounded()
                &&& second.im.rounded() == -first.im.rounded()
                &&& nearly_solves_complex(a as int, b as int, c as int, first.re.rounded(), first.im.rounded())
                &&& nearly_solves_complex(a as int, b as int, c as int, second.re.rounded(), second.im.rounded())
            },
            Err(_) => true,
        },
{
    if solution(a, b, c) is Ok {
        lemma_discriminant_bound(a as int, b as int, c as int);
        assert(SCALE * SCALE == 100_000_000);
        if discriminant(a as int, b as int, c as int) >= 0 {
            lemma_real_roots_solve_equation(a as int, b as int, c as int);
        } else {
            lemma_complex_roots_solve_equation(a as int, b as int, c as int);
        }
    }
}

} // verus!
