//! Reading the coefficients of an equation from decimal numbers of any
//! length, as whole numbers of one unit.

use vstd::prelude::*;
use crate::decimal::{
    all_digits, ascii_len, digits_value, has_sign, holds, is_digit, read_digits, smaller,
    unsigned_part, ParseError, DIGITS_CAP,
};

verus! {

/// Where the first point of `u` at or after `from` stands: the length of
/// `u`, if there is none.
pub open spec fn point_index(u: Seq<char>, from: int) -> int
    decreases u.len() - from,
{
    if from < 0 || from >= u.len() || u[from] == '.' {
        from
    } else {
        point_index(u, from + 1)
    }
}

/// The digits before the point of a number written in `s`.
pub open spec fn whole_digits(s: Seq<char>) -> Seq<char> {
    let u = unsigned_part(s);
    u.subrange(0, point_index(u, 0))
}

/// The digits after the point of a number written in `s`; none where
/// there is no point.
pub open spec fn fraction_digits(s: Seq<char>) -> Seq<char> {
    let u = unsigned_part(s);
    if point_index(u, 0) < u.len() {
        u.subrange(point_index(u, 0) + 1, u.len() as int)
    } else {
        Seq::<char>::empty()
    }
}

/// Whether `s` writes a number: an optional sign, digits and, optionally, a
/// point and more digits, with a digit at least on one side of the point.
pub open spec fn is_number(s: Seq<char>) -> bool {
    &&& all_digits(whole_digits(s))
    &&& all_digits(fraction_digits(s))
    &&& whole_digits(s).len() + fraction_digits(s).len() > 0
}

/// `10` to the power `k`.
pub open spec fn pow10(k: nat) -> nat
    decreases k,
{
    if k == 0 {
        1
    } else {
        10 * pow10((k - 1) as nat)
    }
}

/// The number that `s` writes, as a whole number of units of which
/// `10^places` make one; `places` is at least the number of digits after
/// the point.
pub open spec fn number_in_units(s: Seq<char>, places: nat) -> int {
    if s.len() > 0 && s[0] == '-' {
        -magnitude_in_units(s, places)
    } else {
        magnitude_in_units(s, places)
    }
}

/// The magnitude of `number_in_units`.
pub open spec fn magnitude_in_units(s: Seq<char>, places: nat) -> int {
    (digits_value(whole_digits(s)) * pow10(places) + digits_value(fraction_digits(s)) * pow10(
        (places - fraction_digits(s).len()) as nat,
    )) as int
}

/// The largest of three numbers.
pub open spec fn largest(x: nat, y: nat, z: nat) -> nat {
    if x >= y && x >= z {
        x
    } else if y >= z {
        y
    } else {
        z
    }
}

/// The number of digits after the point that the unit of an equation
/// takes: as many as the coefficient with the most of them has.
pub open spec fn equation_places(a: Seq<char>, b: Seq<char>, c: Seq<char>) -> nat {
    largest(fraction_digits(a).len(), fraction_digits(b).len(), fraction_digits(c).len())
}

/// Whether a coefficient is small enough to be handed on.
pub open spec fn is_small(x: int) -> bool {
    -DIGITS_CAP < x < DIGITS_CAP
}

/// What `read_equation` returns for three texts: the three numbers as
/// whole numbers of the largest unit that all three are whole numbers of.
pub open spec fn equation_read(a: Seq<char>, b: Seq<char>, c: Seq<char>) -> Result<
    (i64, i64, i64),
    ParseError,
> {
    let places = equation_places(a, b, c);
    let x = number_in_units(a, places);
    let y = number_in_units(b, places);
    let z = number_in_units(c, places);
    if !(is_number(a) && is_number(b) && is_number(c)) {
        Err(ParseError::Malformed)
    } else if !(is_small(x) && is_small(y) && is_small(z)) {
        Err(ParseError::OutOfRange)
    } else {
        Ok((x as i64, y as i64, z as i64))
    }
}

/// The first point stands at or after the beginning, within the text, and
/// no point stands before it.
pub proof fn lemma_point_index(u: Seq<char>, from: int)
    requires
        0 <= from <= u.len(),
    ensures
        from <= point_index(u, from) <= u.len(),
        point_index(u, from) < u.len() ==> u[point_index(u, from)] == '.',
        forall|i: int| from <= i < point_index(u, from) ==> u[i] != '.',
    decreases u.len() - from,
{
    if from < u.len() && u[from] != '.' {
        lemma_point_index(u, from + 1);
    }
}

/// A text that writes a number holds ASCII characters only.
pub proof fn lemma_number_is_ascii(s: Seq<char>)
    requires
        is_number(s),
    ensures
        vstd::utf8::is_ascii_chars(s),
{
    let u = unsigned_part(s);
    let start = s.len() - u.len();
    let point = point_index(u, 0);
    lemma_point_index(u, 0);
    assert forall|i: int| 0 <= i < s.len() implies '\0' <= #[trigger] s[i] <= '\u{7f}' by {
        if i >= start {
            let j = i - start;
            assert(s[i] == u[j]);
            if j < point {
                assert(is_digit(whole_digits(s)[j]));
            } else if j > point {
                assert(is_digit(fraction_digits(s)[j - point - 1]));
            }
        }
    }
}

/// Ten times a power of ten is the next power of ten, and no power of ten
/// is zero.
pub proof fn lemma_pow10(k: nat)
    ensures
        pow10(k + 1) == 10 * pow10(k),
        pow10(k) >= 1,
    decreases k,
{
    if k > 0 {
        lemma_pow10((k - 1) as nat);
    }
}

/// Multiplies `value` by ten `times` times, stopping at `DIGITS_CAP`.
fn shift(value: u64, times: usize) -> (shifted: u64)
    requires
        value <= DIGITS_CAP,
    ensures
        shifted == smaller(value * pow10(times as nat), DIGITS_CAP as int),
{
    let mut shifted: u64 = value;
    let mut done: usize = 0;
    assert(value * pow10(0) == value) by (nonlinear_arith)
        requires
            pow10(0) == 1,
    ;
    while done < times
        invariant
            done <= times,
            value <= DIGITS_CAP,
            shifted == smaller(value * pow10(done as nat), DIGITS_CAP as int),
        decreases times - done,
    {
        proof {
            lemma_pow10(done as nat);
            let power = pow10(done as nat) as int;
            assert(value * (10 * power) == 10 * (value * power)) by (nonlinear_arith);
        }
        shifted = shifted * 10;
        if shifted > DIGITS_CAP {
            shifted = DIGITS_CAP;
        }
        done = done + 1;
    }
    shifted
}

/// Where the parts of a number stand in a text.
struct Layout {
    /// Whether the number has a minus sign.
    negative: bool,
    /// Where the digits before the point begin.
    start: usize,
    /// Where the point stands, or the end of the text.
    point: usize,
    /// The end of the text.
    end: usize,
}

impl Layout {
    /// Whether this is the layout of `s`.
    spec fn fits(self, s: Seq<char>) -> bool {
        &&& self.start <= self.point <= self.end == s.len()
        &&& self.negative == (s.len() > 0 && s[0] == '-')
        &&& whole_digits(s) == s.subrange(self.start as int, self.point as int)
        &&& fraction_digits(s) == if self.point < self.end {
            s.subrange(self.point + 1, self.end as int)
        } else {
            Seq::<char>::empty()
        }
    }

    /// How many digits follow the point.
    spec fn places(self) -> nat {
        if self.point < self.end {
            (self.end - self.point - 1) as nat
        } else {
            0
        }
    }
}

/// Finds the parts of a number in a text.
fn lay_out(text: &str) -> (layout: Layout)
    requires
        text.is_ascii(),
    ensures
        layout.fits(text@),
        layout.places() == fraction_digits(text@).len(),
{
    let end: usize = ascii_len(text);
    let negative: bool = end > 0 && holds(text, 0, 45);
    let start: usize = if negative || (end > 0 && holds(text, 0, 43)) {
        1
    } else {
        0
    };
    let ghost u = unsigned_part(text@);
    assert(u =~= text@.subrange(start as int, end as int));
    let mut point: usize = start;
    while point < end && !holds(text, point, 46)
        invariant
            text.is_ascii(),
            end == text@.len(),
            start <= point <= end,
            u == text@.subrange(start as int, end as int),
            point_index(u, 0) == point_index(u, point - start),
        decreases end - point,
    {
        assert(u[point - start] == text@[point as int]);
        point = point + 1;
    }
    proof {
        if point < end {
            assert(u[point - start] == text@[point as int]);
        }
        assert(point_index(u, 0) == point - start);
        assert(u.subrange(0, point - start) =~= text@.subrange(start as int, point as int));
        if point < end {
            assert(u.subrange(point - start + 1, u.len() as int) =~= text@.subrange(
                point + 1,
                end as int,
            ));
        }
    }
    Layout { negative, start, point, end }
}

/// Reads the number whose parts `layout` names as a whole number of units
/// of which `10^places` make one: `None` where the text writes no number,
/// and `DIGITS_CAP` for the magnitude of a number of that size or more.
fn read_in_units(text: &str, layout: &Layout, places: usize) -> (size: Option<u64>)
    requires
        text.is_ascii(),
        layout.fits(text@),
        layout.places() <= places,
    ensures
        size is Some == is_number(text@),
        size matches Some(v) ==> v == smaller(
            magnitude_in_units(text@, places as nat),
            DIGITS_CAP as int,
        ),
{
    let after: usize = if layout.point < layout.end {
        layout.point + 1
    } else {
        layout.end
    };
    assert(fraction_digits(text@) =~= text@.subrange(after as int, layout.end as int));
    if layout.point - layout.start + (layout.end - after) == 0 {
        return None;
    }
    let whole_run = read_digits(text, layout.start, layout.point);
    let fraction_run = read_digits(text, after, layout.end);
    match (whole_run, fraction_run) {
        (Some(whole), Some(part)) => {
            let high: u64 = shift(whole, places);
            let low: u64 = shift(part, places - (layout.end - after));
            proof {
                let w = digits_value(whole_digits(text@)) as int;
                let f = digits_value(fraction_digits(text@)) as int;
                let pw = pow10(places as nat) as int;
                let pf = pow10((places - fraction_digits(text@).len()) as nat) as int;
                lemma_pow10(places as nat);
                lemma_pow10((places - fraction_digits(text@).len()) as nat);
                lemma_capped_product(w, pw);
                lemma_capped_product(f, pf);
            }
            let sum: u64 = high + low;
            Some(if sum > DIGITS_CAP { DIGITS_CAP } else { sum })
        },
        _ => None,
    }
}

/// A number stopped at `DIGITS_CAP` and then multiplied and stopped again
/// is the product stopped once.
proof fn lemma_capped_product(x: int, power: int)
    requires
        x >= 0,
        power >= 1,
    ensures
        smaller(smaller(x, DIGITS_CAP as int) * power, DIGITS_CAP as int) == smaller(
            x * power,
            DIGITS_CAP as int,
        ),
        x * power >= 0,
{
    let cap = DIGITS_CAP as int;
    assert(x * power >= x && cap * power >= cap) by (nonlinear_arith)
        requires
            x >= 0,
            cap >= 0,
            power >= 1,
    ;
}

/// Gives a magnitude its sign, if it is below `DIGITS_CAP`.
fn signed(negative: bool, size: u64) -> (number: Option<i64>)
    requires
        size <= DIGITS_CAP,
    ensures
        number is Some == (size < DIGITS_CAP),
        number matches Some(x) ==> x == if negative {
            -(size as int)
        } else {
            size as int
        },
{
    if size >= DIGITS_CAP {
        None
    } else if negative {
        Some(-(size as i64))
    } else {
        Some(size as i64)
    }
}

/// Reads the three coefficients of an equation, each an optional sign,
/// digits and, optionally, a point and more digits, as whole numbers of one
/// unit: of the largest unit that all three are whole numbers of, so that
/// `1`, `-0.5` and `0.125` are read as `1000`, `-500` and `125`.
///
/// The texts are refused as `Malformed` if one of them writes no number,
/// and otherwise as `OutOfRange` if one of the whole numbers has more than
/// eighteen digits.
pub fn read_equation(a: &str, b: &str, c: &str) -> (result: Result<(i64, i64, i64), ParseError>)
    ensures
        result == equation_read(a@, b@, c@),
{
    if !(a.is_ascii() && b.is_ascii() && c.is_ascii()) {
        proof {
            if is_number(a@) && is_number(b@) && is_number(c@) {
                lemma_number_is_ascii(a@);
                lemma_number_is_ascii(b@);
                lemma_number_is_ascii(c@);
            }
        }
        return Err(ParseError::Malformed);
    }
    let first = lay_out(a);
    let second = lay_out(b);
    let third = lay_out(c);
    let fa: usize = first.end - first.point;
    let fb: usize = second.end - second.point;
    let fc: usize = third.end - third.point;
    // each is one more than the number of digits after the point, or zero
    let most: usize = if fa >= fb && fa >= fc {
        fa
    } else if fb >= fc {
        fb
    } else {
        fc
    };
    let places: usize = if most == 0 {
        0
    } else {
        most - 1
    };
    assert(places == equation_places(a@, b@, c@));
    let x = read_in_units(a, &first, places);
    let y = read_in_units(b, &second, places);
    let z = read_in_units(c, &third, places);
    match (x, y, z) {
        (Some(x), Some(y), Some(z)) => {
            match (signed(first.negative, x), signed(second.negative, y), signed(third.negative, z)) {
                (Some(x), Some(y), Some(z)) => Ok((x, y, z)),
                _ => Err(ParseError::OutOfRange),
            }
        },
        _ => Err(ParseError::Malformed),
    }
}

/// The text of `read_error_message`.
pub open spec fn read_error_text(error: ParseError) -> Seq<char> {
    match error {
        ParseError::Malformed => "ERROR: Parameters must be numbers."@,
        ParseError::OutOfRange => "ERROR: Parameters are too large, or differ too much in size."@,
    }
}

/// A message that says why the coefficients were not read.
pub fn read_error_message(error: &ParseError) -> (message: &'static str)
    ensures
        message@ == read_error_text(*error),
{
    match error {
        ParseError::Malformed => "ERROR: Parameters must be numbers.",
        ParseError::OutOfRange => "ERROR: Parameters are too large, or differ too much in size.",
    }
}

} // verus!
