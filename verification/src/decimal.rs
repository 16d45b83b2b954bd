//! Decimal numbers with four fractional digits, and their text form.

use vstd::prelude::*;
use vstd::string::StringExecFns;

verus! {

/// How many units make one: a `Decimal` counts ten-thousandths.
pub const SCALE: i64 = 10_000;

/// A number with exactly four fractional digits, held as a count of
/// ten-thousandths: `units == 25_000` is 2.5.
#[derive(Clone, Copy, Debug, PartialEq, Eq, Structural)]
pub struct Decimal {
    pub units: i64,
}

impl View for Decimal {
    type V = int;

    /// The number of ten-thousandths.
    open spec fn view(&self) -> int {
        self.units as int
    }
}

/// The character that writes the digit `d`.
pub open spec fn digit_char(d: int) -> char {
    ((d + 48) as u8) as char
}

/// The digits of `n`, the most significant first, without leading zeros:
/// one `0` for zero.
pub open spec fn digits(n: nat) -> Seq<char>
    decreases n,
{
    if n < 10 {
        seq![digit_char(n as int)]
    } else {
        digits(n / 10).push(digit_char((n % 10) as int))
    }
}

/// The four digits of `n < 10000`, leading zeros included.
pub open spec fn fraction_digits(n: nat) -> Seq<char> {
    seq![
        digit_char((n / 1000 % 10) as int),
        digit_char((n / 100 % 10) as int),
        digit_char((n / 10 % 10) as int),
        digit_char((n % 10) as int),
    ]
}

/// The text of a number of `size` units with a minus sign before it or
/// none: the digits of the whole part, a point, and four fractional
/// digits, as in `-0.5000`.
pub open spec fn signed_text(negative: bool, size: nat) -> Seq<char> {
    let sign = if negative {
        seq!['-']
    } else {
        Seq::<char>::empty()
    };
    sign + digits(size / 10_000) + seq!['.'] + fraction_digits(size % 10_000)
}

/// The text of the decimal with so many units, with a minus sign if it is
/// negative.
pub open spec fn decimal_text(units: int) -> Seq<char> {
    if units < 0 {
        signed_text(true, (-units) as nat)
    } else {
        signed_text(false, units as nat)
    }
}

/// Whether `c` is one of the ten digits.
pub open spec fn is_digit(c: char) -> bool {
    '0' <= c && c <= '9'
}

/// The number that the digit `c` writes.
pub open spec fn digit_value(c: char) -> int {
    c as int - 48
}

/// Whether `s` holds digits only.
pub open spec fn all_digits(s: Seq<char>) -> bool {
    forall|i: int| 0 <= i < s.len() ==> is_digit(#[trigger] s[i])
}

/// The number that a run of digits writes; zero for the empty run.
pub open spec fn digits_value(s: Seq<char>) -> nat
    decreases s.len(),
{
    if s.len() == 0 {
        0
    } else {
        (digits_value(s.drop_last()) * 10 + digit_value(s.last())) as nat
    }
}

/// Whether `s` begins with a sign.
pub open spec fn has_sign(s: Seq<char>) -> bool {
    s.len() > 0 && (s[0] == '-' || s[0] == '+')
}

/// `s` without its sign, if it has one.
pub open spec fn unsigned_part(s: Seq<char>) -> Seq<char> {
    if has_sign(s) {
        s.subrange(1, s.len() as int)
    } else {
        s
    }
}

/// How many characters follow the point, where the point is one of the
/// four characters before the last; zero where there is no such point.
pub open spec fn fraction_len(u: Seq<char>) -> int {
    if u.len() >= 2 && u[u.len() - 2] == '.' {
        1
    } else if u.len() >= 3 && u[u.len() - 3] == '.' {
        2
    } else if u.len() >= 4 && u[u.len() - 4] == '.' {
        3
    } else if u.len() >= 5 && u[u.len() - 5] == '.' {
        4
    } else {
        0
    }
}

/// What stands before the point, or all of `u` where there is no point.
pub open spec fn whole_part(u: Seq<char>) -> Seq<char> {
    if fraction_len(u) == 0 {
        u
    } else {
        u.subrange(0, u.len() - fraction_len(u) - 1)
    }
}

/// What stands after the point; empty where there is no point.
pub open spec fn fraction_part(u: Seq<char>) -> Seq<char> {
    u.subrange(u.len() - fraction_len(u), u.len() as int)
}

/// How many units the last of `len` fractional digits counts.
pub open spec fn fraction_weight(len: int) -> int {
    if len == 1 {
        1000
    } else if len == 2 {
        100
    } else if len == 3 {
        10
    } else {
        1
    }
}

/// Whether `s` writes a decimal number: an optional sign, one or more
/// digits and, optionally, a point followed by one to four digits.
pub open spec fn is_decimal_literal(s: Seq<char>) -> bool {
    let u = unsigned_part(s);
    whole_part(u).len() > 0 && all_digits(whole_part(u)) && all_digits(fraction_part(u))
}

/// The units of the number that the decimal literal `s` writes.
pub open spec fn literal_units(s: Seq<char>) -> int {
    let u = unsigned_part(s);
    let size = digits_value(whole_part(u)) * 10_000 + digits_value(fraction_part(u))
        * fraction_weight(fraction_len(u));
    if s[0] == '-' {
        -size
    } else {
        size
    }
}

/// Why a text was not read as a `Decimal`.
#[derive(Clone, Copy, Debug, PartialEq, Eq, Structural)]
pub enum ParseError {
    /// The text is no decimal literal.
    Malformed,
    /// The text is a decimal literal of a number too large for a `Decimal`.
    OutOfRange,
}

impl ParseError {
    /// The text of `message`.
    pub open spec fn message_text(self) -> Seq<char> {
        match self {
            ParseError::Malformed => "ERROR: Expected a number with at most four fractional digits."@,
            ParseError::OutOfRange => "ERROR: The number is too large."@,
        }
    }

    /// A message that says why the text was not read.
    pub fn message(&self) -> (message: &'static str)
        ensures
            message@ == self.message_text(),
    {
        match self {
            ParseError::Malformed => "ERROR: Expected a number with at most four fractional digits.",
            ParseError::OutOfRange => "ERROR: The number is too large.",
        }
    }
}

/// What `Decimal::parse` returns for a text.
pub open spec fn parsed(s: Seq<char>) -> Result<Decimal, ParseError> {
    if !is_decimal_literal(s) {
        Err(ParseError::Malformed)
    } else if !(i64::MIN <= literal_units(s) <= i64::MAX) {
        Err(ParseError::OutOfRange)
    } else {
        Ok(Decimal { units: literal_units(s) as i64 })
    }
}

/// Appending a digit to a run multiplies its number by ten and adds the
/// digit.
pub proof fn lemma_digits_value_push(s: Seq<char>, c: char)
    requires
        is_digit(c),
    ensures
        digits_value(s.push(c)) == digits_value(s) * 10 + digit_value(c),
{
    assert(s.push(c).drop_last() =~= s);
}

/// The digits of `n` are digits, at least one, and write `n`.
pub proof fn lemma_digits(n: nat)
    ensures
        digits(n).len() >= 1,
        all_digits(digits(n)),
        digits_value(digits(n)) == n,
    decreases n,
{
    if n < 10 {
        lemma_digits_value_push(Seq::<char>::empty(), digit_char(n as int));
        assert(digits(n) =~= Seq::<char>::empty().push(digit_char(n as int)));
    } else {
        lemma_digits(n / 10);
        lemma_digits_value_push(digits(n / 10), digit_char((n % 10) as int));
    }
}

/// The four fractional digits of `n < 10000` are digits and write `n`.
pub proof fn lemma_fraction_digits(n: nat)
    requires
        n < 10_000,
    ensures
        fraction_digits(n).len() == 4,
        all_digits(fraction_digits(n)),
        digits_value(fraction_digits(n)) == n,
{
    let d3 = digit_char((n / 1000 % 10) as int);
    let d2 = digit_char((n / 100 % 10) as int);
    let d1 = digit_char((n / 10 % 10) as int);
    let d0 = digit_char((n % 10) as int);
    let s0 = Seq::<char>::empty();
    lemma_digits_value_push(s0, d3);
    lemma_digits_value_push(s0.push(d3), d2);
    lemma_digits_value_push(s0.push(d3).push(d2), d1);
    lemma_digits_value_push(s0.push(d3).push(d2).push(d1), d0);
    assert(fraction_digits(n) =~= s0.push(d3).push(d2).push(d1).push(d0));
}

/// Reading what was written gives the number back: a signed text is a
/// decimal literal, and the literal writes that number with that sign.
pub proof fn lemma_signed_text_round_trip(negative: bool, size: nat)
    ensures
        is_decimal_literal(signed_text(negative, size)),
        literal_units(signed_text(negative, size)) == if negative {
            -(size as int)
        } else {
            size as int
        },
{
    let whole = digits(size / 10_000);
    let fraction = fraction_digits(size % 10_000);
    let text = signed_text(negative, size);
    let rest = whole + seq!['.'] + fraction;
    lemma_digits(size / 10_000);
    lemma_fraction_digits(size % 10_000);
    assert(is_digit(whole[0]));
    assert(is_digit(fraction[0]) && is_digit(fraction[1]) && is_digit(fraction[2]) && is_digit(
        fraction[3],
    ));
    if negative {
        assert(text =~= seq!['-'] + rest);
        assert(text[0] == '-');
        assert(unsigned_part(text) =~= rest);
    } else {
        assert(text =~= rest);
        assert(text[0] == whole[0]);
        assert(unsigned_part(text) =~= rest);
    }
    let n = rest.len() as int;
    assert(rest[n - 2] == fraction[2]);
    assert(rest[n - 3] == fraction[1]);
    assert(rest[n - 4] == fraction[0]);
    assert(rest[n - 5] == '.');
    assert(fraction_len(rest) == 4);
    assert(whole_part(rest) =~= whole);
    assert(fraction_part(rest) =~= fraction);
}

/// The text of a decimal is a decimal literal that writes the decimal.
pub proof fn lemma_text_round_trip(units: int)
    ensures
        is_decimal_literal(decimal_text(units)),
        literal_units(decimal_text(units)) == units,
{
    if units < 0 {
        lemma_signed_text_round_trip(true, (-units) as nat);
    } else {
        lemma_signed_text_round_trip(false, units as nat);
    }
}

/// A signed text holds a minus sign, digits and a point, and so no comma.
pub proof fn lemma_signed_text_has_no_comma(negative: bool, size: nat)
    ensures
        forall|i: int|
            0 <= i < signed_text(negative, size).len() ==> signed_text(negative, size)[i] != ',',
{
    let whole = digits(size / 10_000);
    let fraction = fraction_digits(size % 10_000);
    lemma_digits(size / 10_000);
    lemma_fraction_digits(size % 10_000);
    let text = signed_text(negative, size);
    let sign = (text.len() - whole.len() - 5) as int;
    assert forall|i: int| 0 <= i < text.len() implies text[i] != ',' by {
        if i < sign {
            assert(text[i] == '-');
        } else if i < sign + whole.len() {
            assert(text[i] == whole[i - sign]);
            assert(is_digit(whole[i - sign]));
        } else if i == sign + whole.len() {
            assert(text[i] == '.');
        } else {
            let j = i - sign - whole.len() - 1;
            assert(text[i] == fraction[j]);
            assert(is_digit(fraction[j]));
        }
    }
}

/// The text of a `Decimal` is read back as that `Decimal`.
pub proof fn lemma_parse_inverts_text(d: Decimal)
    ensures
        parsed(decimal_text(d@)) == Ok::<Decimal, ParseError>(d),
{
    lemma_text_round_trip(d@);
}

/// The text of one digit.
fn digit_text(d: u64) -> (text: &'static str)
    requires
        d < 10,
    ensures
        text@ == seq![digit_char(d as int)],
{
    proof {
        reveal_strlit("0");
        reveal_strlit("1");
        reveal_strlit("2");
        reveal_strlit("3");
        reveal_strlit("4");
        reveal_strlit("5");
        reveal_strlit("6");
        reveal_strlit("7");
        reveal_strlit("8");
        reveal_strlit("9");
    }
    let text = if d == 0 {
        "0"
    } else if d == 1 {
        "1"
    } else if d == 2 {
        "2"
    } else if d == 3 {
        "3"
    } else if d == 4 {
        "4"
    } else if d == 5 {
        "5"
    } else if d == 6 {
        "6"
    } else if d == 7 {
        "7"
    } else if d == 8 {
        "8"
    } else {
        "9"
    };
    assert(text@ =~= seq![digit_char(d as int)]);
    text
}

/// Appends the digits of `n` to `text`.
fn push_digits(text: &mut String, n: u64)
    ensures
        final(text)@ == old(text)@ + digits(n as nat),
    decreases n,
{
    if n >= 10 {
        push_digits(text, n / 10);
    }
    text.append(digit_text(n % 10));
    assert(final(text)@ =~= old(text)@ + digits(n as nat));
}

/// Where `read_digits` stops counting: a run of digits that writes this
/// much or more is reported as this much.
pub const DIGITS_CAP: u64 = 1_000_000_000_000_000_000;

/// The smaller of two numbers.
pub open spec fn smaller(x: int, y: int) -> int {
    if x <= y {
        x
    } else {
        y
    }
}

/// A decimal literal holds ASCII characters only.
pub proof fn lemma_literal_is_ascii(s: Seq<char>)
    requires
        is_decimal_literal(s),
    ensures
        vstd::utf8::is_ascii_chars(s),
{
    let u = unsigned_part(s);
    let start = s.len() - u.len();
    let k = fraction_len(u);
    assert forall|i: int| 0 <= i < s.len() implies '\0' <= #[trigger] s[i] <= '\u{7f}' by {
        if i >= start {
            let j = i - start;
            assert(s[i] == u[j]);
            if k == 0 {
                assert(is_digit(whole_part(u)[j]));
            } else if j < u.len() - k - 1 {
                assert(is_digit(whole_part(u)[j]));
            } else if j >= u.len() - k {
                assert(is_digit(fraction_part(u)[j - (u.len() - k)]));
            }
        }
    }
}

/// A run of at most four digits writes less than ten thousand.
proof fn lemma_short_run(s: Seq<char>)
    requires
        all_digits(s),
        s.len() <= 4,
    ensures
        digits_value(s) < 10_000,
        s.len() <= 3 ==> digits_value(s) < 1000,
        s.len() <= 2 ==> digits_value(s) < 100,
        s.len() <= 1 ==> digits_value(s) < 10,
        s.len() == 0 ==> digits_value(s) == 0,
    decreases s.len(),
{
    if s.len() > 0 {
        assert(is_digit(s.last()));
        lemma_short_run(s.drop_last());
    }
}

/// Reads the digits of `text` from `from` up to `to`: `None` if a character
/// there is no digit, else the number they write, or `DIGITS_CAP` if that
/// is smaller.
pub(crate) fn read_digits(text: &str, from: usize, to: usize) -> (run: Option<u64>)
    requires
        text.is_ascii(),
        from <= to <= text@.len(),
    ensures
        run is Some == all_digits(text@.subrange(from as int, to as int)),
        run matches Some(v) ==> v == smaller(
            digits_value(text@.subrange(from as int, to as int)) as int,
            DIGITS_CAP as int,
        ),
{
    let mut i: usize = from;
    let mut value: u64 = 0;
    while i < to
        invariant
            text.is_ascii(),
            from <= i <= to <= text@.len(),
            all_digits(text@.subrange(from as int, i as int)),
            value == smaller(
                digits_value(text@.subrange(from as int, i as int)) as int,
                DIGITS_CAP as int,
            ),
        decreases to - i,
    {
        let b: u8 = text.get_ascii(i);
        let ghost before = text@.subrange(from as int, i as int);
        let ghost after = text@.subrange(from as int, i + 1);
        proof {
            assert(after.drop_last() =~= before);
            assert(after.last() == text@[i as int]);
            assert('\0' <= text@[i as int] <= '\u{7f}');
        }
        if b < 48 || b > 57 {
            proof {
                let whole = text@.subrange(from as int, to as int);
                assert(whole[i - from] == text@[i as int]);
                assert(!is_digit(whole[i - from]));
            }
            return None;
        }
        if value < DIGITS_CAP {
            value = value * 10 + (b - 48) as u64;
            if value > DIGITS_CAP {
                value = DIGITS_CAP;
            }
        }
        i = i + 1;
        proof {
            assert(all_digits(after)) by {
                assert forall|j: int| 0 <= j < after.len() implies is_digit(#[trigger] after[j]) by {
                    if j < before.len() {
                        assert(after[j] == before[j]);
                    }
                }
            }
        }
    }
    Some(value)
}

/// The number of characters of an ASCII text.
pub(crate) fn ascii_len(text: &str) -> (len: usize)
    requires
        text.is_ascii(),
    ensures
        len == text@.len(),
{
    proof {
        vstd::string::is_ascii_spec_bytes(text);
    }
    text.as_bytes().len()
}

/// Whether the character of `text` at `at` is the one with the code `code`.
pub(crate) fn holds(text: &str, at: usize, code: u8) -> (same: bool)
    requires
        text.is_ascii(),
        at < text@.len(),
        code < 128,
    ensures
        same == (text@[at as int] as int == code),
{
    assert('\0' <= text@[at as int] <= '\u{7f}');
    text.get_ascii(at) == code
}

/// How many characters follow the point in what `text` holds from `start`
/// on.
fn fraction_size(text: &str, start: usize) -> (size: usize)
    requires
        text.is_ascii(),
        start <= text@.len(),
    ensures
        size == fraction_len(text@.subrange(start as int, text@.len() as int)),
        size <= 4,
        size > 0 ==> size + 1 <= text@.len() - start,
{
    let len: usize = ascii_len(text);
    let rest: usize = len - start;
    let ghost u = text@.subrange(start as int, len as int);
    proof {
        if rest >= 2 {
            assert(u[u.len() - 2] == text@[len - 2]);
        }
        if rest >= 3 {
            assert(u[u.len() - 3] == text@[len - 3]);
        }
        if rest >= 4 {
            assert(u[u.len() - 4] == text@[len - 4]);
        }
        if rest >= 5 {
            assert(u[u.len() - 5] == text@[len - 5]);
        }
    }
    if rest >= 2 && holds(text, len - 2, 46) {
        1
    } else if rest >= 3 && holds(text, len - 3, 46) {
        2
    } else if rest >= 4 && holds(text, len - 4, 46) {
        3
    } else if rest >= 5 && holds(text, len - 5, 46) {
        4
    } else {
        0
    }
}

/// Puts a number together from its sign, the number before the point and
/// the fractional digits after it.
fn assemble(negative: bool, whole: u64, part: u64, digits: usize) -> (result: Result<
    Decimal,
    ParseError,
>)
    requires
        whole <= DIGITS_CAP,
        part * fraction_weight(digits as int) < 10_000,
    ensures
        ({
            let size = whole * 10_000 + part * fraction_weight(digits as int);
            let units = if negative {
                -size
            } else {
                size
            };
            result == if i64::MIN <= units <= i64::MAX {
                Ok::<Decimal, ParseError>(Decimal { units: units as i64 })
            } else {
                Err::<Decimal, ParseError>(ParseError::OutOfRange)
            }
        }),
{
    let weight: u64 = if digits == 1 {
        1000
    } else if digits == 2 {
        100
    } else if digits == 3 {
        10
    } else {
        1
    };
    if whole > 922_337_203_685_477 {
        return Err(ParseError::OutOfRange);
    }
    let size: u64 = whole * 10_000 + part * weight;
    if negative {
        if size > 9_223_372_036_854_775_808 {
            return Err(ParseError::OutOfRange);
        }
        Ok(Decimal { units: (-(size as i128)) as i64 })
    } else {
        if size > 9_223_372_036_854_775_807 {
            return Err(ParseError::OutOfRange);
        }
        Ok(Decimal { units: size as i64 })
    }
}

impl Decimal {
    /// Reads a decimal literal: an optional sign, one or more digits and,
    /// optionally, a point followed by one to four digits.
    ///
    /// A text that is no such literal is refused as `Malformed`, and a
    /// literal of a number that no `Decimal` holds as `OutOfRange`.
    pub fn parse(text: &str) -> (result: Result<Decimal, ParseError>)
        ensures
            result == parsed(text@),
    {
        if !text.is_ascii() {
            proof {
                if is_decimal_literal(text@) {
                    lemma_literal_is_ascii(text@);
                }
            }
            return Err(ParseError::Malformed);
        }
        let len: usize = ascii_len(text);
        let negative: bool = len > 0 && holds(text, 0, 45);
        let start: usize = if negative || (len > 0 && holds(text, 0, 43)) {
            1
        } else {
            0
        };
        let ghost u = unsigned_part(text@);
        assert(u =~= text@.subrange(start as int, len as int));
        let fraction: usize = fraction_size(text, start);
        let whole_end: usize = if fraction == 0 {
            len
        } else {
            len - fraction - 1
        };
        assert(whole_part(u) =~= text@.subrange(start as int, whole_end as int));
        assert(fraction_part(u) =~= text@.subrange(len - fraction, len as int));
        if whole_end == start {
            return Err(ParseError::Malformed);
        }
        let whole_run = read_digits(text, start, whole_end);
        let fraction_run = read_digits(text, len - fraction, len);
        match (whole_run, fraction_run) {
            (Some(whole), Some(part)) => {
                proof {
                    lemma_short_run(fraction_part(u));
                    assert(fraction_part(u).len() == fraction);
                    let weight = fraction_weight(fraction as int);
                    assert(part * weight < 10_000) by (nonlinear_arith)
                        requires
                            (weight == 1000 && part < 10) || (weight == 100 && part < 100) || (
                            weight == 10 && part < 1000) || (weight == 1 && part < 10_000),
                    ;
                    let value = digits_value(whole_part(u)) as int;
                    if value > DIGITS_CAP {
                        assert(value * 10_000 + part * fraction_weight(fraction as int)
                            > i64::MAX + 1);
                    }
                }
                assemble(negative, whole, part, fraction)
            },
            _ => Err(ParseError::Malformed),
        }
    }

    /// The decimal of so many ten-thousandths.
    pub fn from_units(units: i64) -> (d: Decimal)
        ensures
            d@ == units,
    {
        Decimal { units }
    }

    /// Writes the number with four fractional digits: a text that `parse`
    /// reads as this number.
    pub fn to_text(&self) -> (text: String)
        ensures
            text@ == decimal_text(self@),
            parsed(text@) == Ok::<Decimal, ParseError>(*self),
    {
        proof {
            lemma_parse_inverts_text(*self);
        }
        let negative = self.units < 0;
        let size: u64 = if negative {
            (-(self.units as i128)) as u64
        } else {
            self.units as u64
        };
        write_signed(negative, size)
    }
}

/// Writes a number of `size` units with four fractional digits, after a
/// minus sign where `negative` says so.
pub fn write_signed(negative: bool, size: u64) -> (text: String)
    ensures
        text@ == signed_text(negative, size as nat),
{
    let mut text = String::new();
    if negative {
        proof {
            reveal_strlit("-");
        }
        text.append("-");
    }
    push_digits(&mut text, size / 10_000);
    proof {
        reveal_strlit(".");
    }
    text.append(".");
    let fraction: u64 = size % 10_000;
    text.append(digit_text(fraction / 1000 % 10));
    text.append(digit_text(fraction / 100 % 10));
    text.append(digit_text(fraction / 10 % 10));
    text.append(digit_text(fraction % 10));
    assert(text@ =~= signed_text(negative, size as nat));
    text
}

} // verus!
