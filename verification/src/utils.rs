//! The text forms of a solver's results: the lines shown to a reader, the
//! one-line record kept in a file, and the messages about that file. Here
//! the exact roots are rounded to four fractional digits.

use vstd::prelude::*;
use vstd::string::{StrSliceExecFns, StringExecFns};
use crate::decimal::{
    decimal_text, is_decimal_literal, lemma_literal_is_ascii, lemma_parse_inverts_text,
    lemma_signed_text_has_no_comma, lemma_signed_text_round_trip, parsed, signed_text,
    write_signed, Decimal, ParseError,
};
use crate::quadratic::{
    lemma_rounded_in_range, lemma_rounded_sign, magnitude, QuadraticRoots, Surd,
};

verus! {

/// Which kind of roots a record holds.
#[derive(Clone, Copy, Debug, PartialEq, Eq, Structural)]
pub enum RootKind {
    /// Two real roots; written `r`.
    Real,
    /// A complex root and its conjugate; written `c`.
    Complex,
}

/// What a record keeps of the roots: their kind and two numbers with four
/// fractional digits. For real roots the numbers are the two roots; for
/// complex roots they are the real and the imaginary part of the first
/// root, whose conjugate is the second root.
#[derive(Clone, Copy, Debug, PartialEq, Eq, Structural)]
pub struct RootRecord {
    pub kind: RootKind,
    pub first: Decimal,
    pub second: Decimal,
}

/// The decimal of so many units.
pub open spec fn decimal_of(units: int) -> Decimal {
    Decimal { units: units as i64 }
}

/// The text of an exact number, rounded to the nearest ten-thousandth
/// with a value halfway between two going to the one with an even last
/// digit: a minus sign if the number is below zero, whatever it rounds to,
/// then the rounded magnitude with four fractional digits.
pub open spec fn rounded_text(number: Surd) -> Seq<char> {
    signed_text(number.is_negative(), magnitude(number.rounded()) as nat)
}

/// The record of the roots: their kind, and the two numbers that a record
/// keeps of them, rounded to the nearest ten-thousandth.
pub open spec fn record_of(roots: QuadraticRoots) -> RootRecord {
    match roots {
        QuadraticRoots::Real((first, second)) => RootRecord {
            kind: RootKind::Real,
            first: decimal_of(first.rounded()),
            second: decimal_of(second.rounded()),
        },
        QuadraticRoots::NotReal((root, _)) => RootRecord {
            kind: RootKind::Complex,
            first: decimal_of(root.re.rounded()),
            second: decimal_of(root.im.rounded()),
        },
    }
}

/// The tag of a kind in a record.
pub open spec fn kind_tag(kind: RootKind) -> char {
    match kind {
        RootKind::Real => 'r',
        RootKind::Complex => 'c',
    }
}

/// The line of a record with the texts of its two numbers: the version,
/// the kind and the two texts, with commas between, as in
/// `v1,r,5.0000,2.0000`.
pub open spec fn line_text(kind: RootKind, first: Seq<char>, second: Seq<char>) -> Seq<char> {
    seq!['v', '1', ',', kind_tag(kind), ','] + first + seq![','] + second
}

/// The line that a record makes.
pub open spec fn record_text(record: RootRecord) -> Seq<char> {
    line_text(record.kind, decimal_text(record.first@), decimal_text(record.second@))
}

/// The line that records the roots: their kind, and the rounded texts of
/// the two numbers that a record keeps of them.
pub open spec fn results_line(roots: QuadraticRoots) -> Seq<char> {
    match roots {
        QuadraticRoots::Real((first, second)) => line_text(
            RootKind::Real,
            rounded_text(first),
            rounded_text(second),
        ),
        QuadraticRoots::NotReal((root, _)) => line_text(
            RootKind::Complex,
            rounded_text(root.re),
            rounded_text(root.im),
        ),
    }
}

/// The heading over the roots.
pub open spec fn heading_text(roots: QuadraticRoots) -> Seq<char> {
    match roots {
        QuadraticRoots::Real(_) => "Real Quadratic Roots:"@,
        QuadraticRoots::NotReal(_) => "Complex Quadratic Roots:"@,
    }
}

/// The two lines that show the roots to a reader, each number rounded to
/// four fractional digits. The imaginary part of the first complex root
/// follows a plus sign, that of the second stands with its own sign.
pub open spec fn roots_text(roots: QuadraticRoots) -> Seq<char> {
    match roots {
        QuadraticRoots::Real((first, second)) => "Root1: "@ + rounded_text(first) + "\nRoot2: "@
            + rounded_text(second),
        QuadraticRoots::NotReal((first, second)) => "Root1: "@ + rounded_text(first.re) + " +"@
            + rounded_text(first.im) + "i\nRoot2: "@ + rounded_text(second.re) + " "@
            + rounded_text(second.im) + "i"@,
    }
}

/// Where the field that begins at `from` ends: at the next comma, or at
/// the end of `s`.
pub open spec fn field_end(s: Seq<char>, from: int) -> int
    decreases s.len() - from,
{
    if from < 0 || from >= s.len() || s[from] == ',' {
        from
    } else {
        field_end(s, from + 1)
    }
}

/// Whether `s` has the form of a record: the version `v1`, a kind `r` or
/// `c`, and two more fields, with commas between.
pub open spec fn has_record_form(s: Seq<char>) -> bool {
    &&& s.len() >= 5
    &&& s[0] == 'v'
    &&& s[1] == '1'
    &&& s[2] == ','
    &&& (s[3] == 'r' || s[3] == 'c')
    &&& s[4] == ','
    &&& field_end(s, 5) < s.len()
}

/// The kind that a tag stands for.
pub open spec fn tagged_kind(tag: char) -> RootKind {
    if tag == 'r' {
        RootKind::Real
    } else {
        RootKind::Complex
    }
}

/// The first number's field of a line that has the form of a record.
pub open spec fn first_field(s: Seq<char>) -> Seq<char> {
    s.subrange(5, field_end(s, 5))
}

/// The second number's field of a line that has the form of a record: all
/// that follows the first number's comma.
pub open spec fn second_field(s: Seq<char>) -> Seq<char> {
    s.subrange(field_end(s, 5) + 1, s.len() as int)
}

/// What `parse_record` returns for a line: the record, if the line has the
/// form of a record and both numbers are read; `Malformed`, if it has not
/// that form or a number's field is no decimal literal; else `OutOfRange`.
pub open spec fn parsed_record(s: Seq<char>) -> Result<RootRecord, ParseError> {
    if !has_record_form(s) {
        Err(ParseError::Malformed)
    } else {
        match (parsed(first_field(s)), parsed(second_field(s))) {
            (Ok(first), Ok(second)) => Ok(RootRecord { kind: tagged_kind(s[3]), first, second }),
            (first, second) => if first == Err::<Decimal, ParseError>(ParseError::Malformed)
                || second == Err::<Decimal, ParseError>(ParseError::Malformed) {
                Err(ParseError::Malformed)
            } else {
                Err(ParseError::OutOfRange)
            },
        }
    }
}

/// A field ends at the first comma after its beginning.
pub proof fn lemma_field_end(s: Seq<char>, from: int, end: int)
    requires
        0 <= from <= end <= s.len(),
        forall|i: int| from <= i < end ==> s[i] != ',',
        end < s.len() ==> s[end] == ',',
    ensures
        field_end(s, from) == end,
    decreases end - from,
{
    if from < end {
        lemma_field_end(s, from + 1, end);
    }
}

/// A line put together from a kind and two texts, the first without a
/// comma, has the form of a record with these texts as its fields.
pub proof fn lemma_line_fields(kind: RootKind, first: Seq<char>, second: Seq<char>)
    requires
        forall|i: int| 0 <= i < first.len() ==> first[i] != ',',
    ensures
        has_record_form(line_text(kind, first, second)),
        tagged_kind(line_text(kind, first, second)[3]) == kind,
        first_field(line_text(kind, first, second)) == first,
        second_field(line_text(kind, first, second)) == second,
{
    let line = line_text(kind, first, second);
    let comma = 5 + first.len() as int;
    assert(line.len() == 5 + first.len() + 1 + second.len());
    assert forall|i: int| 5 <= i < comma implies line[i] != ',' by {
        assert(line[i] == first[i - 5]);
    }
    assert(line[comma] == ',');
    lemma_field_end(line, 5, comma);
    assert(first_field(line) =~= first);
    assert(second_field(line) =~= second);
    assert(line[0] == 'v' && line[1] == '1' && line[2] == ',' && line[4] == ',');
    assert(line[3] == kind_tag(kind));
}

/// The rounded text of a number is read as the rounded number.
pub proof fn lemma_rounded_text_round_trip(number: Surd)
    requires
        number.wf(),
    ensures
        parsed(rounded_text(number)) == Ok::<Decimal, ParseError>(decimal_of(number.rounded())),
        forall|i: int| 0 <= i < rounded_text(number).len() ==> rounded_text(number)[i] != ',',
{
    let size = magnitude(number.rounded()) as nat;
    lemma_rounded_sign(number);
    lemma_rounded_in_range(number);
    lemma_signed_text_round_trip(number.is_negative(), size);
    lemma_signed_text_has_no_comma(number.is_negative(), size);
}

/// Reading the line of a record gives the record back.
pub proof fn lemma_record_round_trip(record: RootRecord)
    ensures
        parsed_record(record_text(record)) == Ok::<RootRecord, ParseError>(record),
{
    let first = decimal_text(record.first@);
    let second = decimal_text(record.second@);
    if record.first@ < 0 {
        lemma_signed_text_has_no_comma(true, (-record.first@) as nat);
    } else {
        lemma_signed_text_has_no_comma(false, record.first@ as nat);
    }
    lemma_line_fields(record.kind, first, second);
    lemma_parse_inverts_text(record.first);
    lemma_parse_inverts_text(record.second);
}

/// The line that records the roots is read back as their record: both
/// numbers return as they were, to four fractional digits.
pub proof fn lemma_results_round_trip(roots: QuadraticRoots)
    requires
        roots.wf(),
    ensures
        parsed_record(results_line(roots)) == Ok::<RootRecord, ParseError>(record_of(roots)),
{
    match roots {
        QuadraticRoots::Real((first, second)) => {
            lemma_rounded_text_round_trip(first);
            lemma_rounded_text_round_trip(second);
            lemma_line_fields(RootKind::Real, rounded_text(first), rounded_text(second));
        },
        QuadraticRoots::NotReal((root, _)) => {
            lemma_rounded_text_round_trip(root.re);
            lemma_rounded_text_round_trip(root.im);
            lemma_line_fields(RootKind::Complex, rounded_text(root.re), rounded_text(root.im));
        },
    }
}

/// The heading that names the kind of the roots.
pub fn results_heading(roots: &QuadraticRoots) -> (heading: &'static str)
    ensures
        heading@ == heading_text(*roots),
{
    match roots {
        QuadraticRoots::Real(_) => "Real Quadratic Roots:",
        QuadraticRoots::NotReal(_) => "Complex Quadratic Roots:",
    }
}

/// Writes an exact number rounded to four fractional digits: a text that
/// `Decimal::parse` reads as the rounded number.
pub fn root_text(number: &Surd) -> (text: String)
    requires
        number.wf(),
    ensures
        text@ == rounded_text(*number),
        parsed(text@) == Ok::<Decimal, ParseError>(decimal_of(number.rounded())),
{
    proof {
        lemma_rounded_text_round_trip(*number);
    }
    let negative = number.negative();
    let nearest = number.round();
    let size: u64 = if nearest.units < 0 {
        (-nearest.units) as u64
    } else {
        nearest.units as u64
    };
    write_signed(negative, size)
}

/// Writes the roots for a reader, one to a line, each number rounded to
/// four fractional digits.
pub fn results_text(roots: &QuadraticRoots) -> (text: String)
    requires
        roots.wf(),
    ensures
        text@ == roots_text(*roots),
{
    let mut text = String::from_str("Root1: ");
    match roots {
        QuadraticRoots::Real((first, second)) => {
            text.append(root_text(first).as_str());
            text.append("\nRoot2: ");
            text.append(root_text(second).as_str());
        },
        QuadraticRoots::NotReal((first, second)) => {
            text.append(root_text(&first.re).as_str());
            text.append(" +");
            text.append(root_text(&first.im).as_str());
            text.append("i\nRoot2: ");
            text.append(root_text(&second.re).as_str());
            text.append(" ");
            text.append(root_text(&second.im).as_str());
            text.append("i");
        },
    }
    text
}

/// The record of the roots, each number rounded to four fractional
/// digits.
pub fn make_record(roots: &QuadraticRoots) -> (record: RootRecord)
    requires
        roots.wf(),
    ensures
        record == record_of(*roots),
{
    match roots {
        QuadraticRoots::Real((first, second)) => RootRecord {
            kind: RootKind::Real,
            first: first.round(),
            second: second.round(),
        },
        QuadraticRoots::NotReal((root, _)) => RootRecord {
            kind: RootKind::Complex,
            first: root.re.round(),
            second: root.im.round(),
        },
    }
}

/// Puts the line of a record together from its kind and the texts of its
/// numbers.
fn write_line(kind: RootKind, first: &str, second: &str) -> (text: String)
    ensures
        text@ == line_text(kind, first@, second@),
{
    proof {
        reveal_strlit("v1,r,");
        reveal_strlit("v1,c,");
        reveal_strlit(",");
    }
    let mut text = match kind {
        RootKind::Real => String::from_str("v1,r,"),
        RootKind::Complex => String::from_str("v1,c,"),
    };
    assert(text@ =~= seq!['v', '1', ',', kind_tag(kind), ',']);
    text.append(first);
    text.append(",");
    text.append(second);
    text
}

/// Writes the line of a record: a line that `parse_record` reads as this
/// record.
pub fn format_record(record: &RootRecord) -> (text: String)
    ensures
        text@ == record_text(*record),
        parsed_record(text@) == Ok::<RootRecord, ParseError>(*record),
{
    proof {
        lemma_record_round_trip(*record);
    }
    write_line(record.kind, record.first.to_text().as_str(), record.second.to_text().as_str())
}

/// Writes the line that records the roots in a file, each number rounded
/// to four fractional digits: a line that `parse_record` reads as the
/// record of the roots.
pub fn results_record(roots: &QuadraticRoots) -> (text: String)
    requires
        roots.wf(),
    ensures
        text@ == results_line(*roots),
        parsed_record(text@) == Ok::<RootRecord, ParseError>(record_of(*roots)),
{
    proof {
        lemma_results_round_trip(*roots);
    }
    match roots {
        QuadraticRoots::Real((first, second)) => write_line(
            RootKind::Real,
            root_text(first).as_str(),
            root_text(second).as_str(),
        ),
        QuadraticRoots::NotReal((root, _)) => write_line(
            RootKind::Complex,
            root_text(&root.re).as_str(),
            root_text(&root.im).as_str(),
        ),
    }
}

/// A line that is read as a record holds ASCII characters only.
proof fn lemma_record_is_ascii(s: Seq<char>)
    requires
        has_record_form(s),
        is_decimal_literal(first_field(s)),
        is_decimal_literal(second_field(s)),
    ensures
        vstd::utf8::is_ascii_chars(s),
{
    let comma = field_end(s, 5);
    lemma_field_end_bounds(s, 5);
    lemma_literal_is_ascii(first_field(s));
    lemma_literal_is_ascii(second_field(s));
    assert forall|i: int| 0 <= i < s.len() implies '\0' <= #[trigger] s[i] <= '\u{7f}' by {
        if 5 <= i < comma {
            assert(s[i] == first_field(s)[i - 5]);
        } else if i > comma {
            assert(s[i] == second_field(s)[i - comma - 1]);
        }
    }
}

/// A field ends at or after its beginning, within the line, and at a comma
/// if it ends before the end of the line.
proof fn lemma_field_end_bounds(s: Seq<char>, from: int)
    requires
        0 <= from <= s.len(),
    ensures
        from <= field_end(s, from) <= s.len(),
        field_end(s, from) < s.len() ==> s[field_end(s, from)] == ',',
        forall|i: int| from <= i < field_end(s, from) ==> s[i] != ',',
    decreases s.len() - from,
{
    if from < s.len() && s[from] != ',' {
        lemma_field_end_bounds(s, from + 1);
    }
}

/// Finds where the field that begins at `from` ends.
fn find_field_end(text: &str, from: usize) -> (end: usize)
    requires
        text.is_ascii(),
        from <= text@.len(),
    ensures
        end == field_end(text@, from as int),
        from <= end <= text@.len(),
{
    proof {
        vstd::string::is_ascii_spec_bytes(text);
    }
    let len: usize = text.as_bytes().len();
    let mut end: usize = from;
    while end < len && text.get_ascii(end) != 44
        invariant
            text.is_ascii(),
            len == text@.len(),
            from <= end <= len,
            field_end(text@, from as int) == field_end(text@, end as int),
        decreases len - end,
    {
        assert('\0' <= text@[end as int] <= '\u{7f}');
        end = end + 1;
    }
    proof {
        if end < len {
            assert('\0' <= text@[end as int] <= '\u{7f}');
        }
    }
    end
}

/// Whether `text` begins as a record does, and of which kind.
fn read_head(text: &str) -> (kind: Option<RootKind>)
    requires
        text.is_ascii(),
    ensures
        kind is Some == (text@.len() >= 5 && text@[0] == 'v' && text@[1] == '1' && text@[2] == ','
            && (text@[3] == 'r' || text@[3] == 'c') && text@[4] == ','),
        kind matches Some(k) ==> k == tagged_kind(text@[3]),
{
    proof {
        vstd::string::is_ascii_spec_bytes(text);
    }
    let len: usize = text.as_bytes().len();
    if len < 5 {
        return None;
    }
    proof {
        assert('\0' <= text@[0] <= '\u{7f}');
        assert('\0' <= text@[1] <= '\u{7f}');
        assert('\0' <= text@[2] <= '\u{7f}');
        assert('\0' <= text@[3] <= '\u{7f}');
        assert('\0' <= text@[4] <= '\u{7f}');
    }
    if text.get_ascii(0) != 118 || text.get_ascii(1) != 49 || text.get_ascii(2) != 44
        || text.get_ascii(4) != 44 {
        return None;
    }
    let tag: u8 = text.get_ascii(3);
    if tag == 114 {
        Some(RootKind::Real)
    } else if tag == 99 {
        Some(RootKind::Complex)
    } else {
        None
    }
}

/// Reads the line of a record.
///
/// The line is the version `v1`, the kind `r` or `c`, and two decimal
/// literals, with commas between. A line of another form is refused as
/// `Malformed`, and otherwise one with a number that no `Decimal` holds as
/// `OutOfRange`.
pub fn parse_record(text: &str) -> (result: Result<RootRecord, ParseError>)
    ensures
        result == parsed_record(text@),
{
    if !text.is_ascii() {
        proof {
            if has_record_form(text@) && is_decimal_literal(first_field(text@))
                && is_decimal_literal(second_field(text@)) {
                lemma_record_is_ascii(text@);
            }
        }
        return Err(ParseError::Malformed);
    }
    let kind = match read_head(text) {
        Some(kind) => kind,
        None => {
            return Err(ParseError::Malformed);
        },
    };
    proof {
        vstd::string::is_ascii_spec_bytes(text);
    }
    let len: usize = text.as_bytes().len();
    let comma: usize = find_field_end(text, 5);
    if comma >= len {
        return Err(ParseError::Malformed);
    }
    let first = Decimal::parse(text.substring_ascii(5, comma));
    let second = Decimal::parse(text.substring_ascii(comma + 1, len));
    match (first, second) {
        (Ok(first), Ok(second)) => Ok(RootRecord { kind, first, second }),
        (Err(ParseError::Malformed), _) => Err(ParseError::Malformed),
        (_, Err(ParseError::Malformed)) => Err(ParseError::Malformed),
        _ => Err(ParseError::OutOfRange),
    }
}

/// Whether a file name's extension is the one that a record's file has:
/// `csv`, in lower case.
pub fn is_csv_extension(extension: &str) -> (yes: bool)
    ensures
        yes == (extension@ == seq!['c', 's', 'v']),
{
    if !extension.is_ascii() {
        proof {
            if extension@ == seq!['c', 's', 'v'] {
                assert forall|i: int| 0 <= i < extension@.len() implies '\0'
                    <= #[trigger] extension@[i] <= '\u{7f}' by {}
            }
        }
        return false;
    }
    proof {
        vstd::string::is_ascii_spec_bytes(extension);
    }
    let len: usize = extension.as_bytes().len();
    if len != 3 {
        return false;
    }
    proof {
        assert('\0' <= extension@[0] <= '\u{7f}');
        assert('\0' <= extension@[1] <= '\u{7f}');
        assert('\0' <= extension@[2] <= '\u{7f}');
    }
    let yes = extension.get_ascii(0) == 99 && extension.get_ascii(1) == 115 && extension.get_ascii(
        2,
    ) == 118;
    assert(yes ==> extension@ =~= seq!['c', 's', 'v']);
    yes
}

/// Whether a file name has the extension that a record's file has. A
/// name without an extension has not.
pub fn has_csv_extension(extension: Option<&str>) -> (yes: bool)
    ensures
        yes == (extension matches Some(e) && e@ == seq!['c', 's', 'v']),
{
    match extension {
        Some(e) => is_csv_extension(e),
        None => false,
    }
}

/// The message for a file name whose extension is not `csv`.
pub fn extension_message() -> (message: &'static str)
    ensures
        message@ == "\nERROR: File extension must be .csv"@,
{
    "\nERROR: File extension must be .csv"
}

/// The message for a file that could not be created.
pub fn create_error_message(path: &str, cause: &str) -> (message: String)
    ensures
        message@ == "ERROR: Could not create file: "@ + path@ + " due to: "@ + cause@,
{
    let mut message = String::from_str("ERROR: Could not create file: ");
    message.append(path);
    message.append(" due to: ");
    message.append(cause);
    message
}

/// The message for a record that was written to its file.
pub fn success_message(path: &str) -> (message: String)
    ensures
        message@ == "\n\nSuccessfully wrote results to: "@ + path@,
{
    let mut message = String::from_str("\n\nSuccessfully wrote results to: ");
    message.append(path);
    message
}

/// The message for a record that could not be written to its file.
pub fn write_error_message(path: &str, cause: &str) -> (message: String)
    ensures
        message@ == "ERROR: Could not write to file: "@ + path@ + " due to: "@ + cause@,
{
    let mut message = String::from_str("ERROR: Could not write to file: ");
    message.append(path);
    message.append(" due to: ");
    message.append(cause);
    message
}

} // verus!
