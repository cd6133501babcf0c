//! Points from comma-separated values: a header row, then one row for each
//! point, with the x coordinate in the first column and the y coordinate in
//! the second.

use crate::point_set::point::Point2Di64;
use vstd::prelude::*;

verus! {

/// The error type of the `csv` crate, of which nothing is looked at.
#[verifier::external_type_specification]
#[verifier::external_body]
pub struct ExCsvError(::csv::Error);

/// The records that the `csv` crate reads from the given text, each record
/// as the list of its fields: what `Reader::from_reader` and
/// `Reader::records` yield with the crate's default settings, under which
/// the first row is a header and is left out. There are none where the
/// crate reports an error for the text.
pub uninterp spec fn csv_records_of(content: Seq<char>) -> Option<Seq<Seq<Seq<char>>>>;

/// The fields of the given records as character sequences.
pub open spec fn record_views(records: Seq<Vec<String>>) -> Seq<Seq<Seq<char>>> {
    Seq::new(records.len(), |r: int| Seq::new(records[r]@.len(), |f: int| records[r]@[f]@))
}

/// Reads the records of the text with `csv::Reader::from_reader` and
/// `Reader::records`, and copies the fields of each record. The contract
/// gives the outcome a name and claims nothing more of it.
#[verifier::external_body]
fn read_records(content: &str) -> (records: Result<Vec<Vec<String>>, ::csv::Error>)
    ensures
        match records {
            Ok(read) => csv_records_of(content@) == Some(record_views(read@)),
            Err(_) => csv_records_of(content@).is_none(),
        },
{
    ::csv::Reader::from_reader(content.as_bytes()).records().map(
        |row| row.map(|record| record.iter().map(|field| field.to_string()).collect()),
    ).collect()
}

/// The characters that count as white space: those with the Unicode
/// property `White_Space`.
pub open spec fn is_white_space(c: char) -> bool {
    ||| '\u{9}' <= c <= '\u{d}'
    ||| c == ' '
    ||| c == '\u{85}'
    ||| c == '\u{a0}'
    ||| c == '\u{1680}'
    ||| '\u{2000}' <= c <= '\u{200a}'
    ||| c == '\u{2028}'
    ||| c == '\u{2029}'
    ||| c == '\u{202f}'
    ||| c == '\u{205f}'
    ||| c == '\u{3000}'
}

/// The text without the white space at its beginning.
pub open spec fn without_leading_space(text: Seq<char>) -> Seq<char>
    decreases text.len(),
{
    if text.len() > 0 && is_white_space(text.first()) {
        without_leading_space(text.drop_first())
    } else {
        text
    }
}

/// The text without the white space at its end.
pub open spec fn without_trailing_space(text: Seq<char>) -> Seq<char>
    decreases text.len(),
{
    if text.len() > 0 && is_white_space(text.last()) {
        without_trailing_space(text.drop_last())
    } else {
        text
    }
}

/// The text without the white space at its beginning and at its end.
pub open spec fn trimmed(text: Seq<char>) -> Seq<char> {
    without_trailing_space(without_leading_space(text))
}

/// Trims a field with the standard library's `str::trim`, which is
/// documented to return the string without leading and trailing white
/// space, as the Unicode property `White_Space` defines it.
#[verifier::external_body]
fn trim_field(field: &str) -> (text: &str)
    ensures
        text@ == trimmed(field@),
{
    field.trim()
}

/// The character is one of the digits `0` to `9`.
pub open spec fn is_digit(c: char) -> bool {
    '0' <= c <= '9'
}

/// All characters of the text are digits.
pub open spec fn all_digits(text: Seq<char>) -> bool {
    forall|i: int| 0 <= i < text.len() ==> is_digit(#[trigger] text[i])
}

/// The number that the digits denote in decimal notation.
pub open spec fn decimal_value(digits: Seq<char>) -> int
    decreases digits.len(),
{
    if digits.len() == 0 {
        0
    } else {
        decimal_value(digits.drop_last()) * 10 + (digits.last() as int - '0' as int)
    }
}

/// The integer that the text denotes: an optional sign `+` or `-`, then at
/// least one digit and nothing but digits. There is none where the text is
/// of another form or denotes a number outside the range of `i64`.
pub open spec fn parsed_integer(text: Seq<char>) -> Option<i64> {
    let signed = text.len() > 0 && (text[0] == '-' || text[0] == '+');
    let digits = if signed {
        text.drop_first()
    } else {
        text
    };
    let value = if signed && text[0] == '-' {
        -decimal_value(digits)
    } else {
        decimal_value(digits)
    };
    if digits.len() > 0 && all_digits(digits) && i64::MIN <= value <= i64::MAX {
        Some(value as i64)
    } else {
        None
    }
}

/// Parses an integer with the standard library's `str::parse` for `i64`,
/// which is documented to accept an optional `+` or `-` sign followed by
/// only digits, and to fail on an empty string, on any other character and
/// on a number that does not fit.
#[verifier::external_body]
fn parse_integer(text: &str) -> (value: Option<i64>)
    ensures
        value == parsed_integer(text@),
{
    text.parse::<i64>().ok()
}

/// Why points could not be read.
#[derive(Debug, Clone, Copy, PartialEq, Eq, Structural)]
pub enum CsvError {
    /// The text is not well-formed comma-separated values.
    Malformed,
    /// A row has no value in the column with the given index.
    MissingValue(usize),
    /// The value in the column with the given index is no integer.
    InvalidInteger(usize),
}

impl CsvError {
    /// The description of the error.
    pub open spec fn spec_message(self) -> Seq<char> {
        match self {
            CsvError::Malformed => "The text is not well-formed CSV"@,
            CsvError::MissingValue(_) => "Value missing in a column"@,
            CsvError::InvalidInteger(_) => "Value in a column is no integer"@,
        }
    }

    /// Returns a description of the error.
    pub fn message(&self) -> (text: String)
        ensures
            text@ == self.spec_message(),
    {
        match self {
            CsvError::Malformed => "The text is not well-formed CSV".to_string(),
            CsvError::MissingValue(_) => "Value missing in a column".to_string(),
            CsvError::InvalidInteger(_) => "Value in a column is no integer".to_string(),
        }
    }
}

/// The integer in column `i` of the record, or the error that the column
/// gives rise to.
pub open spec fn value_at(record: Seq<Seq<char>>, i: usize) -> Result<i64, CsvError> {
    if i >= record.len() {
        Err(CsvError::MissingValue(i))
    } else {
        match parsed_integer(trimmed(record[i as int])) {
            Some(value) => Ok(value),
            None => Err(CsvError::InvalidInteger(i)),
        }
    }
}

/// The point that the record holds in its first two columns, or the first
/// error met.
pub open spec fn point_of(record: Seq<Seq<char>>) -> Result<Point2Di64, CsvError> {
    match value_at(record, 0) {
        Err(error) => Err(error),
        Ok(x) => match value_at(record, 1) {
            Err(error) => Err(error),
            Ok(y) => Ok(Point2Di64 { x, y }),
        },
    }
}

/// The points that the records hold, in the order of the records, or the
/// error of the first record that does not hold a point.
pub open spec fn points_of(records: Seq<Seq<Seq<char>>>) -> Result<Seq<Point2Di64>, CsvError>
    decreases records.len(),
{
    if records.len() == 0 {
        Ok(Seq::empty())
    } else {
        match points_of(records.drop_last()) {
            Err(error) => Err(error),
            Ok(points) => match point_of(records.last()) {
                Err(error) => Err(error),
                Ok(point) => Ok(points.push(point)),
            },
        }
    }
}

/// Returns the integer in the column with the given index.
pub fn get_i64_value_at(record: &Vec<String>, i: usize) -> (value: Result<i64, CsvError>)
    ensures
        value == value_at(Seq::new(record@.len(), |f: int| record@[f]@), i),
{
    if i >= record.len() {
        return Err(CsvError::MissingValue(i));
    }
    let text = trim_field(record[i].as_str());
    match parse_integer(text) {
        Some(value) => Ok(value),
        None => Err(CsvError::InvalidInteger(i)),
    }
}

/// Returns the points that the records hold: for each record the point
/// with the integer of the first column as x and that of the second column
/// as y. The rest of the columns are ignored.
pub fn records_to_points(records: &Vec<Vec<String>>) -> (points: Result<Vec<Point2Di64>, CsvError>)
    ensures
        match points {
            Ok(read) => points_of(record_views(records@)) == Ok::<Seq<Point2Di64>, CsvError>(read@),
            Err(error) => points_of(record_views(records@)) == Err::<Seq<Point2Di64>, CsvError>(
                error,
            ),
        },
{
    let ghost views = record_views(records@);
    let mut points: Vec<Point2Di64> = Vec::new();
    let mut r: usize = 0;
    assert(views.subrange(0, 0) =~= Seq::<Seq<Seq<char>>>::empty());
    while r < records.len()
        invariant
            r <= records@.len(),
            views == record_views(records@),
            points_of(views.subrange(0, r as int)) == Ok::<Seq<Point2Di64>, CsvError>(points@),
        decreases records@.len() - r,
    {
        proof {
            assert(views.subrange(0, r + 1).drop_last() =~= views.subrange(0, r as int));
            assert(views.subrange(0, r + 1).last() == views[r as int]);
            assert(views[r as int] =~= Seq::new(
                records@[r as int]@.len(),
                |f: int| records@[r as int]@[f]@,
            ));
        }
        let x = match get_i64_value_at(&records[r], 0) {
            Ok(x) => x,
            Err(error) => {
                proof {
                    lemma_error_stays(views, r + 1, error);
                }
                return Err(error);
            },
        };
        let y = match get_i64_value_at(&records[r], 1) {
            Ok(y) => y,
            Err(error) => {
                proof {
                    lemma_error_stays(views, r + 1, error);
                }
                return Err(error);
            },
        };
        points.push(Point2Di64 { x, y });
        r += 1;
    }
    assert(views.subrange(0, r as int) =~= views);
    Ok(points)
}

/// Returns a vector of points with integer components read from the given
/// text in CSV format. The text is expected to:
/// - have a header row
/// - contain x-coordinates in the first column
/// - contain y-coordinates in the second column
///
/// The rest of the columns are ignored.
pub fn csv_to_2d_point_i64(content: &str) -> (points: Result<Vec<Point2Di64>, CsvError>)
    ensures
        match csv_records_of(content@) {
            None => points == Err::<Vec<Point2Di64>, CsvError>(CsvError::Malformed),
            Some(records) => match points {
                Ok(read) => points_of(records) == Ok::<Seq<Point2Di64>, CsvError>(read@),
                Err(error) => points_of(records) == Err::<Seq<Point2Di64>, CsvError>(error),
            },
        },
{
    match read_records(content) {
        Ok(records) => records_to_points(&records),
        Err(_) => Err(CsvError::Malformed),
    }
}

/// An error among the first records is the error of all records.
proof fn lemma_error_stays(records: Seq<Seq<Seq<char>>>, k: int, error: CsvError)
    requires
        0 <= k <= records.len(),
        points_of(records.subrange(0, k)) == Err::<Seq<Point2Di64>, CsvError>(error),
    ensures
        points_of(records) == Err::<Seq<Point2Di64>, CsvError>(error),
    decreases records.len() - k,
{
    if k < records.len() {
        assert(records.subrange(0, k + 1).drop_last() =~= records.subrange(0, k));
        lemma_error_stays(records, k + 1, error);
    } else {
        assert(records.subrange(0, k) =~= records);
    }
}

} // verus!
