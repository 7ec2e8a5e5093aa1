//! One line of input: a station's name, a separator, a temperature.

use vstd::prelude::*;
use crate::model::Reading;
use crate::temperature::lemma_relaxed_agrees_with_strict;
use crate::temperature::lemma_relaxed_magnitude_skips_first;
use crate::temperature::relaxed_magnitude;
use crate::temperature::relaxed_value;
use crate::temperature::strict_outcome;
use crate::temperature::ParseError;
use crate::temperature::Temperature;
use crate::temperature::MINUS;
use crate::text::first_index_of;
use crate::text::position;

verus! {

/// The byte between a station's name and its temperature.
pub const SEPARATOR: u8 = 59;

/// A record as it stands in the input: the name borrowed from the line, the
/// temperature parsed.
#[derive(Clone, Copy, Debug)]
pub struct Row<'a> {
    pub city: &'a [u8],
    pub temp: Temperature,
}

/// Why a line is no record, or cannot be taken in.
#[derive(Clone, Copy, Debug, PartialEq, Eq, Structural)]
pub enum RecordError {
    /// The line holds no separator.
    MissingSeparator,
    /// What follows the first separator is no temperature.
    Number(ParseError),
    /// The record is well formed, but with it the total or the count of its
    /// station would leave its 32 bits.
    Overflow,
}

/// The record that the relaxed parser reads from a line: the name is what
/// stands before the first separator, the temperature is read from what
/// follows it. A line without separator holds no record.
pub open spec fn relaxed_reading(line: Seq<u8>) -> Option<Reading> {
    let i = first_index_of(line, SEPARATOR);
    if 0 <= i < line.len() {
        Some(Reading { station: line.take(i), tenths: relaxed_value(line.skip(i + 1)) })
    } else {
        None
    }
}

/// True when the digits that follow the first separator of the line, read as
/// one number, fit a temperature, or the line has no separator.
pub open spec fn relaxed_in_range(line: Seq<u8>) -> bool {
    let i = first_index_of(line, SEPARATOR);
    0 <= i < line.len() ==> relaxed_magnitude(line.skip(i + 1)) <= i32::MAX
}

/// The record that the strict parser reads from a line, or the reason for
/// which the line is rejected.
pub open spec fn strict_reading(line: Seq<u8>) -> Result<Reading, RecordError> {
    let i = first_index_of(line, SEPARATOR);
    if 0 <= i < line.len() {
        match strict_outcome(line.skip(i + 1)) {
            Ok(tenths) => Ok(Reading { station: line.take(i), tenths }),
            Err(e) => Err(RecordError::Number(e)),
        }
    } else {
        Err(RecordError::MissingSeparator)
    }
}

/// What a parse of a line gave, in terms of the model.
pub open spec fn optional_reading(row: Option<Row>) -> Option<Reading> {
    match row {
        Some(row) => Some(row.reading()),
        None => None,
    }
}

/// What a strict parse of a line gave, in terms of the model.
pub open spec fn checked_reading(row: Result<Row, RecordError>) -> Result<Reading, RecordError> {
    match row {
        Ok(row) => Ok(row.reading()),
        Err(e) => Err(e),
    }
}

impl<'a> Row<'a> {
    /// The record in terms of the model.
    pub open spec fn reading(self) -> Reading {
        Reading { station: self.city@, tenths: self.temp.value() }
    }

    /// Splits a line at its first separator and reads the temperature behind
    /// it with the relaxed parser. A line without separator gives `None`.
    ///
    /// Nothing is validated. The digits behind the separator must fit a
    /// temperature; [`Row::in_range`] tests that.
    pub fn parse(s: &'a [u8]) -> (row: Option<Row<'a>>)
        requires
            relaxed_in_range(s@),
        ensures
            optional_reading(row) == relaxed_reading(s@),
    {
        let at: usize = match position(s, SEPARATOR) {
            Some(at) => at,
            None => { return None; },
        };
        // The separator goes to the temperature parser with what follows it,
        // and is skipped there.
        let (city, temp_s) = s.split_at(at);
        proof {
            lemma_separator_is_skipped(temp_s@);
            assert(temp_s@.skip(1) == s@.skip(at + 1));
            assert(city@ == s@.take(at as int));
        }
        let temp = Temperature::parse(temp_s);
        Some(Row { city, temp })
    }

    /// Tests whether [`Row::parse`] may be called on the line.
    pub fn in_range(s: &[u8]) -> (fits: bool)
        ensures
            fits == relaxed_in_range(s@),
    {
        match position(s, SEPARATOR) {
            Some(at) => {
                let (_, temp_s) = s.split_at(at);
                proof {
                    lemma_separator_is_skipped(temp_s@);
                    assert(temp_s@.skip(1) == s@.skip(at + 1));
                }
                Temperature::in_range(temp_s)
            },
            None => true,
        }
    }

    /// Splits a line at its first separator and reads the temperature behind
    /// it with the strict parser. The name is not examined: it may hold any
    /// bytes but the separator, and may be empty.
    pub fn parse_strict(s: &'a [u8]) -> (row: Result<Row<'a>, RecordError>)
        ensures
            checked_reading(row) == strict_reading(s@),
    {
        let at: usize = match position(s, SEPARATOR) {
            Some(at) => at,
            None => { return Err(RecordError::MissingSeparator); },
        };
        let (city, rest) = s.split_at(at);
        let (_, temp_s) = rest.split_at(1);
        proof {
            assert(temp_s@ == s@.skip(at + 1));
            assert(city@ == s@.take(at as int));
        }
        match Temperature::parse_strict(temp_s) {
            Ok(temp) => Ok(Row { city, temp }),
            Err(e) => Err(RecordError::Number(e)),
        }
    }
}

/// The relaxed parser reads the same from the bytes after a separator as
/// from the separator and those bytes.
pub proof fn lemma_separator_is_skipped(rest: Seq<u8>)
    requires
        rest.len() > 0,
        rest[0] == SEPARATOR,
    ensures
        relaxed_magnitude(rest) == relaxed_magnitude(rest.skip(1)),
        relaxed_value(rest) == relaxed_value(rest.skip(1)),
{
    lemma_relaxed_magnitude_skips_first(rest);
    let tail = rest.skip(1);
    if rest.contains(MINUS) {
        let i = choose|i: int| 0 <= i < rest.len() && rest[i] == MINUS;
        assert(tail[i - 1] == MINUS);
    }
    if tail.contains(MINUS) {
        let i = choose|i: int| 0 <= i < tail.len() && tail[i] == MINUS;
        assert(rest[i + 1] == MINUS);
    }
}

/// On every line that the strict parser accepts, the relaxed parser may be
/// used, and reads the same record.
pub proof fn lemma_relaxed_reading_agrees_with_strict(line: Seq<u8>)
    requires
        strict_reading(line) is Ok,
    ensures
        relaxed_in_range(line),
        relaxed_reading(line) == Some(strict_reading(line)->Ok_0),
{
    let i = first_index_of(line, SEPARATOR);
    lemma_relaxed_agrees_with_strict(line.skip(i + 1));
}

} // verus!
