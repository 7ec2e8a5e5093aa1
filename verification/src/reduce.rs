//! From a buffer of input to the statistics of every station: the buffer is
//! cut into lines, each line is parsed and taken in.
//!
//! There are two paths. The relaxed path trusts its input and validates
//! nothing; it is meant for input that is known to be well formed. The strict
//! path checks every line and every sum, and reports the first line that it
//! cannot take in.

use vstd::prelude::*;
use crate::model::aggregate;
use crate::model::can_ingest;
use crate::model::ingested;
use crate::model::lemma_aggregate_concat;
use crate::model::lemma_merged_identity;
use crate::model::merged;
use crate::model::merged_all;
use crate::model::no_summaries;
use crate::model::Reading;
use crate::model::Summaries;
use crate::results::ResultsMap;
use crate::row::lemma_relaxed_reading_agrees_with_strict;
use crate::row::relaxed_in_range;
use crate::row::relaxed_reading;
use crate::row::strict_reading;
use crate::row::RecordError;
use crate::row::Row;
use crate::text::ends_lines;
use crate::text::joined;
use crate::text::lemma_joined_ends_lines;
use crate::text::lemma_split_lines_concat;
use crate::text::cut_line;
use crate::text::split_lines;

verus! {

/// The records that the relaxed parser reads from a run of lines, in their
/// order. Lines without separator, empty ones among them, hold no record.
pub open spec fn relaxed_readings(lines: Seq<Seq<u8>>) -> Seq<Reading> {
    lines.filter_map(|line: Seq<u8>| relaxed_reading(line))
}

/// The summaries that the relaxed path reads from a buffer.
pub open spec fn summaries_of(data: Seq<u8>) -> Summaries {
    aggregate(relaxed_readings(split_lines(data)))
}

/// The summaries after a line went down the relaxed path.
pub open spec fn line_ingested(m: Summaries, line: Seq<u8>) -> Summaries {
    match relaxed_reading(line) {
        Some(r) => ingested(m, r),
        None => m,
    }
}

/// True when the line can go down the relaxed path: its number fits a
/// temperature, and with it no sum or count leaves its 32 bits.
pub open spec fn can_ingest_line(m: Summaries, line: Seq<u8>) -> bool {
    &&& relaxed_in_range(line)
    &&& match relaxed_reading(line) {
        Some(r) => can_ingest(m, r),
        None => true,
    }
}

/// True when the lines can go down the relaxed path one after the other.
pub open spec fn can_ingest_lines(lines: Seq<Seq<u8>>) -> bool {
    forall|i: int|
        0 <= i < lines.len() ==> can_ingest_line(
            aggregate(relaxed_readings(#[trigger] lines.take(i))),
            lines[i],
        )
}

/// A line that could not be taken in, and why.
#[derive(Clone, Copy, Debug, PartialEq, Eq, Structural)]
pub struct InputError {
    /// The number of the line, the first line of the buffer being line 0.
    pub line: usize,
    /// What is wrong with the line.
    pub error: RecordError,
}

/// The first line that the strict path cannot take in, and why.
pub struct Rejection {
    pub line: int,
    pub error: RecordError,
}

/// The lines that the strict path reads: those of the buffer, but for an empty
/// last line, such as a newline at the end of the buffer leaves.
pub open spec fn strict_lines(data: Seq<u8>) -> Seq<Seq<u8>> {
    let lines = split_lines(data);
    if lines.len() > 0 && lines.last().len() == 0 {
        lines.drop_last()
    } else {
        lines
    }
}

/// The summaries after a line went down the strict path, or the reason for
/// which the line is not taken in: it is no record, or its station's sum or
/// count would leave its 32 bits.
pub open spec fn strict_step(m: Summaries, line: Seq<u8>) -> Result<Summaries, RecordError> {
    match strict_reading(line) {
        Ok(r) => if can_ingest(m, r) {
            Ok(ingested(m, r))
        } else {
            Err(RecordError::Overflow)
        },
        Err(e) => Err(e),
    }
}

/// The summaries after all the lines went down the strict path, or the first
/// line that is not taken in.
pub open spec fn strict_fold(lines: Seq<Seq<u8>>) -> Result<Summaries, Rejection>
    decreases lines.len(),
{
    if lines.len() == 0 {
        Ok(no_summaries())
    } else {
        match strict_fold(lines.drop_last()) {
            Ok(m) => match strict_step(m, lines.last()) {
                Ok(next) => Ok(next),
                Err(error) => Err(Rejection { line: lines.len() - 1, error }),
            },
            Err(rejection) => Err(rejection),
        }
    }
}

/// What the strict path gave, in terms of the model.
pub open spec fn strict_result(r: Result<ResultsMap, InputError>) -> Result<Summaries, Rejection> {
    match r {
        Ok(results) => Ok(results@),
        Err(e) => Err(Rejection { line: e.line as int, error: e.error }),
    }
}

impl ResultsMap {
    /// Takes a line down the relaxed path: a line with a separator is parsed
    /// and its record ingested, any other line is passed over.
    pub fn ingest_line(&mut self, line: &[u8])
        requires
            old(self).wf(),
            can_ingest_line(old(self)@, line@),
        ensures
            final(self).wf(),
            final(self)@ == line_ingested(old(self)@, line@),
    {
        if let Some(row) = Row::parse(line) {
            self.ingest(row);
        }
    }

    /// Takes a line down the relaxed path as [`ResultsMap::ingest_line`] does
    /// if its number fits a temperature and its station's total and count
    /// stay within their 32 bits, and changes nothing if not. The result tells
    /// which of the two it was.
    pub fn try_ingest_line(&mut self, line: &[u8]) -> (taken: bool)
        requires
            old(self).wf(),
        ensures
            final(self).wf(),
            taken == can_ingest_line(old(self)@, line@),
            taken ==> final(self)@ == line_ingested(old(self)@, line@),
            !taken ==> final(self)@ == old(self)@,
    {
        if !Row::in_range(line) {
            return false;
        }
        match Row::parse(line) {
            Some(row) => self.try_ingest(row),
            None => true,
        }
    }

    /// Takes a line down the strict path: the line is parsed with the strict
    /// parser and its record ingested if that leaves every sum and count
    /// within its 32 bits. Where the line is not taken in, nothing changes.
    pub fn ingest_line_strict(&mut self, line: &[u8]) -> (r: Result<(), RecordError>)
        requires
            old(self).wf(),
        ensures
            final(self).wf(),
            match r {
                Ok(_) => strict_step(old(self)@, line@) == Ok::<Summaries, RecordError>(
                    final(self)@,
                ),
                Err(e) => strict_step(old(self)@, line@) == Err::<Summaries, RecordError>(e)
                    && final(self)@ == old(self)@,
            },
    {
        match Row::parse_strict(line) {
            Ok(row) => {
                if self.try_ingest(row) {
                    Ok(())
                } else {
                    Err(RecordError::Overflow)
                }
            },
            Err(e) => Err(e),
        }
    }
}

/// Given a buffer containing the input, collects all of the measurement
/// results together, down the relaxed path.
///
/// The buffer is cut at every newline, and each line is handed to
/// [`ResultsMap::ingest_line`]. Nothing is validated: the input has to be
/// known to be well formed, with numbers and sums that fit.
/// [`try_process_data`] tests the latter as it goes, and
/// [`process_data_strict`] tests both.
pub fn process_data(data: &[u8]) -> (results: ResultsMap)
    requires
        can_ingest_lines(split_lines(data@)),
    ensures
        results.wf(),
        results@ == summaries_of(data@),
{
    let mut results = ResultsMap::default();
    let mut rest: &[u8] = data;
    let ghost lines = split_lines(data@);
    let ghost mut n: int = 0;
    loop
        invariant
            lines == split_lines(data@),
            can_ingest_lines(lines),
            0 <= n < lines.len(),
            lines.skip(n) == split_lines(rest@),
            results.wf(),
            results@ == aggregate(relaxed_readings(lines.take(n))),
        decreases rest.len(),
    {
        let (line, tail) = cut_line(rest);
        proof {
            assert(lines.skip(n)[0] == lines[n]);
            assert(lines.skip(n).skip(1) == lines.skip(n + 1));
            lemma_relaxed_readings_step(lines, n);
        }
        results.ingest_line(line);
        match tail {
            Some(next) => {
                proof {
                    n = n + 1;
                }
                rest = next;
            },
            None => {
                assert(lines.take(n + 1) == lines);
                return results;
            },
        }
    }
}

/// Collects all of the measurement results together down the relaxed path
/// as [`process_data`] does, but tests with each line whether it can be
/// taken in. The result is `None` when a number does not fit a temperature,
/// or a sum or a count would leave its 32 bits.
pub fn try_process_data(data: &[u8]) -> (found: Option<ResultsMap>)
    ensures
        (found is Some) == can_ingest_lines(split_lines(data@)),
        found matches Some(results) ==> results.wf() && results@ == summaries_of(data@),
{
    let mut results = ResultsMap::default();
    let mut rest: &[u8] = data;
    let ghost lines = split_lines(data@);
    let ghost mut n: int = 0;
    loop
        invariant
            lines == split_lines(data@),
            0 <= n < lines.len(),
            lines.skip(n) == split_lines(rest@),
            results.wf(),
            results@ == aggregate(relaxed_readings(lines.take(n))),
            forall|i: int|
                0 <= i < n ==> can_ingest_line(
                    aggregate(relaxed_readings(#[trigger] lines.take(i))),
                    lines[i],
                ),
        decreases rest.len(),
    {
        let (line, tail) = cut_line(rest);
        proof {
            assert(lines.skip(n)[0] == lines[n]);
            assert(lines.skip(n).skip(1) == lines.skip(n + 1));
            lemma_relaxed_readings_step(lines, n);
        }
        if !results.try_ingest_line(line) {
            return None;
        }
        match tail {
            Some(next) => {
                proof {
                    n = n + 1;
                }
                rest = next;
            },
            None => {
                assert(lines.take(n + 1) == lines);
                return Some(results);
            },
        }
    }
}

/// Given a buffer containing the input, collects all of the measurement
/// results together, down the strict path.
///
/// Every line has to be a record `name;value` with a value of the form
/// `-?[0-9]+\.[0-9]`; only the last line may be empty, as it is when the
/// buffer ends with a newline. The first line that is no record, or with which
/// a sum or a count would leave its 32 bits, ends the run and is reported.
pub fn process_data_strict(data: &[u8]) -> (r: Result<ResultsMap, InputError>)
    ensures
        r matches Ok(results) ==> results.wf(),
        strict_result(r) == strict_fold(strict_lines(data@)),
{
    let mut results = ResultsMap::default();
    let mut rest: &[u8] = data;
    let mut line_no: usize = 0;
    let ghost lines = split_lines(data@);
    loop
        invariant
            lines == split_lines(data@),
            0 <= line_no < lines.len(),
            line_no + rest.len() <= data.len(),
            lines.skip(line_no as int) == split_lines(rest@),
            results.wf(),
            strict_fold(lines.take(line_no as int)) == Ok::<Summaries, Rejection>(results@),
        decreases rest.len(),
    {
        let ghost n = line_no as int;
        let (line, tail) = cut_line(rest);
        proof {
            assert(lines.skip(n)[0] == lines[n]);
            assert(lines.skip(n).skip(1) == lines.skip(n + 1));
            assert(lines.take(n + 1).drop_last() == lines.take(n));
            assert(lines.take(n + 1).last() == lines[n]);
        }
        match tail {
            Some(next) => {
                match results.ingest_line_strict(line) {
                    Ok(_) => {},
                    Err(error) => {
                        proof {
                            assert(strict_lines(data@).take(n + 1) == lines.take(n + 1));
                            assert(strict_fold(lines.take(n + 1)) is Err);
                            lemma_strict_fold_stops(strict_lines(data@), n + 1);
                        }
                        return Err(InputError { line: line_no, error });
                    },
                }
                rest = next;
                line_no = line_no + 1;
            },
            None => {
                // An empty last line is what a newline at the end of the
                // buffer leaves.
                if line.len() == 0 {
                    return Ok(results);
                }
                return match results.ingest_line_strict(line) {
                    Ok(_) => Ok(results),
                    Err(error) => Err(InputError { line: line_no, error }),
                };
            },
        }
    }
}

/// The summaries of a run of lines and one more line are those of the run
/// with the line taken in.
pub proof fn lemma_relaxed_readings_step(lines: Seq<Seq<u8>>, i: int)
    requires
        0 <= i < lines.len(),
    ensures
        aggregate(relaxed_readings(lines.take(i + 1))) == line_ingested(
            aggregate(relaxed_readings(lines.take(i))),
            lines[i],
        ),
{
    let front = lines.take(i + 1);
    assert(front.drop_last() == lines.take(i));
    assert(front.last() == lines[i]);
    let so_far = relaxed_readings(lines.take(i));
    match relaxed_reading(lines[i]) {
        Some(r) => {
            assert(relaxed_readings(front) == so_far + seq![r]);
            assert((so_far + seq![r]).drop_last() == so_far);
        },
        None => {},
    }
}

/// Once a line is rejected, the lines after it are not looked at: the outcome
/// of the whole run is that of the run up to and including that line.
pub proof fn lemma_strict_fold_stops(lines: Seq<Seq<u8>>, n: int)
    requires
        0 <= n <= lines.len(),
        strict_fold(lines.take(n)) is Err,
    ensures
        strict_fold(lines) == strict_fold(lines.take(n)),
    decreases lines.len() - n,
{
    if n == lines.len() {
        assert(lines.take(n) == lines);
    } else {
        assert(lines.take(n + 1).drop_last() == lines.take(n));
        lemma_strict_fold_stops(lines, n + 1);
    }
}

/// The records of two runs of lines one after the other are the records of
/// the first run followed by those of the second.
pub proof fn lemma_relaxed_readings_concat(x: Seq<Seq<u8>>, y: Seq<Seq<u8>>)
    ensures
        relaxed_readings(x + y) == relaxed_readings(x) + relaxed_readings(y),
    decreases y.len(),
{
    if y.len() == 0 {
        assert(x + y == x);
    } else {
        assert((x + y).drop_last() == x + y.drop_last());
        assert((x + y).last() == y.last());
        lemma_relaxed_readings_concat(x, y.drop_last());
    }
}

/// However a run of lines is cut in two, taking each part down the relaxed
/// path by itself and merging the results gives what the whole run gives.
pub proof fn lemma_lines_can_be_cut(x: Seq<Seq<u8>>, y: Seq<Seq<u8>>)
    ensures
        aggregate(relaxed_readings(x + y)) == merged(
            aggregate(relaxed_readings(x)),
            aggregate(relaxed_readings(y)),
        ),
{
    lemma_relaxed_readings_concat(x, y);
    lemma_aggregate_concat(relaxed_readings(x), relaxed_readings(y));
}

/// A buffer can be cut behind any of its newlines: taking the two chunks down
/// the relaxed path one by one and merging the results gives what the whole
/// buffer gives.
pub proof fn lemma_buffer_can_be_cut(a: Seq<u8>, b: Seq<u8>)
    requires
        ends_lines(a),
    ensures
        summaries_of(a + b) == merged(summaries_of(a), summaries_of(b)),
{
    lemma_split_lines_concat(a, b);
    let front = split_lines(a).drop_last();
    let blank = split_lines(a).last();
    assert(split_lines(a) == front + seq![blank]);
    lemma_relaxed_readings_concat(front, seq![blank]);
    assert(relaxed_readings(seq![blank]) == Seq::<Reading>::empty()) by {
        let one = seq![blank];
        assert(one.drop_last() == Seq::<Seq<u8>>::empty());
        assert(relaxed_reading(blank) is None);
        reveal_with_fuel(Seq::filter_map, 2);
    }
    assert(relaxed_readings(front) + Seq::<Reading>::empty() == relaxed_readings(front));
    lemma_lines_can_be_cut(front, split_lines(b));
}

/// Into however many chunks a buffer is cut behind newlines, taking each
/// chunk down the relaxed path by itself and merging the results from the
/// first to the last gives what the whole buffer gives.
pub proof fn lemma_chunking_is_unobservable(chunks: Seq<Seq<u8>>)
    requires
        forall|i: int| 0 <= i < chunks.len() - 1 ==> ends_lines(#[trigger] chunks[i]),
    ensures
        merged_all(chunks.map_values(|chunk: Seq<u8>| summaries_of(chunk))) == if chunks.len()
            == 0 {
            no_summaries()
        } else {
            summaries_of(joined(chunks))
        },
    decreases chunks.len(),
{
    let parts = chunks.map_values(|chunk: Seq<u8>| summaries_of(chunk));
    if chunks.len() > 0 {
        let front = chunks.drop_last();
        assert(parts.drop_last() == front.map_values(|chunk: Seq<u8>| summaries_of(chunk)));
        assert forall|i: int| 0 <= i < front.len() implies ends_lines(#[trigger] front[i]) by {
            assert(front[i] == chunks[i]);
        }
        lemma_chunking_is_unobservable(front);
        lemma_joined_ends_lines(front);
        if front.len() == 0 {
            assert(joined(front) + chunks.last() == chunks.last());
            lemma_merged_identity(summaries_of(chunks.last()));
        } else {
            lemma_buffer_can_be_cut(joined(front), chunks.last());
        }
    }
}

/// Where the strict path takes all the lines in, every line is a record, the
/// relaxed path may be used on the lines, and it gives the same summaries.
pub proof fn lemma_strict_lines_are_relaxed(lines: Seq<Seq<u8>>)
    requires
        strict_fold(lines) is Ok,
    ensures
        forall|i: int| 0 <= i < lines.len() ==> strict_reading(#[trigger] lines[i]) is Ok,
        can_ingest_lines(lines),
        aggregate(relaxed_readings(lines)) == strict_fold(lines)->Ok_0,
    decreases lines.len(),
{
    if lines.len() > 0 {
        let front = lines.drop_last();
        let n = front.len() as int;
        lemma_strict_lines_are_relaxed(front);
        lemma_relaxed_reading_agrees_with_strict(lines.last());
        assert(lines.take(n) == front);
        assert(lines.take(n + 1) == lines);
        lemma_relaxed_readings_step(lines, n);
        assert forall|i: int| 0 <= i < lines.len() implies can_ingest_line(
            aggregate(relaxed_readings(#[trigger] lines.take(i))),
            lines[i],
        ) by {
            if i < n {
                assert(lines.take(i) == front.take(i));
                assert(lines[i] == front[i]);
            }
        }
        assert forall|i: int| 0 <= i < lines.len() implies strict_reading(
            #[trigger] lines[i],
        ) is Ok by {
            if i < n {
                assert(lines[i] == front[i]);
            }
        }
    }
}

/// On every buffer that the strict path accepts, the relaxed path may be
/// used, and it gives the same summaries.
pub proof fn lemma_strict_input_is_relaxed(data: Seq<u8>)
    requires
        strict_fold(strict_lines(data)) is Ok,
    ensures
        can_ingest_lines(split_lines(data)),
        summaries_of(data) == strict_fold(strict_lines(data))->Ok_0,
{
    let lines = split_lines(data);
    let read = strict_lines(data);
    lemma_strict_lines_are_relaxed(read);
    if read != lines {
        let n = read.len() as int;
        let blank = lines.last();
        assert(relaxed_reading(blank) is None);
        assert(lines.take(n) == read);
        assert(lines.take(n + 1) == lines);
        lemma_relaxed_readings_step(lines, n);
        assert forall|i: int| 0 <= i < lines.len() implies can_ingest_line(
            aggregate(relaxed_readings(#[trigger] lines.take(i))),
            lines[i],
        ) by {
            if i < n {
                assert(lines.take(i) == read.take(i));
                assert(lines[i] == read[i]);
            }
        }
    }
}

} // verus!
