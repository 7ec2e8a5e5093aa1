//! How temperatures, statistics and the final summary are written out.

use vstd::prelude::*;
use crate::model::merged_all;
use crate::model::Summaries;
use crate::reduce::lemma_chunking_is_unobservable;
use crate::reduce::summaries_of;
use crate::stats::FinalStats;
use crate::summary::is_summary_of;
use crate::summary::lemma_summary_is_unique;
use crate::text::ends_lines;
use crate::text::joined;
use crate::temperature::all_digits;
use crate::temperature::decimal_magnitude;
use crate::temperature::decimal_value;
use crate::temperature::digits_value;
use crate::temperature::has_sign;
use crate::temperature::is_decimal;
use crate::temperature::is_digit;
use crate::temperature::unsigned_part;
use crate::temperature::Temperature;
use crate::temperature::MINUS;
use crate::temperature::POINT;
use crate::temperature::ZERO;

verus! {

/// The byte between the three numbers of a station.
pub const SLASH: u8 = 47;

/// The byte between a station's name and its numbers.
pub const EQUALS: u8 = 61;

/// The first of the two bytes between two stations.
pub const COMMA: u8 = 44;

/// The second of the two bytes between two stations.
pub const SPACE: u8 = 32;

/// The byte that opens the summary.
pub const OPENING: u8 = 123;

/// The byte that closes the summary.
pub const CLOSING: u8 = 125;

/// The ASCII digit for `d`, which is from 0 to 9.
pub open spec fn digit_byte(d: int) -> u8 {
    (ZERO + d) as u8
}

/// The digits of `n` in base ten, without leading zeros; a single `0` for
/// zero.
pub open spec fn decimal_digits(n: nat) -> Seq<u8>
    decreases n,
{
    if n < 10 {
        seq![digit_byte(n as int)]
    } else {
        decimal_digits(n / 10).push(digit_byte((n % 10) as int))
    }
}

/// How a temperature of `tenths` tenths of a degree is written: a minus sign
/// if it is negative, the whole degrees, a point, the one fractional digit.
pub open spec fn display(tenths: int) -> Seq<u8> {
    let magnitude = if tenths < 0 {
        -tenths
    } else {
        tenths
    };
    let sign = if tenths < 0 {
        seq![MINUS]
    } else {
        Seq::<u8>::empty()
    };
    sign + decimal_digits((magnitude / 10) as nat) + seq![POINT, digit_byte(magnitude % 10)]
}

/// The characters that stand for a run of ASCII bytes.
pub open spec fn text_of(bytes: Seq<u8>) -> Seq<char> {
    bytes.map_values(|b: u8| b as char)
}

/// How the statistics of a station are written: least, mean and greatest
/// reading with a slash between them.
pub open spec fn display_stats(stats: FinalStats) -> Seq<u8> {
    display(stats.min.value()) + seq![SLASH] + display(stats.mean.value()) + seq![SLASH] + display(
        stats.max.value(),
    )
}

/// How one station is written: its name as it is, `=`, its statistics.
pub open spec fn display_entry(entry: (Vec<u8>, FinalStats)) -> Seq<u8> {
    entry.0@ + seq![EQUALS] + display_stats(entry.1)
}

/// How the stations are written one after the other, `, ` between each two.
pub open spec fn display_entries(list: Seq<(Vec<u8>, FinalStats)>) -> Seq<u8>
    decreases list.len(),
{
    if list.len() == 0 {
        Seq::<u8>::empty()
    } else if list.len() == 1 {
        display_entry(list[0])
    } else {
        display_entries(list.drop_last()) + seq![COMMA, SPACE] + display_entry(list.last())
    }
}

/// How the summary is written: `{name=min/mean/max, name=min/mean/max}`.
pub open spec fn display_summary(list: Seq<(Vec<u8>, FinalStats)>) -> Seq<u8> {
    seq![OPENING] + display_entries(list) + seq![CLOSING]
}

/// True when a decimal is written the way [`display`] writes it: its whole
/// part has no leading zero, and it is not a negative zero.
pub open spec fn is_canonical(s: Seq<u8>) -> bool {
    let u = unsigned_part(s);
    &&& u.len() == 3 || u[0] != ZERO
    &&& has_sign(s) ==> decimal_magnitude(s) != 0
}

/// Calls `String::push`, which appends the character to the string.
#[verifier::external_body]
fn string_push(text: &mut String, c: char)
    ensures
        final(text)@ == old(text)@.push(c),
{
    text.push(c)
}

/// The string of the given ASCII bytes.
fn ascii_string(bytes: &[u8]) -> (text: String)
    ensures
        text@ == text_of(bytes@),
{
    let mut text = String::new();
    for i in 0..bytes.len()
        invariant
            text@ == text_of(bytes@.take(i as int)),
    {
        string_push(&mut text, bytes[i] as char);
    }
    text
}

/// Appends the digits of `n` in base ten.
fn push_digits(out: &mut Vec<u8>, n: u32)
    ensures
        final(out)@ == old(out)@ + decimal_digits(n as nat),
    decreases n,
{
    if n >= 10 {
        push_digits(out, n / 10);
    }
    out.push(ZERO + (n % 10) as u8);
}

/// Appends `bytes`.
fn push_bytes(out: &mut Vec<u8>, bytes: &[u8])
    ensures
        final(out)@ == old(out)@ + bytes@,
{
    for i in 0..bytes.len()
        invariant
            out@ == old(out)@ + bytes@.take(i as int),
    {
        out.push(bytes[i]);
    }
}

impl Temperature {
    /// Appends the temperature as [`display`] writes it.
    pub fn write_to(&self, out: &mut Vec<u8>)
        ensures
            final(out)@ == old(out)@ + display(self.value()),
    {
        let tenths: i64 = self.tenths as i64;
        let magnitude: i64 = if tenths < 0 {
            -tenths
        } else {
            tenths
        };
        if tenths < 0 {
            out.push(MINUS);
        }
        let whole: u32 = (magnitude / 10) as u32;
        let frac: u8 = (magnitude % 10) as u8;
        push_digits(out, whole);
        out.push(POINT);
        out.push(ZERO + frac);
    }

    /// The temperature as text: sign, whole degrees, point, one fractional
    /// digit.
    pub fn to_string(&self) -> (text: String)
        ensures
            text@ == text_of(display(self.value())),
    {
        let mut bytes: Vec<u8> = Vec::new();
        self.write_to(&mut bytes);
        ascii_string(bytes.as_slice())
    }
}

impl FinalStats {
    /// Appends the statistics as [`display_stats`] writes them.
    pub fn write_to(&self, out: &mut Vec<u8>)
        ensures
            final(out)@ == old(out)@ + display_stats(*self),
    {
        self.min.write_to(out);
        out.push(SLASH);
        self.mean.write_to(out);
        out.push(SLASH);
        self.max.write_to(out);
    }

    /// The statistics as text: `min/mean/max`.
    pub fn to_string(&self) -> (text: String)
        ensures
            text@ == text_of(display_stats(*self)),
    {
        let mut bytes: Vec<u8> = Vec::new();
        self.write_to(&mut bytes);
        ascii_string(bytes.as_slice())
    }
}

/// Writes the summary out as one line, without a newline at its end: the
/// stations in the order of the list, each name byte for byte as it was read.
pub fn render(summary: &Vec<(Vec<u8>, FinalStats)>) -> (line: Vec<u8>)
    ensures
        line@ == display_summary(summary@),
{
    let mut line: Vec<u8> = Vec::new();
    line.push(OPENING);
    for i in 0..summary.len()
        invariant
            line@ == seq![OPENING] + display_entries(summary@.take(i as int)),
    {
        let ghost front = summary@.take(i as int);
        if i > 0 {
            line.push(COMMA);
            line.push(SPACE);
        }
        push_bytes(&mut line, summary[i].0.as_slice());
        line.push(EQUALS);
        summary[i].1.write_to(&mut line);
        proof {
            let grown = summary@.take(i + 1);
            assert(grown.drop_last() == front);
            assert(grown.last() == summary@[i as int]);
            if i == 0 {
                assert(front.len() == 0);
                assert(grown[0] == summary@[i as int]);
            }
            assert(line@ =~= seq![OPENING] + display_entries(grown));
        }
    }
    assert(summary@.take(summary.len() as int) == summary@);
    line.push(CLOSING);
    line
}

/// The digits of a number are digits, start with no zero unless the number
/// has one digit only, and denote the number.
pub proof fn lemma_decimal_digits(n: nat)
    ensures
        decimal_digits(n).len() >= 1,
        all_digits(decimal_digits(n)),
        decimal_digits(n).len() == 1 || decimal_digits(n)[0] != ZERO,
        digits_value(decimal_digits(n)) == n,
    decreases n,
{
    let d = decimal_digits(n);
    if n < 10 {
        assert(d.drop_last() == Seq::<u8>::empty());
        assert(digits_value(d.drop_last()) == 0);
    } else {
        lemma_decimal_digits(n / 10);
        let front = decimal_digits(n / 10);
        assert(d.drop_last() == front);
        assert(d[0] == front[0]);
        if front.len() == 1 {
            assert(front.drop_last() == Seq::<u8>::empty());
            assert(digits_value(front.drop_last()) == 0);
        }
        assert forall|i: int| 0 <= i < d.len() implies is_digit(#[trigger] d[i]) by {
            if i < front.len() {
                assert(is_digit(front[i]));
            }
        }
    }
}

/// A string of digits without a leading zero is what [`decimal_digits`]
/// writes for the number that it denotes.
pub proof fn lemma_digits_of_value(s: Seq<u8>)
    requires
        s.len() >= 1,
        all_digits(s),
        s.len() == 1 || s[0] != ZERO,
    ensures
        digits_value(s) >= 0,
        s.len() > 1 ==> digits_value(s) >= 10,
        decimal_digits(digits_value(s) as nat) == s,
    decreases s.len(),
{
    let front = s.drop_last();
    assert(is_digit(s[s.len() - 1]));
    if s.len() == 1 {
        assert(digits_value(front) == 0);
        assert(decimal_digits(digits_value(s) as nat) =~= s);
    } else {
        assert(all_digits(front)) by {
            assert forall|i: int| 0 <= i < front.len() implies is_digit(#[trigger] front[i]) by {
                assert(is_digit(s[i]));
            }
        }
        assert(front[0] == s[0]);
        lemma_digits_of_value(front);
        if front.len() == 1 {
            assert(is_digit(front[0]));
            assert(front.drop_last() == Seq::<u8>::empty());
            assert(digits_value(front.drop_last()) == 0);
        }
        assert(digits_value(front) >= 1);
        assert(decimal_digits(digits_value(s) as nat) =~= s);
    }
}

/// What [`display`] writes is a decimal of the strict grammar, in canonical
/// form, and its value is the temperature that was written.
pub proof fn lemma_display_is_decimal(tenths: int)
    ensures
        is_decimal(display(tenths)),
        is_canonical(display(tenths)),
        decimal_value(display(tenths)) == tenths,
{
    let magnitude = if tenths < 0 {
        -tenths
    } else {
        tenths
    };
    let whole = decimal_digits((magnitude / 10) as nat);
    lemma_decimal_digits((magnitude / 10) as nat);
    let s = display(tenths);
    let u = whole + seq![POINT, digit_byte(magnitude % 10)];
    assert(is_digit(whole[0]));
    if tenths < 0 {
        assert(s == seq![MINUS] + u);
        assert(s.skip(1) == u);
    } else {
        assert(s == u);
    }
    assert(unsigned_part(s) == u);
    assert(u.take(u.len() - 2) == whole);
}

/// Writing the value of a canonical decimal gives the decimal back: for
/// every string of the strict grammar without a superfluous leading zero
/// that is not a negative zero, parsing and displaying is the identity.
pub proof fn lemma_display_round_trip(s: Seq<u8>)
    requires
        is_decimal(s),
        is_canonical(s),
    ensures
        display(decimal_value(s)) == s,
{
    let u = unsigned_part(s);
    let whole = u.take(u.len() - 2);
    assert(whole[0] == u[0]);
    lemma_digits_of_value(whole);
    let magnitude = decimal_magnitude(s);
    assert(is_digit(u[u.len() - 1]));
    assert(magnitude / 10 == digits_value(whole));
    assert(digit_byte(magnitude % 10) == u.last());
    assert(whole + seq![POINT, u.last()] =~= u);
    if has_sign(s) {
        assert(seq![MINUS] + u =~= s);
    }
}

/// What is written of a list depends on the bytes of its names and on its
/// statistics only.
pub proof fn lemma_display_entries_agree(
    a: Seq<(Vec<u8>, FinalStats)>,
    b: Seq<(Vec<u8>, FinalStats)>,
)
    requires
        a.len() == b.len(),
        forall|i: int| 0 <= i < a.len() ==> (#[trigger] a[i]).0@ == b[i].0@ && a[i].1 == b[i].1,
    ensures
        display_entries(a) == display_entries(b),
    decreases a.len(),
{
    if a.len() > 0 {
        let x = a.len() - 1;
        assert(a[x].0@ == b[x].0@ && a[x].1 == b[x].1);
        assert(a[0].0@ == b[0].0@ && a[0].1 == b[0].1);
        assert forall|i: int| 0 <= i < a.drop_last().len() implies (#[trigger] a.drop_last()[i]).0@
            == b.drop_last()[i].0@ && a.drop_last()[i].1 == b.drop_last()[i].1 by {
            assert(a[i].0@ == b[i].0@ && a[i].1 == b[i].1);
        }
        lemma_display_entries_agree(a.drop_last(), b.drop_last());
    }
}

/// The line that is written is determined by the summaries: whatever two
/// lists are the summary of the same summaries, they are written byte for
/// byte the same.
pub proof fn lemma_rendering_is_determined(
    a: Seq<(Vec<u8>, FinalStats)>,
    b: Seq<(Vec<u8>, FinalStats)>,
    m: Summaries,
)
    requires
        is_summary_of(a, m),
        is_summary_of(b, m),
    ensures
        display_summary(a) == display_summary(b),
{
    lemma_summary_is_unique(a, b, m);
    lemma_display_entries_agree(a, b);
}

/// The line that is written does not depend on how the input was cut into
/// chunks: where each chunk but the last ends with a newline, the summary of
/// the merged results of the chunks is written byte for byte as the summary
/// of the results of the whole input is.
pub proof fn lemma_output_ignores_chunking(
    chunks: Seq<Seq<u8>>,
    of_chunks: Seq<(Vec<u8>, FinalStats)>,
    of_whole: Seq<(Vec<u8>, FinalStats)>,
)
    requires
        chunks.len() > 0,
        forall|i: int| 0 <= i < chunks.len() - 1 ==> ends_lines(#[trigger] chunks[i]),
        is_summary_of(
            of_chunks,
            merged_all(chunks.map_values(|chunk: Seq<u8>| summaries_of(chunk))),
        ),
        is_summary_of(of_whole, summaries_of(joined(chunks))),
    ensures
        display_summary(of_chunks) == display_summary(of_whole),
{
    lemma_chunking_is_unobservable(chunks);
    lemma_rendering_is_determined(of_chunks, of_whole, summaries_of(joined(chunks)));
}

} // verus!
