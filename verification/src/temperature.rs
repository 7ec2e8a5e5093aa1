//! Fixed-point temperatures with exactly one fractional digit, and the two
//! parsers that read them from ASCII text.

use vstd::prelude::*;

verus! {

/// A single temperature, with tenths of a degree precision.
#[derive(Clone, Copy, Debug, PartialEq, Eq, Structural, PartialOrd, Ord, Hash)]
pub struct Temperature {
    pub tenths: i32,
}

/// Why a byte string is not a decimal of the form `-?[0-9]+\.[0-9]`, or cannot
/// be held by a [`Temperature`].
#[derive(Clone, Copy, Debug, PartialEq, Eq, Structural)]
pub enum ParseError {
    /// A byte that the grammar does not allow at its position.
    InvalidCharacter,
    /// Further bytes follow a complete decimal.
    TrailingCharacters,
    /// The input ends before the decimal is complete.
    TruncatedInput,
    /// The decimal is well formed, but its magnitude exceeds `i32::MAX` tenths.
    OutOfRange,
}

/// The ASCII minus sign.
pub const MINUS: u8 = 45;

/// The ASCII full stop, which serves as decimal point.
pub const POINT: u8 = 46;

/// The ASCII digit zero.
pub const ZERO: u8 = 48;

/// The ASCII digit nine.
pub const NINE: u8 = 57;

/// True for the ASCII digits `0` to `9`.
pub open spec fn is_digit(b: u8) -> bool {
    ZERO <= b <= NINE
}

/// True when every byte of `s` is an ASCII digit.
pub open spec fn all_digits(s: Seq<u8>) -> bool {
    forall|i: int| 0 <= i < s.len() ==> is_digit(#[trigger] s[i])
}

/// The number that the digit string `s` denotes in base ten.
pub open spec fn digits_value(s: Seq<u8>) -> int
    decreases s.len(),
{
    if s.len() == 0 {
        0
    } else {
        digits_value(s.drop_last()) * 10 + (s.last() - ZERO)
    }
}

/// True when `s` starts with a minus sign.
pub open spec fn has_sign(s: Seq<u8>) -> bool {
    s.len() > 0 && s[0] == MINUS
}

/// `s` without its leading minus sign, if it has one.
pub open spec fn unsigned_part(s: Seq<u8>) -> Seq<u8> {
    if has_sign(s) {
        s.skip(1)
    } else {
        s
    }
}

/// The strict grammar `-?[0-9]+\.[0-9]`: an optional minus sign, one or more
/// digits, a decimal point and exactly one fractional digit.
pub open spec fn is_decimal(s: Seq<u8>) -> bool {
    let u = unsigned_part(s);
    &&& u.len() >= 3
    &&& all_digits(u.take(u.len() - 2))
    &&& u[u.len() - 2] == POINT
    &&& is_digit(u.last())
}

/// The magnitude in tenths of a decimal of the strict grammar.
pub open spec fn decimal_magnitude(s: Seq<u8>) -> int {
    let u = unsigned_part(s);
    digits_value(u.take(u.len() - 2)) * 10 + (u.last() - ZERO)
}

/// The value in tenths of a decimal of the strict grammar.
pub open spec fn decimal_value(s: Seq<u8>) -> int {
    if has_sign(s) {
        -decimal_magnitude(s)
    } else {
        decimal_magnitude(s)
    }
}

/// True when `s` is not yet a decimal but could be continued to one: an
/// optional minus sign followed by digits only, or by digits and a decimal
/// point.
pub open spec fn is_decimal_start(s: Seq<u8>) -> bool {
    let u = unsigned_part(s);
    all_digits(u) || (u.len() >= 2 && all_digits(u.drop_last()) && u.last() == POINT)
}

/// True when a proper prefix of `s` is a complete decimal.
pub open spec fn has_decimal_prefix(s: Seq<u8>) -> bool {
    exists|n: int| 0 <= n < s.len() && is_decimal(#[trigger] s.take(n))
}

/// What the strict parser makes of `s`: the value in tenths, or the reason for
/// which `s` is rejected.
pub open spec fn strict_outcome(s: Seq<u8>) -> Result<int, ParseError> {
    if is_decimal(s) {
        if decimal_magnitude(s) <= i32::MAX {
            Ok(decimal_value(s))
        } else {
            Err(ParseError::OutOfRange)
        }
    } else if is_decimal_start(s) {
        Err(ParseError::TruncatedInput)
    } else if has_decimal_prefix(s) {
        Err(ParseError::TrailingCharacters)
    } else {
        Err(ParseError::InvalidCharacter)
    }
}

/// The outcome of a parse with the temperature replaced by its value in
/// tenths.
pub open spec fn parsed_value(r: Result<Temperature, ParseError>) -> Result<int, ParseError> {
    match r {
        Ok(t) => Ok(t.value()),
        Err(e) => Err(e),
    }
}

/// The magnitude that the relaxed parser reads: the digits of `s` in order,
/// as one number, whatever stands between them.
pub open spec fn relaxed_magnitude(s: Seq<u8>) -> int
    decreases s.len(),
{
    if s.len() == 0 {
        0
    } else if is_digit(s.last()) {
        relaxed_magnitude(s.drop_last()) * 10 + (s.last() - ZERO)
    } else {
        relaxed_magnitude(s.drop_last())
    }
}

/// The value that the relaxed parser reads: the magnitude, negated when a
/// minus sign occurs anywhere in `s`.
pub open spec fn relaxed_value(s: Seq<u8>) -> int {
    if s.contains(MINUS) {
        -relaxed_magnitude(s)
    } else {
        relaxed_magnitude(s)
    }
}

/// `x / n` rounded to the nearest integer, a tie going away from zero.
pub open spec fn rounded_quotient(x: int, n: int) -> int
    recommends
        n > 0,
{
    if x >= 0 {
        (x + n / 2) / n
    } else {
        -((-x + n / 2) / n)
    }
}

/// The result of dividing `x` tenths by a count of `n`: the rounded quotient,
/// and for a count of zero the end of the range on the side of `x`.
pub open spec fn divided(x: int, n: int) -> int {
    if n > 0 {
        rounded_quotient(x, n)
    } else if x > 0 {
        i32::MAX as int
    } else if x < 0 {
        i32::MIN as int
    } else {
        0
    }
}

/// The states of the strict parser.
#[derive(Clone, Copy, PartialEq, Eq, Structural)]
enum State {
    /// Nothing read yet: a minus sign or the first digit comes next.
    Sign,
    /// In the whole part: digits, then the decimal point.
    Digit,
    /// After the decimal point: the one fractional digit comes next.
    Frac,
    /// The decimal is complete.
    Done,
}

impl Temperature {
    /// The number of tenths of a degree that this temperature stands for.
    pub open spec fn value(self) -> int {
        self.tenths as int
    }

    /// Reads a temperature from text that is trusted to be well formed.
    ///
    /// Nothing is validated: every digit is shifted in as the next decimal
    /// place, a minus sign anywhere negates the result, and every other byte
    /// (the decimal point, a leading field separator) is skipped. On a decimal
    /// of the strict grammar this yields its value, see
    /// [`lemma_relaxed_agrees_with_strict`]. The digits read must not exceed
    /// `i32::MAX` as one number; [`Temperature::in_range`] tests that.
    pub fn parse(s: &[u8]) -> (t: Temperature)
        requires
            relaxed_magnitude(s@) <= i32::MAX,
        ensures
            t.value() == relaxed_value(s@),
    {
        let mut tenths: i32 = 0;
        let mut negative = false;

        for i in 0..s.len()
            invariant
                relaxed_magnitude(s@) <= i32::MAX,
                tenths == relaxed_magnitude(s@.take(i as int)),
                negative == s@.take(i as int).contains(MINUS),
        {
            let b: u8 = s[i];
            proof {
                lemma_relaxed_magnitude_grows(s@, i + 1);
                assert(s@.take(i + 1).drop_last() == s@.take(i as int));
                assert(s@.take(i + 1) == s@.take(i as int).push(b));
            }
            if b == MINUS {
                negative = true;
            } else if b >= ZERO && b <= NINE {
                tenths = (tenths * 10) + ((b - ZERO) as i32);
            }
        }
        proof {
            assert(s@.take(s.len() as int) == s@);
            lemma_relaxed_magnitude_nonnegative(s@);
        }

        Temperature { tenths: if negative { -tenths } else { tenths } }
    }

    /// Reads a decimal of the form `-?[0-9]+\.[0-9]`, and rejects everything
    /// else.
    ///
    /// The input is scanned once from left to right: an optional minus sign,
    /// the digits of the whole part, the decimal point, one fractional digit.
    /// The result is exactly [`strict_outcome`]: the value of a well-formed
    /// decimal whose magnitude fits, and otherwise the reason for the
    /// rejection.
    pub fn parse_strict(s: &[u8]) -> (r: Result<Temperature, ParseError>)
        ensures
            parsed_value(r) == strict_outcome(s@),
    {
        let mut negative = false;
        let mut state = State::Sign;
        let mut seen_digit = false;
        let mut magnitude: i64 = 0;
        let mut too_large = false;
        let ghost mut exact: int = 0;

        for i in 0..s.len()
            invariant
                negative == (0 < i && has_sign(s@)),
                (state == State::Sign) == (i == 0),
                !too_large ==> magnitude == exact,
                too_large ==> exact > i32::MAX,
                0 <= magnitude <= i32::MAX,
                ({
                    let u = unsigned_part(s@);
                    let m = i - (s.len() - u.len());
                    match state {
                        State::Sign => !seen_digit && exact == 0,
                        State::Digit => {
                            &&& 0 <= m
                            &&& seen_digit == (m > 0)
                            &&& all_digits(u.take(m))
                            &&& exact == digits_value(u.take(m))
                        },
                        State::Frac => {
                            &&& 2 <= m
                            &&& all_digits(u.take(m - 1))
                            &&& u[m - 1] == POINT
                            &&& exact == digits_value(u.take(m - 1))
                        },
                        State::Done => {
                            &&& 3 <= m
                            &&& all_digits(u.take(m - 2))
                            &&& u[m - 2] == POINT
                            &&& is_digit(u[m - 1])
                            &&& exact == digits_value(u.take(m - 2)) * 10 + (u[m - 1] - ZERO)
                        },
                    }
                }),
        {
            let b: u8 = s[i];
            let ghost u = unsigned_part(s@);
            let ghost m = i - (s.len() - u.len());
            match state {
                State::Sign => {
                    if b == MINUS {
                        negative = true;
                        state = State::Digit;
                    } else if b >= ZERO && b <= NINE {
                        magnitude = (b - ZERO) as i64;
                        seen_digit = true;
                        state = State::Digit;
                        proof {
                            exact = b - ZERO;
                            assert(u.take(1).drop_last() == Seq::<u8>::empty());
                            assert(digits_value(u.take(1).drop_last()) == 0);
                        }
                    } else {
                        proof {
                            assert(u.take(0) == Seq::<u8>::empty());
                            lemma_classify_by_digit_run(s@, 0);
                        }
                        return Err(ParseError::InvalidCharacter);
                    }
                },
                State::Digit => {
                    if b >= ZERO && b <= NINE {
                        proof {
                            assert(u.take(m + 1).drop_last() == u.take(m));
                            lemma_digits_value_bounds(u.take(m));
                            exact = exact * 10 + (b - ZERO);
                        }
                        if !too_large {
                            magnitude = magnitude * 10 + ((b - ZERO) as i64);
                            if magnitude > i32::MAX as i64 {
                                too_large = true;
                                magnitude = 0;
                            }
                        }
                        seen_digit = true;
                    } else if b == POINT && seen_digit {
                        state = State::Frac;
                    } else {
                        proof {
                            lemma_classify_by_digit_run(s@, m);
                        }
                        return Err(ParseError::InvalidCharacter);
                    }
                },
                State::Frac => {
                    if b >= ZERO && b <= NINE {
                        proof {
                            lemma_digits_value_bounds(u.take(m - 1));
                            exact = exact * 10 + (b - ZERO);
                        }
                        if !too_large {
                            magnitude = magnitude * 10 + ((b - ZERO) as i64);
                            if magnitude > i32::MAX as i64 {
                                too_large = true;
                                magnitude = 0;
                            }
                        }
                        state = State::Done;
                    } else {
                        proof {
                            lemma_classify_by_digit_run(s@, m - 1);
                        }
                        return Err(ParseError::InvalidCharacter);
                    }
                },
                State::Done => {
                    proof {
                        lemma_classify_by_digit_run(s@, m - 2);
                    }
                    return Err(ParseError::TrailingCharacters);
                },
            }
        }

        let ghost u = unsigned_part(s@);
        match state {
            State::Sign => Err(ParseError::TruncatedInput),
            State::Digit => {
                proof {
                    assert(u.take(u.len() as int) == u);
                    lemma_classify_by_digit_run(s@, u.len() as int);
                }
                Err(ParseError::TruncatedInput)
            },
            State::Frac => Err(ParseError::TruncatedInput),
            State::Done => {
                if too_large {
                    Err(ParseError::OutOfRange)
                } else {
                    let tenths: i32 = magnitude as i32;
                    Ok(Temperature { tenths: if negative { -tenths } else { tenths } })
                }
            },
        }
    }

    /// Adds `rhs` to this temperature. The sum is exact; it has to fit.
    pub fn add_assign(&mut self, rhs: Temperature)
        requires
            i32::MIN <= old(self).value() + rhs.value() <= i32::MAX,
        ensures
            final(self).value() == old(self).value() + rhs.value(),
    {
        self.tenths += rhs.tenths;
    }

    /// Divides by a count and rounds to the nearest tenth, a tie going away
    /// from zero: 25 tenths over 2 are 13 tenths, -25 tenths over 2 are -13.
    /// A count of zero gives the end of the range on the side of `self`.
    pub fn div(self, rhs: u32) -> (q: Temperature)
        ensures
            q.value() == divided(self.value(), rhs as int),
    {
        let x: i64 = self.tenths as i64;
        let n: i64 = rhs as i64;
        if rhs == 0 {
            let tenths: i32 = if x > 0 {
                i32::MAX
            } else if x < 0 {
                i32::MIN
            } else {
                0
            };
            Temperature { tenths }
        } else if x >= 0 {
            proof {
                lemma_rounded_quotient_is_nearest(x as int, n as int);
            }
            Temperature { tenths: ((x + n / 2) / n) as i32 }
        } else {
            proof {
                lemma_rounded_quotient_is_nearest(x as int, n as int);
            }
            Temperature { tenths: (-((-x + n / 2) / n)) as i32 }
        }
    }

    /// Tests whether the digits of `s`, read as one number, fit a temperature:
    /// the condition under which [`Temperature::parse`] may be called.
    pub fn in_range(s: &[u8]) -> (fits: bool)
        ensures
            fits == (relaxed_magnitude(s@) <= i32::MAX),
    {
        let mut magnitude: i64 = 0;

        for i in 0..s.len()
            invariant
                magnitude == relaxed_magnitude(s@.take(i as int)),
                magnitude <= i32::MAX,
        {
            let b: u8 = s[i];
            proof {
                lemma_relaxed_magnitude_grows(s@, i + 1);
                assert(s@.take(i + 1).drop_last() == s@.take(i as int));
            }
            if b >= ZERO && b <= NINE {
                magnitude = magnitude * 10 + ((b - ZERO) as i64);
                if magnitude > i32::MAX as i64 {
                    return false;
                }
            }
        }
        assert(s@.take(s.len() as int) == s@);
        true
    }
}

/// The relaxed magnitude is never negative.
pub proof fn lemma_relaxed_magnitude_nonnegative(s: Seq<u8>)
    ensures
        0 <= relaxed_magnitude(s),
    decreases s.len(),
{
    if s.len() > 0 {
        lemma_relaxed_magnitude_nonnegative(s.drop_last());
    }
}

/// The relaxed magnitude never shrinks as more bytes are read.
pub proof fn lemma_relaxed_magnitude_grows(s: Seq<u8>, n: int)
    requires
        0 <= n <= s.len(),
    ensures
        0 <= relaxed_magnitude(s.take(n)) <= relaxed_magnitude(s),
    decreases s.len() - n,
{
    lemma_relaxed_magnitude_nonnegative(s.take(n));
    if n == s.len() {
        assert(s.take(n) == s);
    } else {
        lemma_relaxed_magnitude_grows(s, n + 1);
        assert(s.take(n + 1).drop_last() == s.take(n));
    }
}

/// A string of digits denotes a number that is not negative, and adding a
/// digit at its end does not make it smaller.
pub proof fn lemma_digits_value_bounds(s: Seq<u8>)
    requires
        all_digits(s),
    ensures
        0 <= digits_value(s),
        s.len() > 0 ==> digits_value(s.drop_last()) <= digits_value(s),
    decreases s.len(),
{
    if s.len() > 0 {
        assert(is_digit(s[s.len() - 1]));
        lemma_digits_value_bounds(s.drop_last());
    }
}

/// On a string of digits the relaxed parser reads the number that the string
/// denotes.
pub proof fn lemma_relaxed_magnitude_of_digits(s: Seq<u8>)
    requires
        all_digits(s),
    ensures
        relaxed_magnitude(s) == digits_value(s),
    decreases s.len(),
{
    if s.len() > 0 {
        assert(is_digit(s[s.len() - 1]));
        lemma_relaxed_magnitude_of_digits(s.drop_last());
    }
}

/// A byte that is no digit can be put in front of `s` without changing the
/// magnitude that the relaxed parser reads.
pub proof fn lemma_relaxed_magnitude_skips_first(s: Seq<u8>)
    requires
        s.len() > 0,
        !is_digit(s[0]),
    ensures
        relaxed_magnitude(s) == relaxed_magnitude(s.skip(1)),
    decreases s.len(),
{
    if s.len() == 1 {
        assert(relaxed_magnitude(s.drop_last()) == 0);
        assert(relaxed_magnitude(s.skip(1)) == 0);
    } else {
        lemma_relaxed_magnitude_skips_first(s.drop_last());
        assert(s.drop_last().skip(1) == s.skip(1).drop_last());
        assert(s.last() == s.skip(1).last());
    }
}

/// The two parsers agree on every input of the strict grammar: what the
/// relaxed parser reads from a well-formed decimal is its value.
pub proof fn lemma_relaxed_agrees_with_strict(s: Seq<u8>)
    requires
        is_decimal(s),
    ensures
        relaxed_magnitude(s) == decimal_magnitude(s),
        relaxed_value(s) == decimal_value(s),
{
    let u = unsigned_part(s);
    let whole = u.take(u.len() - 2);
    assert(u.drop_last().drop_last() == whole);
    lemma_relaxed_magnitude_of_digits(whole);
    assert(u.drop_last().last() == POINT);
    assert(relaxed_magnitude(u.drop_last()) == relaxed_magnitude(whole));
    assert(relaxed_magnitude(u) == decimal_magnitude(s));
    if has_sign(s) {
        lemma_relaxed_magnitude_skips_first(s);
    } else {
        assert forall|i: int| 0 <= i < s.len() implies s[i] != MINUS by {
            if i < s.len() - 2 {
                assert(is_digit(whole[i]));
            }
        }
    }
}

/// Classifies `s` by its leading run of digits. With `k` the number of digits
/// that follow the optional sign before the first other byte (or the end),
/// `s` is a decimal when that run is not empty and a point and one digit
/// follow it and nothing else; it is the start of one when it ends with the
/// run or with the point after it; and it has a decimal as a proper prefix
/// when more bytes follow the fractional digit.
pub proof fn lemma_classify_by_digit_run(s: Seq<u8>, k: int)
    requires
        0 <= k <= unsigned_part(s).len(),
        all_digits(unsigned_part(s).take(k)),
        k < unsigned_part(s).len() ==> !is_digit(unsigned_part(s)[k]),
    ensures
        is_decimal(s) <==> {
            let u = unsigned_part(s);
            k >= 1 && u.len() == k + 2 && u[k] == POINT && is_digit(u[k + 1])
        },
        is_decimal_start(s) <==> {
            let u = unsigned_part(s);
            k == u.len() || (k >= 1 && u.len() == k + 1 && u[k] == POINT)
        },
        has_decimal_prefix(s) <==> {
            let u = unsigned_part(s);
            k >= 1 && u.len() > k + 2 && u[k] == POINT && is_digit(u[k + 1])
        },
        is_decimal(s) ==> decimal_magnitude(s) == digits_value(unsigned_part(s).take(k)) * 10 + (
        unsigned_part(s)[k + 1] - ZERO),
{
    let u = unsigned_part(s);
    let run = u.take(k);
    assert forall|j: int| 0 <= j < k implies is_digit(u[j]) by {
        assert(is_digit(run[j]));
    }
    if is_decimal(s) {
        let whole = u.take(u.len() - 2);
        if k < u.len() - 2 {
            assert(is_digit(whole[k]));
        }
        if k > u.len() - 2 {
            assert(is_digit(u[u.len() - 2]));
        }
        assert(whole == run);
    }
    if k >= 1 && u.len() == k + 2 && u[k] == POINT && is_digit(u[k + 1]) {
        assert(u.take(u.len() - 2) == run);
    }
    if is_decimal_start(s) {
        if all_digits(u) {
            if k < u.len() {
                assert(is_digit(u[k]));
            }
        } else {
            let front = u.drop_last();
            if k < u.len() - 1 {
                assert(is_digit(front[k]));
            }
            if k > u.len() - 1 {
                assert(is_digit(u[u.len() - 1]));
            }
            assert(front[0] == u[0]);
        }
    }
    if k == u.len() {
        assert(u == run);
    }
    if k >= 1 && u.len() == k + 1 && u[k] == POINT {
        assert(u.drop_last() == run);
    }
    if has_decimal_prefix(s) {
        let n = choose|n: int| 0 <= n < s.len() && is_decimal(#[trigger] s.take(n));
        let t = s.take(n);
        let v = unsigned_part(t);
        assert(t.len() >= 3);
        assert(has_sign(t) == has_sign(s));
        assert(unsigned_part(t) == u.take(v.len() as int));
        let whole = v.take(v.len() - 2);
        if k < v.len() - 2 {
            assert(is_digit(whole[k]));
        }
        if k > v.len() - 2 {
            assert(is_digit(u[v.len() - 2]));
        }
        assert(v[v.len() - 2] == u[v.len() - 2]);
        assert(v[v.len() - 1] == u[v.len() - 1]);
    }
    if k >= 1 && u.len() > k + 2 && u[k] == POINT && is_digit(u[k + 1]) {
        let n = s.len() - u.len() + k + 2;
        let t = s.take(n);
        assert(has_sign(t) == has_sign(s));
        let v = unsigned_part(t);
        assert(v == u.take(k + 2));
        assert(v.take(v.len() - 2) == run);
        assert(is_decimal(s.take(n)));
    }
}

/// The rounded quotient is the integer nearest to `x / n`: it differs from
/// the exact quotient by at most one half, and where it differs by exactly
/// one half it is the one of the two candidates that lies further from zero.
/// It is the only integer of which both hold, and it lies between zero and
/// `x`.
pub proof fn lemma_rounded_quotient_is_nearest(x: int, n: int)
    requires
        n > 0,
    ensures
        ({
            let q = rounded_quotient(x, n);
            &&& -n <= 2 * (q * n - x) <= n
            &&& (2 * (q * n - x) == n ==> x >= 0)
            &&& (2 * (q * n - x) == -n ==> x < 0)
            &&& (x >= 0 ==> 0 <= q <= x)
            &&& (x <= 0 ==> x <= q <= 0)
        }),
        forall|p: int|
            {
                &&& -n <= 2 * (#[trigger] (p * n) - x) <= n
                &&& (2 * (p * n - x) == n ==> x >= 0)
                &&& (2 * (p * n - x) == -n ==> x < 0)
            } ==> p == rounded_quotient(x, n),
{
    let q = rounded_quotient(x, n);
    let a = if x >= 0 { x } else { -x };
    let h = n / 2;
    let m = (a + h) / n;
    assert(0 <= (a + h) - m * n < n && 0 <= m <= a) by (nonlinear_arith)
        requires
            m == (a + h) / n,
            a >= 0,
            0 <= h < n,
    ;
    assert((-m) * n == -(m * n)) by (nonlinear_arith);
    assert forall|p: int|
        {
            &&& -n <= 2 * (#[trigger] (p * n) - x) <= n
            &&& (2 * (p * n - x) == n ==> x >= 0)
            &&& (2 * (p * n - x) == -n ==> x < 0)
        } implies p == q by {
        assert(p == q) by (nonlinear_arith)
            requires
                n > 0,
                -n <= 2 * (p * n - x) <= n,
                -n <= 2 * (q * n - x) <= n,
                2 * (p * n - x) == n ==> x >= 0,
                2 * (p * n - x) == -n ==> x < 0,
                2 * (q * n - x) == n ==> x >= 0,
                2 * (q * n - x) == -n ==> x < 0,
        ;
    }
}

} // verus!
