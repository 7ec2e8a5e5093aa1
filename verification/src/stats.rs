//! Running statistics of the readings of one station.

use vstd::prelude::*;
use crate::temperature::divided;
use crate::temperature::lemma_rounded_quotient_is_nearest;
use crate::temperature::Temperature;

verus! {

/// What is known of a group of readings, all values in tenths of a degree:
/// their exact sum, how many they are, the least and the greatest of them.
pub struct Summary {
    pub sum: int,
    pub count: nat,
    pub min: int,
    pub max: int,
}

impl Summary {
    /// The summary of a single reading.
    pub open spec fn of(v: int) -> Summary {
        Summary { sum: v, count: 1, min: v, max: v }
    }

    /// The summary of two groups of readings taken together.
    pub open spec fn absorb(self, other: Summary) -> Summary {
        Summary {
            sum: self.sum + other.sum,
            count: self.count + other.count,
            min: if other.min < self.min { other.min } else { self.min },
            max: if other.max > self.max { other.max } else { self.max },
        }
    }

    /// The summary of the group and one more reading.
    pub open spec fn incorporate(self, v: int) -> Summary {
        self.absorb(Summary::of(v))
    }

    /// What holds of the summary of every group of at least one reading: the
    /// least is not above the greatest, and the sum lies between as many times
    /// the least and as many times the greatest as there are readings.
    pub open spec fn wf(self) -> bool {
        &&& self.count >= 1
        &&& self.min <= self.max
        &&& self.count * self.min <= self.sum <= self.count * self.max
    }

    /// True when sum and count can be held in 32 bits.
    pub open spec fn fits(self) -> bool {
        &&& i32::MIN <= self.sum <= i32::MAX
        &&& self.count <= u32::MAX
    }

    /// The mean of the readings, rounded to the nearest tenth.
    pub open spec fn mean(self) -> int {
        divided(self.sum, self.count as int)
    }
}

/// The running statistics of one station: total, count, least and greatest
/// reading so far.
#[derive(Clone, Copy, Debug)]
pub struct Stats {
    total: Temperature,
    count: u32,
    min: Temperature,
    max: Temperature,
}

/// The statistics of one station as they are reported: the least reading, the
/// rounded mean and the greatest reading.
#[derive(Clone, Copy, Debug, PartialEq, Eq, Structural)]
pub struct FinalStats {
    pub mean: Temperature,
    pub min: Temperature,
    pub max: Temperature,
}

impl View for Stats {
    type V = Summary;

    closed spec fn view(&self) -> Summary {
        Summary {
            sum: self.total.value(),
            count: self.count as nat,
            min: self.min.value(),
            max: self.max.value(),
        }
    }
}

impl Stats {
    /// True of every value that this module hands out: there is at least one
    /// reading, and least, greatest and total are consistent.
    pub open spec fn wf(&self) -> bool {
        self@.wf()
    }

    /// The statistics of a station of which one reading is known.
    pub fn new(temp: Temperature) -> (stats: Stats)
        ensures
            stats.wf(),
            stats@ == Summary::of(temp.value()),
    {
        Stats { total: temp, count: 1, min: temp, max: temp }
    }

    /// The least, the rounded mean and the greatest of the readings.
    pub fn finalize(self) -> (f: FinalStats)
        requires
            self.wf(),
        ensures
            f.min.value() == self@.min,
            f.max.value() == self@.max,
            f.mean.value() == self@.mean(),
            f.min.value() <= f.mean.value() <= f.max.value(),
    {
        proof {
            lemma_mean_between(self@);
        }
        FinalStats { mean: self.total.div(self.count), min: self.min, max: self.max }
    }

    /// True when one more reading of `temp` can be taken in: the new total and
    /// the new count fit.
    pub fn can_update_row(&self, temp: Temperature) -> (fits: bool)
        ensures
            fits == self@.incorporate(temp.value()).fits(),
    {
        let total: i64 = self.total.tenths as i64 + temp.tenths as i64;
        self.count < u32::MAX && i32::MIN as i64 <= total && total <= i32::MAX as i64
    }

    /// Takes in one more reading.
    pub fn update_row(&mut self, temp: Temperature)
        requires
            old(self).wf(),
            old(self)@.incorporate(temp.value()).fits(),
        ensures
            final(self).wf(),
            final(self)@ == old(self)@.incorporate(temp.value()),
    {
        proof {
            lemma_of_wf(temp.value());
            lemma_absorb_wf(self@, Summary::of(temp.value()));
        }
        self.total.add_assign(temp);
        self.count += 1;
        if temp.tenths < self.min.tenths {
            self.min = temp;
        }
        if temp.tenths > self.max.tenths {
            self.max = temp;
        }
    }

    /// True when the readings behind `other` can be taken in: the new total
    /// and the new count fit.
    pub fn can_update_stats(&self, other: Stats) -> (fits: bool)
        ensures
            fits == self@.absorb(other@).fits(),
    {
        let total: i64 = self.total.tenths as i64 + other.total.tenths as i64;
        let count: u64 = self.count as u64 + other.count as u64;
        count <= u32::MAX as u64 && i32::MIN as i64 <= total && total <= i32::MAX as i64
    }

    /// Takes in the readings behind `other`, which are of the same station.
    pub fn update_stats(&mut self, other: Stats)
        requires
            old(self).wf(),
            other.wf(),
            old(self)@.absorb(other@).fits(),
        ensures
            final(self).wf(),
            final(self)@ == old(self)@.absorb(other@),
    {
        proof {
            lemma_absorb_wf(self@, other@);
        }
        self.total.add_assign(other.total);
        self.count += other.count;
        if other.min.tenths < self.min.tenths {
            self.min = other.min;
        }
        if other.max.tenths > self.max.tenths {
            self.max = other.max;
        }
    }

    /// The exact sum of the readings.
    pub fn total(&self) -> (t: Temperature)
        ensures
            t.value() == self@.sum,
    {
        self.total
    }

    /// The number of readings.
    pub fn count(&self) -> (n: u32)
        ensures
            n == self@.count,
    {
        self.count
    }

    /// The least reading.
    pub fn min(&self) -> (t: Temperature)
        ensures
            t.value() == self@.min,
    {
        self.min
    }

    /// The greatest reading.
    pub fn max(&self) -> (t: Temperature)
        ensures
            t.value() == self@.max,
    {
        self.max
    }
}

/// The summary of a single reading is well formed.
pub proof fn lemma_of_wf(v: int)
    ensures
        Summary::of(v).wf(),
{
}

/// Taking two well-formed summaries together gives a well-formed summary.
pub proof fn lemma_absorb_wf(a: Summary, b: Summary)
    requires
        a.wf(),
        b.wf(),
    ensures
        a.absorb(b).wf(),
{
    let c = a.absorb(b);
    assert((a.count + b.count) * c.min <= a.count * a.min + b.count * b.min) by (nonlinear_arith)
        requires
            c.min <= a.min,
            c.min <= b.min,
    ;
    assert(a.count * a.max + b.count * b.max <= (a.count + b.count) * c.max) by (nonlinear_arith)
        requires
            a.max <= c.max,
            b.max <= c.max,
    ;
}

/// It does not matter which of two groups absorbs the other.
pub proof fn lemma_absorb_commutative(a: Summary, b: Summary)
    ensures
        a.absorb(b) == b.absorb(a),
{
}

/// It does not matter in which order three groups are taken together.
pub proof fn lemma_absorb_associative(a: Summary, b: Summary, c: Summary)
    ensures
        a.absorb(b).absorb(c) == a.absorb(b.absorb(c)),
{
}

/// The rounded mean of a well-formed summary lies between its least and its
/// greatest reading.
pub proof fn lemma_mean_between(s: Summary)
    requires
        s.wf(),
    ensures
        s.min <= s.mean() <= s.max,
{
    let n = s.count as int;
    let q = s.mean();
    lemma_rounded_quotient_is_nearest(s.sum, n);
    assert(s.min <= q) by (nonlinear_arith)
        requires
            n >= 1,
            n * s.min <= s.sum,
            -n <= 2 * (q * n - s.sum),
    ;
    assert(q <= s.max) by (nonlinear_arith)
        requires
            n >= 1,
            s.sum <= n * s.max,
            2 * (q * n - s.sum) <= n,
    ;
}

} // verus!
