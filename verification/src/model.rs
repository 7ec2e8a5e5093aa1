//! The mathematical model of aggregation: readings, the summaries that they
//! add up to station by station, and the laws that make the result
//! independent of how the readings are grouped and ordered.

use vstd::prelude::*;
use vstd::seq_lib::to_multiset_remove;
use crate::stats::lemma_absorb_wf;
use crate::stats::lemma_of_wf;
use crate::stats::Summary;

verus! {

/// One reading: the name of a station, and a temperature in tenths of a
/// degree.
pub struct Reading {
    pub station: Seq<u8>,
    pub tenths: int,
}

/// The summary of each station of which there is a reading.
pub type Summaries = Map<Seq<u8>, Summary>;

/// No station at all.
pub open spec fn no_summaries() -> Summaries {
    Map::empty()
}

/// The summaries after one more reading: the reading is incorporated into
/// the summary of its station, or starts that summary.
pub open spec fn ingested(m: Summaries, r: Reading) -> Summaries {
    if m.dom().contains(r.station) {
        m.insert(r.station, m[r.station].incorporate(r.tenths))
    } else {
        m.insert(r.station, Summary::of(r.tenths))
    }
}

/// The summaries of two groups of readings taken together: a station that
/// occurs in both has its two summaries absorbed into one, every other
/// station keeps the summary that it has.
pub open spec fn merged(a: Summaries, b: Summaries) -> Summaries {
    Map::new(
        |k: Seq<u8>| a.dom().contains(k) || b.dom().contains(k),
        |k: Seq<u8>|
            if a.dom().contains(k) && b.dom().contains(k) {
                a[k].absorb(b[k])
            } else if a.dom().contains(k) {
                a[k]
            } else {
                b[k]
            },
    )
}

/// The summaries of a sequence of readings, taken in one after the other.
pub open spec fn aggregate(readings: Seq<Reading>) -> Summaries
    decreases readings.len(),
{
    if readings.len() == 0 {
        no_summaries()
    } else {
        ingested(aggregate(readings.drop_last()), readings.last())
    }
}

/// The summaries of several groups taken together, from the first to the
/// last.
pub open spec fn merged_all(parts: Seq<Summaries>) -> Summaries
    decreases parts.len(),
{
    if parts.len() == 0 {
        no_summaries()
    } else {
        merged(merged_all(parts.drop_last()), parts.last())
    }
}

/// True when every summary is well formed.
pub open spec fn all_wf(m: Summaries) -> bool {
    forall|k: Seq<u8>| m.dom().contains(k) ==> (#[trigger] m[k]).wf()
}

/// True when the reading can be taken in without a sum or a count leaving
/// its 32 bits.
pub open spec fn can_ingest(m: Summaries, r: Reading) -> bool {
    m.dom().contains(r.station) ==> m[r.station].incorporate(r.tenths).fits()
}

/// True when the two can be taken together without a sum or a count leaving
/// its 32 bits.
pub open spec fn can_merge(a: Summaries, b: Summaries) -> bool {
    forall|k: Seq<u8>|
        a.dom().contains(k) && b.dom().contains(k) ==> (#[trigger] a[k]).absorb(b[k]).fits()
}

/// True when the parts can be taken together from the first to the last
/// without a sum or a count leaving its 32 bits.
pub open spec fn can_merge_all(parts: Seq<Summaries>) -> bool {
    forall|i: int|
        0 <= i < parts.len() ==> can_merge(merged_all(#[trigger] parts.take(i)), parts[i])
}

/// Taking in a reading is the same as merging with the summaries of that one
/// reading.
pub proof fn lemma_ingested_is_merged(m: Summaries, r: Reading)
    ensures
        ingested(m, r) == merged(m, aggregate(seq![r])),
{
    let one = seq![r];
    assert(one.drop_last() == Seq::<Reading>::empty());
    assert(aggregate(one.drop_last()) == no_summaries());
    assert(aggregate(one) == no_summaries().insert(r.station, Summary::of(r.tenths)));
    assert(ingested(m, r) =~= merged(m, aggregate(one)));
}

/// Merging with no summaries at all changes nothing, on either side.
pub proof fn lemma_merged_identity(m: Summaries)
    ensures
        merged(m, no_summaries()) == m,
        merged(no_summaries(), m) == m,
{
}

/// Merging does not depend on which side is which.
pub proof fn lemma_merged_commutative(a: Summaries, b: Summaries)
    ensures
        merged(a, b) == merged(b, a),
{
}

/// Merging three does not depend on which two are merged first.
pub proof fn lemma_merged_associative(a: Summaries, b: Summaries, c: Summaries)
    ensures
        merged(merged(a, b), c) == merged(a, merged(b, c)),
{
}

/// Merging keeps summaries well formed.
pub proof fn lemma_merged_wf(a: Summaries, b: Summaries)
    requires
        all_wf(a),
        all_wf(b),
    ensures
        all_wf(merged(a, b)),
{
    assert forall|k: Seq<u8>| merged(a, b).dom().contains(k) implies (#[trigger] merged(
        a,
        b,
    )[k]).wf() by {
        if a.dom().contains(k) && b.dom().contains(k) {
            lemma_absorb_wf(a[k], b[k]);
        }
    }
}

/// Taking in a reading keeps summaries well formed.
pub proof fn lemma_ingested_wf(m: Summaries, r: Reading)
    requires
        all_wf(m),
    ensures
        all_wf(ingested(m, r)),
{
    lemma_of_wf(r.tenths);
    assert forall|k: Seq<u8>| ingested(m, r).dom().contains(k) implies (#[trigger] ingested(
        m,
        r,
    )[k]).wf() by {
        if k == r.station && m.dom().contains(k) {
            lemma_absorb_wf(m[k], Summary::of(r.tenths));
        }
    }
}

/// The summaries of any readings are well formed.
pub proof fn lemma_aggregate_wf(readings: Seq<Reading>)
    ensures
        all_wf(aggregate(readings)),
    decreases readings.len(),
{
    if readings.len() > 0 {
        lemma_aggregate_wf(readings.drop_last());
        lemma_ingested_wf(aggregate(readings.drop_last()), readings.last());
    }
}

/// A reading can be taken in before or after a merge with other summaries.
pub proof fn lemma_ingested_after_merged(a: Summaries, b: Summaries, r: Reading)
    ensures
        ingested(merged(a, b), r) == merged(a, ingested(b, r)),
{
}

/// Aggregating two runs of readings one after the other gives what merging
/// their separate summaries gives.
pub proof fn lemma_aggregate_concat(x: Seq<Reading>, y: Seq<Reading>)
    ensures
        aggregate(x + y) == merged(aggregate(x), aggregate(y)),
    decreases y.len(),
{
    if y.len() == 0 {
        assert(x + y == x);
        lemma_merged_identity(aggregate(x));
    } else {
        assert((x + y).drop_last() == x + y.drop_last());
        assert((x + y).last() == y.last());
        lemma_aggregate_concat(x, y.drop_last());
        lemma_ingested_after_merged(aggregate(x), aggregate(y.drop_last()), y.last());
    }
}

/// The summaries of a sequence of readings depend on the readings only, not
/// on their order.
pub proof fn lemma_aggregate_ignores_order(x: Seq<Reading>, y: Seq<Reading>)
    requires
        x.to_multiset() == y.to_multiset(),
    ensures
        aggregate(x) == aggregate(y),
    decreases x.len(),
{
    broadcast use vstd::seq_lib::group_to_multiset_ensures;

    x.to_multiset_ensures();
    y.to_multiset_ensures();
    if x.len() == 0 {
        assert(y.len() == 0);
    } else {
        let r = x.last();
        assert(x.to_multiset().count(r) > 0) by {
            assert(x.contains(r));
        }
        assert(y.contains(r));
        let i = choose|i: int| 0 <= i < y.len() && y[i] == r;
        let front = y.take(i);
        let back = y.skip(i + 1);
        let rest = y.remove(i);
        assert(rest == front + back);
        assert(y == front + seq![r] + back);
        assert(x.drop_last() == x.remove(x.len() - 1));
        to_multiset_remove(x, x.len() - 1);
        to_multiset_remove(y, i);
        assert(x.drop_last().to_multiset() == rest.to_multiset());
        lemma_aggregate_ignores_order(x.drop_last(), rest);

        let a = aggregate(front);
        let b = aggregate(back);
        let one = aggregate(seq![r]);
        lemma_aggregate_concat(front, seq![r]);
        lemma_aggregate_concat(front + seq![r], back);
        lemma_aggregate_concat(front, back);
        lemma_merged_associative(a, one, b);
        lemma_merged_commutative(one, b);
        lemma_merged_associative(a, b, one);
        lemma_ingested_is_merged(aggregate(rest), r);
    }
}

/// Aggregating each group by itself and merging the results gives what
/// aggregating all the groups in a row gives.
pub proof fn lemma_merged_all_is_aggregate(groups: Seq<Seq<Reading>>)
    ensures
        merged_all(groups.map_values(|g: Seq<Reading>| aggregate(g))) == aggregate(
            groups.flatten(),
        ),
    decreases groups.len(),
{
    let parts = groups.map_values(|g: Seq<Reading>| aggregate(g));
    if groups.len() == 0 {
        assert(groups.flatten() == Seq::<Reading>::empty());
    } else {
        let front = groups.drop_last();
        assert(parts.drop_last() == front.map_values(|g: Seq<Reading>| aggregate(g)));
        lemma_merged_all_is_aggregate(front);
        assert(groups == front.push(groups.last()));
        front.lemma_flatten_push(groups.last());
        lemma_aggregate_concat(front.flatten(), groups.last());
    }
}

/// However readings are divided into groups and whatever the order within
/// and between the groups, aggregating each group by itself and merging the
/// partial results gives, station by station, the sum, count, least and
/// greatest that aggregating all the readings in one pass gives.
pub proof fn lemma_grouping_is_unobservable(groups: Seq<Seq<Reading>>, whole: Seq<Reading>)
    requires
        groups.flatten().to_multiset() == whole.to_multiset(),
    ensures
        merged_all(groups.map_values(|g: Seq<Reading>| aggregate(g))) == aggregate(whole),
{
    lemma_merged_all_is_aggregate(groups);
    lemma_aggregate_ignores_order(groups.flatten(), whole);
}

} // verus!
