//! The final summary: least, mean and greatest reading of every station, in
//! the order of the stations' names.

use vstd::prelude::*;
use vstd::seq_lib::to_multiset_contains;
use vstd::seq_lib::to_multiset_remove;
use crate::model::Summaries;
use crate::order::lemma_precedes_asymmetric;
use crate::order::lemma_precedes_total;
use crate::order::precedes;
use crate::order::sort_by_name;
use crate::order::strictly_ascending;
use crate::results::lists_summaries;
use crate::results::ResultsMap;
use crate::stats::FinalStats;
use crate::stats::Summary;

verus! {

/// True when `stats` reports the least, the rounded mean and the greatest
/// reading of `summary`.
pub open spec fn reports(stats: FinalStats, summary: Summary) -> bool {
    &&& stats.min.value() == summary.min
    &&& stats.mean.value() == summary.mean()
    &&& stats.max.value() == summary.max
    &&& stats.min.value() <= stats.mean.value() <= stats.max.value()
}

/// True when `list` is the summary of `m`: it has one entry for each station
/// of `m` and no other, each entry reports what `m` holds of its station, and
/// the names go up strictly from entry to entry. There is one such list only.
pub open spec fn is_summary_of(list: Seq<(Vec<u8>, FinalStats)>, m: Summaries) -> bool {
    &&& strictly_ascending(list)
    &&& forall|i: int|
        0 <= i < list.len() ==> m.dom().contains(#[trigger] list[i].0@) && reports(
            list[i].1,
            m[list[i].0@],
        )
    &&& forall|k: Seq<u8>|
        m.dom().contains(k) ==> exists|i: int| 0 <= i < list.len() && #[trigger] list[i].0@ == k
}

/// Finalizes the statistics of every station and puts them in the order of
/// the stations' names.
pub fn summarize(results: ResultsMap) -> (summary: Vec<(Vec<u8>, FinalStats)>)
    requires
        results.wf(),
    ensures
        is_summary_of(summary@, results@),
{
    let entries = results.into_entries();
    let mut summary: Vec<(Vec<u8>, FinalStats)> = Vec::new();
    for entry in it: entries.into_iter()
        invariant
            it.seq() == entries@,
            lists_summaries(entries@, results@),
            summary.len() == it.index(),
            forall|i: int|
                0 <= i < summary.len() ==> (#[trigger] summary@[i]).0@ == entries@[i].0@ && reports(
                    summary@[i].1,
                    entries@[i].1@,
                ),
    {
        let ghost n = it.index();
        assert(results@.dom().contains(entries@[n].0@));
        let (city, stats) = entry;
        summary.push((city, stats.finalize()));
    }
    let ghost unsorted = summary@;
    sort_by_name(&mut summary);
    proof {
        let sorted = summary@;
        assert forall|i: int, j: int| 0 <= i < j < unsorted.len() implies #[trigger] unsorted[i].0@
            != #[trigger] unsorted[j].0@ by {
            assert(entries@[i].0@ != entries@[j].0@);
        }
        lemma_rearranged_names_differ(sorted, unsorted);
        assert forall|i: int, j: int| 0 <= i < j < sorted.len() implies precedes(
            #[trigger] sorted[i].0@,
            #[trigger] sorted[j].0@,
        ) by {
            assert(sorted[i].0@ != sorted[j].0@);
            lemma_precedes_total(sorted[i].0@, sorted[j].0@);
            assert(!precedes(sorted[j].0@, sorted[i].0@));
        }
        assert forall|i: int| 0 <= i < sorted.len() implies results@.dom().contains(
            #[trigger] sorted[i].0@,
        ) && reports(sorted[i].1, results@[sorted[i].0@]) by {
            assert(sorted.contains(sorted[i]));
            lemma_same_members(sorted, unsorted, sorted[i]);
            let x = choose|x: int| 0 <= x < unsorted.len() && unsorted[x] == sorted[i];
            assert(results@.dom().contains(entries@[x].0@));
        }
        assert forall|k: Seq<u8>| results@.dom().contains(k) implies exists|i: int|
            0 <= i < sorted.len() && #[trigger] sorted[i].0@ == k by {
            let x = choose|x: int| 0 <= x < entries@.len() && #[trigger] entries@[x].0@ == k;
            assert(unsorted.contains(unsorted[x]));
            lemma_same_members(unsorted, sorted, unsorted[x]);
            let i = choose|i: int| 0 <= i < sorted.len() && sorted[i] == unsorted[x];
            assert(sorted[i].0@ == k);
        }
    }
    summary
}

/// Two lists that are each the summary of the same summaries agree entry by
/// entry: same length, the same names byte for byte, the same statistics.
pub proof fn lemma_summary_is_unique(
    a: Seq<(Vec<u8>, FinalStats)>,
    b: Seq<(Vec<u8>, FinalStats)>,
    m: Summaries,
)
    requires
        is_summary_of(a, m),
        is_summary_of(b, m),
    ensures
        a.len() == b.len(),
        forall|i: int| 0 <= i < a.len() ==> (#[trigger] a[i]).0@ == b[i].0@ && a[i].1 == b[i].1,
    decreases a.len(),
{
    if a.len() == 0 {
        if b.len() > 0 {
            assert(m.dom().contains(b[0].0@));
        }
    } else if b.len() == 0 {
        assert(m.dom().contains(a[0].0@));
    } else {
        let x = a.len() - 1;
        let y = b.len() - 1;
        assert(m.dom().contains(a[x].0@));
        assert(m.dom().contains(b[y].0@));
        let i = choose|i: int| 0 <= i < a.len() && #[trigger] a[i].0@ == b[y].0@;
        let j = choose|j: int| 0 <= j < b.len() && #[trigger] b[j].0@ == a[x].0@;
        if i < x && j < y {
            assert(precedes(a[i].0@, a[x].0@));
            assert(precedes(b[j].0@, b[y].0@));
            lemma_precedes_asymmetric(a[x].0@, b[y].0@);
        } else if i < x {
            assert(precedes(a[i].0@, a[x].0@));
            lemma_precedes_asymmetric(a[x].0@, a[x].0@);
        } else if j < y {
            assert(precedes(b[j].0@, b[y].0@));
            lemma_precedes_asymmetric(b[y].0@, b[y].0@);
        }
        let name = a[x].0@;
        assert(b[y].0@ == name);
        let rest = m.remove(name);
        lemma_summary_without_last(a, m);
        lemma_summary_without_last(b, m);
        lemma_summary_is_unique(a.drop_last(), b.drop_last(), rest);
        assert forall|k: int| 0 <= k < a.len() implies (#[trigger] a[k]).0@ == b[k].0@ && a[k].1
            == b[k].1 by {
            if k < x {
                assert(a.drop_last()[k] == a[k]);
                assert(b.drop_last()[k] == b[k]);
            } else {
                assert(m.dom().contains(a[x].0@));
                assert(m.dom().contains(b[y].0@));
                assert(a[x].1.min.tenths == b[y].1.min.tenths);
                assert(a[x].1.mean.tenths == b[y].1.mean.tenths);
                assert(a[x].1.max.tenths == b[y].1.max.tenths);
            }
        }
    }
}

/// A summary without its last entry is the summary of what is left when the
/// station of that entry is taken away.
proof fn lemma_summary_without_last(list: Seq<(Vec<u8>, FinalStats)>, m: Summaries)
    requires
        list.len() > 0,
        is_summary_of(list, m),
    ensures
        is_summary_of(list.drop_last(), m.remove(list.last().0@)),
{
    let front = list.drop_last();
    let name = list.last().0@;
    let rest = m.remove(name);
    assert forall|i: int, j: int| 0 <= i < j < front.len() implies precedes(
        #[trigger] front[i].0@,
        #[trigger] front[j].0@,
    ) by {
        assert(precedes(list[i].0@, list[j].0@));
    }
    assert forall|i: int| 0 <= i < front.len() implies rest.dom().contains(
        #[trigger] front[i].0@,
    ) && reports(front[i].1, rest[front[i].0@]) by {
        assert(m.dom().contains(list[i].0@));
        assert(precedes(list[i].0@, list[list.len() - 1].0@));
        lemma_precedes_asymmetric(name, name);
    }
    assert forall|k: Seq<u8>| rest.dom().contains(k) implies exists|i: int|
        0 <= i < front.len() && #[trigger] front[i].0@ == k by {
        let i = choose|i: int| 0 <= i < list.len() && #[trigger] list[i].0@ == k;
        assert(front[i].0@ == k);
    }
}

/// An entry that stands at two places of a sequence occurs at least twice in
/// it.
proof fn lemma_twice_in_multiset<A>(s: Seq<A>, i: int, j: int)
    requires
        0 <= i < j < s.len(),
        s[i] == s[j],
    ensures
        s.to_multiset().count(s[i]) >= 2,
{
    broadcast use vstd::multiset::group_multiset_axioms;

    let rest = s.remove(j);
    to_multiset_remove(s, j);
    to_multiset_contains(rest, s[i]);
    to_multiset_contains(s, s[i]);
    assert(rest.len() == s.len() - 1);
    assert(rest[i] == s[i]);
    assert(rest.contains(s[i]));
    assert(s.contains(s[i]));
    assert(rest.to_multiset().count(s[i]) == s.to_multiset().count(s[i]) - 1);
}

/// Two lists that hold the same entries the same number of times have the
/// same members.
proof fn lemma_same_members<A>(a: Seq<A>, b: Seq<A>, x: A)
    requires
        a.to_multiset() == b.to_multiset(),
        a.contains(x),
    ensures
        b.contains(x),
{
    to_multiset_contains(a, x);
    to_multiset_contains(b, x);
}

/// A list that holds the entries of another list, the same number of times
/// each, has no two entries of one name if the other has none.
proof fn lemma_rearranged_names_differ(
    list: Seq<(Vec<u8>, FinalStats)>,
    source: Seq<(Vec<u8>, FinalStats)>,
)
    requires
        list.to_multiset() == source.to_multiset(),
        forall|i: int, j: int|
            0 <= i < j < source.len() ==> #[trigger] source[i].0@ != #[trigger] source[j].0@,
    ensures
        forall|i: int, j: int|
            0 <= i < j < list.len() ==> #[trigger] list[i].0@ != #[trigger] list[j].0@,
{
    assert(source.no_duplicates()) by {
        assert forall|i: int, j: int|
            0 <= i < source.len() && 0 <= j < source.len() && i != j implies source[i]
            != source[j] by {
            if i < j {
                assert(source[i].0@ != source[j].0@);
            } else {
                assert(source[j].0@ != source[i].0@);
            }
        }
    }
    source.lemma_multiset_has_no_duplicates();
    assert forall|i: int, j: int| 0 <= i < j < list.len() implies #[trigger] list[i].0@
        != #[trigger] list[j].0@ by {
        if list[i].0@ == list[j].0@ {
            assert(list.contains(list[i]));
            assert(list.contains(list[j]));
            lemma_same_members(list, source, list[i]);
            lemma_same_members(list, source, list[j]);
            let x = choose|x: int| 0 <= x < source.len() && source[x] == list[i];
            let y = choose|y: int| 0 <= y < source.len() && source[y] == list[j];
            if x == y {
                lemma_twice_in_multiset(list, i, j);
                assert(source.to_multiset().contains(list[i]));
            } else if x < y {
                assert(source[x].0@ != source[y].0@);
            } else {
                assert(source[y].0@ != source[x].0@);
            }
        }
    }
}

} // verus!
