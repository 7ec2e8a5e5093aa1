//! The statistics of every station seen so far, and how two such collections
//! are combined.

use vstd::prelude::*;
use vstd::slice::slice_to_vec;
use crate::model::all_wf;
use crate::model::can_ingest;
use crate::model::can_merge;
use crate::model::can_merge_all;
use crate::model::ingested;
use crate::model::lemma_merged_wf;
use crate::model::merged;
use crate::model::merged_all;
use crate::model::no_summaries;
use crate::model::Summaries;
use crate::row::Row;
use crate::stats::Stats;
use crate::table::lists_borrowed_entries;
use crate::table::lists_entries;
use crate::table::table_entries;
use crate::table::table_get;
use crate::table::table_get_mut;
use crate::table::table_insert;
use crate::table::table_into_entries;
use crate::table::table_is_empty;
use crate::table::table_items;
use crate::table::table_new;
use crate::table::Table;

verus! {

/// The running statistics of every station of which a record was taken in.
#[derive(Debug)]
pub struct ResultsMap {
    map: Table,
}

impl View for ResultsMap {
    type V = Summaries;

    closed spec fn view(&self) -> Summaries {
        table_entries(self.map).map_values(|stats: Stats| stats@)
    }
}

/// The summaries behind each of several collections.
pub open spec fn views(parts: Seq<ResultsMap>) -> Seq<Summaries> {
    parts.map_values(|part: ResultsMap| part@)
}

/// True when `list` holds the statistics of each station of `m` exactly
/// once, in whatever order.
pub open spec fn lists_summaries(list: Seq<(Vec<u8>, Stats)>, m: Summaries) -> bool {
    &&& forall|i: int|
        0 <= i < list.len() ==> {
            &&& m.dom().contains(#[trigger] list[i].0@)
            &&& m[list[i].0@] == list[i].1@
            &&& list[i].1.wf()
        }
    &&& forall|k: Seq<u8>|
        m.dom().contains(k) ==> exists|i: int| 0 <= i < list.len() && #[trigger] list[i].0@ == k
    &&& forall|i: int, j: int|
        0 <= i < j < list.len() ==> #[trigger] list[i].0@ != #[trigger] list[j].0@
}

impl Default for ResultsMap {
    /// A collection without stations.
    fn default() -> (results: ResultsMap)
        ensures
            results.wf(),
            results@ == no_summaries(),
    {
        let results = ResultsMap { map: table_new() };
        results
    }
}

impl ResultsMap {
    /// True of every collection that this module hands out: the statistics of
    /// each station are well formed.
    pub open spec fn wf(&self) -> bool {
        all_wf(self@)
    }

    /// The statistics of the station of the given name, if a record of it was
    /// taken in.
    pub fn get(&self, name: &[u8]) -> (found: Option<Stats>)
        ensures
            (found is Some) == self@.dom().contains(name@),
            found matches Some(stats) ==> stats@ == self@[name@],
    {
        match table_get(&self.map, name) {
            Some(stats) => Some(*stats),
            None => None,
        }
    }

    /// Adds a single record: its station's statistics take the reading in, or
    /// are started with it.
    pub fn ingest(&mut self, row: Row)
        requires
            old(self).wf(),
            can_ingest(old(self)@, row.reading()),
        ensures
            final(self).wf(),
            final(self)@ == ingested(old(self)@, row.reading()),
    {
        let ghost before = self@;
        match table_get_mut(&mut self.map, row.city) {
            Some(stats) => {
                stats.update_row(row.temp);
            },
            None => {
                table_insert(&mut self.map, slice_to_vec(row.city), Stats::new(row.temp));
            },
        }
        assert(self@ =~= ingested(before, row.reading()));
    }

    /// Adds a single record as [`ResultsMap::ingest`] does if its station's
    /// total and count stay within their 32 bits, and changes nothing if they
    /// do not. The result tells which of the two it was.
    pub fn try_ingest(&mut self, row: Row) -> (taken: bool)
        requires
            old(self).wf(),
        ensures
            final(self).wf(),
            taken == can_ingest(old(self)@, row.reading()),
            taken ==> final(self)@ == ingested(old(self)@, row.reading()),
            !taken ==> final(self)@ == old(self)@,
    {
        let ghost before = self@;
        let ghost held = table_entries(self.map);
        let taken = match table_get_mut(&mut self.map, row.city) {
            Some(stats) => {
                assert(before[row.city@] == stats@);
                if stats.can_update_row(row.temp) {
                    stats.update_row(row.temp);
                    true
                } else {
                    false
                }
            },
            None => {
                table_insert(&mut self.map, slice_to_vec(row.city), Stats::new(row.temp));
                true
            },
        };
        proof {
            if taken {
                assert(self@ =~= ingested(before, row.reading()));
            } else {
                assert(table_entries(self.map) =~= held);
            }
        }
        taken
    }

    /// True when [`ResultsMap::merge`] may be called with `other`.
    pub fn can_merge(&self, other: &ResultsMap) -> (fits: bool)
        requires
            self.wf(),
            other.wf(),
        ensures
            fits == can_merge(self@, other@),
    {
        let items = table_items(&other.map);
        let ghost theirs = table_entries(other.map);
        for n in 0..items.len()
            invariant
                lists_borrowed_entries(items@, theirs),
                theirs == table_entries(other.map),
                forall|j: int|
                    0 <= j < n && self@.dom().contains(#[trigger] items@[j].0@) ==> self@[items@[j].0@].absorb(
                        other@[items@[j].0@],
                    ).fits(),
        {
            let (name, stats) = items[n];
            match table_get(&self.map, name.as_slice()) {
                Some(mine) => {
                    assert(self@[name@] == mine@);
                    if !mine.can_update_stats(*stats) {
                        return false;
                    }
                },
                None => {},
            }
        }
        true
    }

    /// Combines with all of `other`'s results: a station that both know has
    /// its two statistics taken together, every other station of `other` is
    /// added as it is.
    pub fn merge(&mut self, other: ResultsMap)
        requires
            old(self).wf(),
            other.wf(),
            can_merge(old(self)@, other@),
        ensures
            final(self).wf(),
            final(self)@ == merged(old(self)@, other@),
    {
        let ghost ours = self@;
        let ghost theirs = other@;
        // Merging into an empty collection: the other one can be taken as it
        // is.
        if table_is_empty(&self.map) {
            *self = other;
            return;
        }
        let ghost held = table_entries(other.map);
        let entries = table_into_entries(other.map);
        let ghost mut done: Set<Seq<u8>> = Set::empty();

        for entry in it: entries.into_iter()
            invariant
                it.seq() == entries@,
                lists_entries(entries@, held),
                theirs == held.map_values(|stats: Stats| stats@),
                all_wf(ours),
                all_wf(theirs),
                can_merge(ours, theirs),
                self.wf(),
                forall|j: int| 0 <= j < it.index() ==> done.contains(#[trigger] entries@[j].0@),
                forall|k: Seq<u8>|
                    done.contains(k) ==> exists|j: int|
                        0 <= j < it.index() && #[trigger] entries@[j].0@ == k,
                self@ == merged(ours, theirs.restrict(done)),
        {
            let ghost n = it.index();
            let ghost before = self@;
            let (city, stats) = entry;
            match table_get_mut(&mut self.map, city.as_slice()) {
                Some(my_stats) => {
                    assert(before.dom().contains(city@));
                    assert(before[city@] == ours[city@]);
                    my_stats.update_stats(stats);
                },
                None => {
                    table_insert(&mut self.map, city, stats);
                },
            }
            proof {
                let name = entries@[n].0@;
                let taken = if ours.dom().contains(name) {
                    ours[name].absorb(theirs[name])
                } else {
                    theirs[name]
                };
                assert(before.dom().contains(name) == ours.dom().contains(name));
                assert(self@ =~= before.insert(name, taken));
                done = done.insert(name);
                assert(before.insert(name, taken) =~= merged(ours, theirs.restrict(done)));
                lemma_merged_wf(ours, theirs.restrict(done));
            }
        }
    }

    /// The two collections combined.
    pub fn add(self, rhs: ResultsMap) -> (sum: ResultsMap)
        requires
            self.wf(),
            rhs.wf(),
            can_merge(self@, rhs@),
        ensures
            sum.wf(),
            sum@ == merged(self@, rhs@),
    {
        let mut sum = self;
        sum.merge(rhs);
        sum
    }

    /// All the collections combined, from the first to the last.
    pub fn sum(parts: Vec<ResultsMap>) -> (total: ResultsMap)
        requires
            forall|i: int| 0 <= i < parts.len() ==> (#[trigger] parts[i]).wf(),
            can_merge_all(views(parts@)),
        ensures
            total.wf(),
            total@ == merged_all(views(parts@)),
    {
        let mut total = ResultsMap::default();
        let ghost all = views(parts@);

        for part in it: parts.into_iter()
            invariant
                it.seq() == parts@,
                all == views(parts@),
                forall|i: int| 0 <= i < parts.len() ==> (#[trigger] parts[i]).wf(),
                can_merge_all(all),
                total.wf(),
                total@ == merged_all(all.take(it.index())),
        {
            let ghost n = it.index();
            proof {
                assert(part == parts@[n]);
                assert(all[n] == part@);
                assert(all.take(n + 1).drop_last() == all.take(n));
                assert(all.take(n + 1).last() == all[n]);
            }
            total = total.add(part);
        }
        assert(all.take(parts.len() as int) == all);
        total
    }

    /// All the collections combined as [`ResultsMap::sum`] combines them, but
    /// with a test before each merge. The result is `None` when a sum or a
    /// count would leave its 32 bits.
    pub fn try_sum(parts: Vec<ResultsMap>) -> (found: Option<ResultsMap>)
        requires
            forall|i: int| 0 <= i < parts.len() ==> (#[trigger] parts[i]).wf(),
        ensures
            (found is Some) == can_merge_all(views(parts@)),
            found matches Some(total) ==> total.wf() && total@ == merged_all(views(parts@)),
    {
        let mut total = ResultsMap::default();
        let ghost all = views(parts@);

        for part in it: parts.into_iter()
            invariant
                it.seq() == parts@,
                all == views(parts@),
                forall|i: int| 0 <= i < parts.len() ==> (#[trigger] parts[i]).wf(),
                forall|i: int|
                    0 <= i < it.index() ==> can_merge(merged_all(#[trigger] all.take(i)), all[i]),
                total.wf(),
                total@ == merged_all(all.take(it.index())),
        {
            let ghost n = it.index();
            proof {
                assert(part == parts@[n]);
                assert(all[n] == part@);
                assert(all.take(n + 1).drop_last() == all.take(n));
                assert(all.take(n + 1).last() == all[n]);
            }
            if !total.can_merge(&part) {
                return None;
            }
            total.merge(part);
        }
        assert(all.take(parts.len() as int) == all);
        Some(total)
    }

    /// The statistics of each station, in no particular order.
    pub fn into_entries(self) -> (list: Vec<(Vec<u8>, Stats)>)
        requires
            self.wf(),
        ensures
            lists_summaries(list@, self@),
    {
        table_into_entries(self.map)
    }
}

} // verus!
