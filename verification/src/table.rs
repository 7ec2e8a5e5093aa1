//! The hash table that holds the running statistics of each station.
//!
//! The table is `ahash::AHashMap`, keyed by the station's name as owned bytes.
//! Verus does not look inside it: what it holds is named by
//! [`table_entries`], and each operation that the library uses is a small
//! function whose contract states, over that name, what the operation does.
//! These contracts are taken on trust.

use vstd::prelude::*;
use ahash::AHashMap;
use ahash::RandomState;
use crate::stats::Stats;

verus! {

/// `ahash::RandomState`, the hasher state of the table. Nothing is known of
/// it.
#[verifier::external_type_specification]
#[verifier::external_body]
pub struct ExRandomState(RandomState);

/// `ahash::AHashMap`. Nothing is known of a value of it but what the
/// functions of this module state.
#[verifier::external_type_specification]
#[verifier::external_body]
#[verifier::reject_recursive_types(K)]
#[verifier::reject_recursive_types(V)]
#[verifier::reject_recursive_types(S)]
pub struct ExAHashMap<K, V, S>(AHashMap<K, V, S>);

/// The table of the statistics of each station.
pub type Table = AHashMap<Vec<u8>, Stats, RandomState>;

/// What a table holds: the statistics stored under each name.
pub uninterp spec fn table_entries(t: Table) -> Map<Seq<u8>, Stats>;

/// True when `list` holds each entry of `entries` exactly once, in whatever
/// order.
pub open spec fn lists_entries(list: Seq<(Vec<u8>, Stats)>, entries: Map<Seq<u8>, Stats>) -> bool {
    &&& forall|i: int|
        0 <= i < list.len() ==> entries.dom().contains(#[trigger] list[i].0@) && entries[list[i].0@]
            == list[i].1
    &&& forall|k: Seq<u8>|
        entries.dom().contains(k) ==> exists|i: int| 0 <= i < list.len() && #[trigger] list[i].0@ == k
    &&& forall|i: int, j: int|
        0 <= i < j < list.len() ==> #[trigger] list[i].0@ != #[trigger] list[j].0@
}

/// True when `list` holds each entry of `entries` exactly once, in whatever
/// order, name and statistics borrowed.
pub open spec fn lists_borrowed_entries(
    list: Seq<(&Vec<u8>, &Stats)>,
    entries: Map<Seq<u8>, Stats>,
) -> bool {
    &&& forall|i: int|
        0 <= i < list.len() ==> entries.dom().contains(#[trigger] list[i].0@) && entries[list[i].0@]
            == *list[i].1
    &&& forall|k: Seq<u8>|
        entries.dom().contains(k) ==> exists|i: int| 0 <= i < list.len() && #[trigger] list[i].0@ == k
    &&& forall|i: int, j: int|
        0 <= i < j < list.len() ==> #[trigger] list[i].0@ != #[trigger] list[j].0@
}

/// Calls `AHashMap::default`, which makes a table without entries.
#[verifier::external_body]
pub(crate) fn table_new() -> (t: Table)
    ensures
        table_entries(t) == (Map::<Seq<u8>, Stats>::empty()),
{
    AHashMap::default()
}

/// Calls `HashMap::is_empty`, which `AHashMap` hands on: true exactly when
/// the table has no entry.
#[verifier::external_body]
pub(crate) fn table_is_empty(t: &Table) -> (empty: bool)
    ensures
        empty == (table_entries(*t) == (Map::<Seq<u8>, Stats>::empty())),
{
    t.is_empty()
}

/// Calls `AHashMap::get`: the statistics stored under `key`, if there are
/// any.
#[verifier::external_body]
pub(crate) fn table_get<'a>(t: &'a Table, key: &[u8]) -> (found: Option<&'a Stats>)
    ensures
        (found is Some) == table_entries(*t).dom().contains(key@),
        found matches Some(stats) ==> *stats == table_entries(*t)[key@],
{
    t.get(key)
}

/// Calls `AHashMap::get_mut`: a reference to the statistics stored under
/// `key`, if there are any. What is written through the reference is what
/// the table holds under `key` afterwards; no other entry changes.
#[verifier::external_body]
pub(crate) fn table_get_mut<'a>(t: &'a mut Table, key: &[u8]) -> (found: Option<&'a mut Stats>)
    ensures
        (found is Some) == table_entries(*old(t)).dom().contains(key@),
        found matches Some(stats) ==> *stats == table_entries(*old(t))[key@] && table_entries(
            *final(t),
        ) == table_entries(*old(t)).insert(key@, *final(stats)),
        found is None ==> table_entries(*final(t)) == table_entries(*old(t)),
{
    t.get_mut(key)
}

/// Calls `AHashMap::insert`: afterwards the table holds `stats` under `key`,
/// in place of what it may have held there; no other entry changes.
#[verifier::external_body]
pub(crate) fn table_insert(t: &mut Table, key: Vec<u8>, stats: Stats)
    ensures
        table_entries(*final(t)) == table_entries(*old(t)).insert(key@, stats),
{
    t.insert(key, stats);
}

/// Calls `AHashMap::into_iter` and collects what it yields: every entry of
/// the table once, in an order that nothing is known of.
#[verifier::external_body]
pub(crate) fn table_into_entries(t: Table) -> (list: Vec<(Vec<u8>, Stats)>)
    ensures
        lists_entries(list@, table_entries(t)),
{
    t.into_iter().collect()
}

/// Calls `HashMap::iter`, which `AHashMap` hands on, and collects what it
/// yields: a reference to every entry of the table once, in an order that
/// nothing is known of.
#[verifier::external_body]
pub(crate) fn table_items<'a>(t: &'a Table) -> (list: Vec<(&'a Vec<u8>, &'a Stats)>)
    ensures
        lists_borrowed_entries(list@, table_entries(*t)),
{
    t.iter().collect()
}

} // verus!
