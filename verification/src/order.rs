//! The order of station names, byte by byte, and sorting by it.

use vstd::prelude::*;
use vstd::multiset::Multiset;
use vstd::seq_lib::lemma_multiset_commutative;
use vstd::seq_lib::to_multiset_build;
use vstd::seq_lib::to_multiset_contains;
use crate::stats::FinalStats;

verus! {

/// True when `a` and `b` agree on their first `p` bytes and `a` comes first
/// by what follows: `a` ends there and `b` goes on, or the next byte of `a`
/// is the smaller one.
pub open spec fn precedes_at(a: Seq<u8>, b: Seq<u8>, p: int) -> bool {
    &&& 0 <= p <= a.len()
    &&& p < b.len()
    &&& forall|j: int| 0 <= j < p ==> a[j] == b[j]
    &&& p < a.len() ==> a[p] < b[p]
}

/// True when `a` comes before `b` in lexicographic order of their bytes.
pub open spec fn precedes(a: Seq<u8>, b: Seq<u8>) -> bool {
    exists|p: int| precedes_at(a, b, p)
}

/// The first position from `from` on at which `a` and `b` differ or one of
/// them ends.
pub open spec fn first_difference(a: Seq<u8>, b: Seq<u8>, from: int) -> int
    decreases a.len() - from,
{
    if 0 <= from < a.len() && from < b.len() && a[from] == b[from] {
        first_difference(a, b, from + 1)
    } else {
        from
    }
}

/// True when the names of the list never go down from one entry to the next.
pub open spec fn ascending(list: Seq<(Vec<u8>, FinalStats)>) -> bool {
    forall|i: int, j: int|
        0 <= i < j < list.len() ==> !precedes(#[trigger] list[j].0@, #[trigger] list[i].0@)
}

/// True when the names of the list go up from each entry to the next.
pub open spec fn strictly_ascending(list: Seq<(Vec<u8>, FinalStats)>) -> bool {
    forall|i: int, j: int|
        0 <= i < j < list.len() ==> precedes(#[trigger] list[i].0@, #[trigger] list[j].0@)
}

/// True when the names of the list never go up from one entry to the next.
pub open spec fn descending(list: Seq<(Vec<u8>, FinalStats)>) -> bool {
    forall|i: int, j: int|
        0 <= i < j < list.len() ==> !precedes(#[trigger] list[i].0@, #[trigger] list[j].0@)
}

/// True when no name of `high` comes before a name of `low`.
pub open spec fn none_above(
    low: Seq<(Vec<u8>, FinalStats)>,
    high: Seq<(Vec<u8>, FinalStats)>,
) -> bool {
    forall|i: int, j: int|
        0 <= i < low.len() && 0 <= j < high.len() ==> !precedes(
            #[trigger] high[j].0@,
            #[trigger] low[i].0@,
        )
}

/// Tests whether the name `a` comes before the name `b`.
pub fn name_before(a: &[u8], b: &[u8]) -> (before: bool)
    ensures
        before == precedes(a@, b@),
{
    let mut i: usize = 0;
    while i < a.len() && i < b.len()
        invariant
            i <= a.len(),
            i <= b.len(),
            forall|j: int| 0 <= j < i ==> a@[j] == b@[j],
        decreases a.len() - i,
    {
        if a[i] != b[i] {
            proof {
                if a@[i as int] < b@[i as int] {
                    assert(precedes_at(a@, b@, i as int));
                } else {
                    assert(precedes_at(b@, a@, i as int));
                    lemma_precedes_asymmetric(a@, b@);
                }
            }
            return a[i] < b[i];
        }
        i += 1;
    }
    proof {
        if i < b.len() {
            assert(precedes_at(a@, b@, i as int));
        } else if precedes(a@, b@) {
            let p = choose|p: int| precedes_at(a@, b@, p);
        }
    }
    i < b.len()
}

/// Takes the last entry off `from` and puts it at the end of `onto`.
fn move_last(from: &mut Vec<(Vec<u8>, FinalStats)>, onto: &mut Vec<(Vec<u8>, FinalStats)>)
    requires
        old(from).len() > 0,
    ensures
        final(from)@ == old(from)@.drop_last(),
        final(onto)@ == old(onto)@.push(old(from)@.last()),
        final(from)@.to_multiset().add(final(onto)@.to_multiset()) == old(from)@.to_multiset().add(
            old(onto)@.to_multiset(),
        ),
{
    broadcast use vstd::multiset::group_multiset_axioms;

    let ghost entry = from@.last();
    proof {
        assert(from@.drop_last().push(entry) == from@);
        to_multiset_build(from@.drop_last(), entry);
        to_multiset_build(onto@, entry);
    }
    match from.pop() {
        Some(last) => {
            onto.push(last);
        },
        None => {},
    }
}

/// Merges two lists that are each sorted by name into `front`, which is then
/// sorted by name and holds the entries of both.
fn merge_by_name(front: &mut Vec<(Vec<u8>, FinalStats)>, back: Vec<(Vec<u8>, FinalStats)>)
    requires
        ascending(old(front)@),
        ascending(back@),
    ensures
        ascending(final(front)@),
        final(front)@.to_multiset() == old(front)@.to_multiset().add(back@.to_multiset()),
{
    broadcast use vstd::multiset::group_multiset_axioms;

    let mut back = back;
    let ghost all = front@.to_multiset().add(back@.to_multiset());
    // The greater of the two last entries is taken off until nothing is
    // left: `falling` then holds everything, the greatest first.
    let mut falling: Vec<(Vec<u8>, FinalStats)> = Vec::new();
    proof {
        lemma_nothing_in_empty_list(falling@);
        assert(all.add(Multiset::empty()) =~= all);
    }
    while front.len() > 0 || back.len() > 0
        invariant
            ascending(front@),
            ascending(back@),
            descending(falling@),
            none_above(front@, falling@),
            none_above(back@, falling@),
            front@.to_multiset().add(back@.to_multiset()).add(falling@.to_multiset()) == all,
        decreases front.len() + back.len(),
    {
        let ghost before_front = front@;
        let ghost before_back = back@;
        let ghost before_falling = falling@;
        let from_back = if front.len() == 0 {
            true
        } else if back.len() == 0 {
            false
        } else {
            !name_before(back[back.len() - 1].0.as_slice(), front[front.len() - 1].0.as_slice())
        };
        if from_back {
            move_last(&mut back, &mut falling);
        } else {
            move_last(front, &mut falling);
        }
        proof {
            let entry = falling@.last();
            lemma_three_heaps(
                before_front.to_multiset(),
                before_back.to_multiset(),
                before_falling.to_multiset(),
                front@.to_multiset(),
                back@.to_multiset(),
                falling@.to_multiset(),
            );
            assert forall|i: int, j: int| 0 <= i < j < falling@.len() implies !precedes(
                #[trigger] falling@[i].0@,
                #[trigger] falling@[j].0@,
            ) by {
                if j == before_falling.len() {
                    assert(falling@[i] == before_falling[i]);
                    if from_back {
                        assert(entry == before_back[before_back.len() - 1]);
                    } else {
                        assert(entry == before_front[before_front.len() - 1]);
                    }
                } else {
                    assert(falling@[i] == before_falling[i]);
                    assert(falling@[j] == before_falling[j]);
                }
            }
            assert forall|i: int, j: int|
                0 <= i < front@.len() && 0 <= j < falling@.len() implies !precedes(
                #[trigger] falling@[j].0@,
                #[trigger] front@[i].0@,
            ) by {
                assert(front@[i] == before_front[i]);
                if j < before_falling.len() {
                    assert(falling@[j] == before_falling[j]);
                } else if from_back {
                    let top = before_front[before_front.len() - 1];
                    assert(entry == before_back[before_back.len() - 1]);
                    if i < before_front.len() - 1 {
                        assert(!precedes(top.0@, before_front[i].0@));
                        lemma_not_precedes_transitive(before_front[i].0@, top.0@, entry.0@);
                    }
                } else {
                    assert(entry == before_front[before_front.len() - 1]);
                }
            }
            assert forall|i: int, j: int|
                0 <= i < back@.len() && 0 <= j < falling@.len() implies !precedes(
                #[trigger] falling@[j].0@,
                #[trigger] back@[i].0@,
            ) by {
                assert(back@[i] == before_back[i]);
                if j < before_falling.len() {
                    assert(falling@[j] == before_falling[j]);
                } else if from_back {
                    assert(entry == before_back[before_back.len() - 1]);
                } else {
                    let top = before_back[before_back.len() - 1];
                    assert(entry == before_front[before_front.len() - 1]);
                    lemma_precedes_asymmetric(top.0@, entry.0@);
                    if i < before_back.len() - 1 {
                        assert(!precedes(top.0@, before_back[i].0@));
                        lemma_not_precedes_transitive(before_back[i].0@, top.0@, entry.0@);
                    }
                }
            }
        }
    }
    proof {
        lemma_nothing_in_empty_list(front@);
        lemma_nothing_in_empty_list(back@);
        assert(falling@.to_multiset().add(front@.to_multiset()) =~= all);
    }

    // The entries are taken off again, the least first.
    while falling.len() > 0
        invariant
            ascending(front@),
            descending(falling@),
            none_above(front@, falling@),
            falling@.to_multiset().add(front@.to_multiset()) == all,
        decreases falling.len(),
    {
        move_last(&mut falling, front);
    }
    proof {
        lemma_nothing_in_empty_list(falling@);
        assert(falling@.to_multiset().add(front@.to_multiset()) =~= front@.to_multiset());
    }
}

/// Sorts the list by name: afterwards it holds the entries that it held
/// before, each as many times, and no name comes before the name of an
/// earlier entry.
pub fn sort_by_name(list: &mut Vec<(Vec<u8>, FinalStats)>)
    ensures
        ascending(final(list)@),
        final(list)@.to_multiset() == old(list)@.to_multiset(),
    decreases old(list).len(),
{
    let n: usize = list.len();
    if n < 2 {
        return;
    }
    let mut back = list.split_off(n / 2);
    proof {
        assert(old(list)@ == list@ + back@);
        lemma_multiset_commutative(list@, back@);
    }
    sort_by_name(list);
    sort_by_name(&mut back);
    merge_by_name(list, back);
}

/// Of two names at most one comes before the other, and none before itself.
pub proof fn lemma_precedes_asymmetric(a: Seq<u8>, b: Seq<u8>)
    ensures
        !(precedes(a, b) && precedes(b, a)),
        !precedes(a, a),
{
}

/// What comes before a name comes before everything that the name comes
/// before.
pub proof fn lemma_precedes_transitive(a: Seq<u8>, b: Seq<u8>, c: Seq<u8>)
    requires
        precedes(a, b),
        precedes(b, c),
    ensures
        precedes(a, c),
{
    let p = choose|p: int| precedes_at(a, b, p);
    let q = choose|q: int| precedes_at(b, c, q);
    if p <= q {
        assert forall|j: int| 0 <= j < p implies a[j] == c[j] by {
            assert(a[j] == b[j]);
        }
        if p < q {
            assert(b[p] == c[p]);
        }
        assert(precedes_at(a, c, p));
    } else {
        assert forall|j: int| 0 <= j < q implies a[j] == c[j] by {
            assert(a[j] == b[j]);
        }
        assert(a[q] == b[q]);
        assert(precedes_at(a, c, q));
    }
}

/// Up to their first difference two names agree.
pub proof fn lemma_first_difference(a: Seq<u8>, b: Seq<u8>, from: int)
    requires
        0 <= from <= a.len(),
        from <= b.len(),
    ensures
        from <= first_difference(a, b, from) <= a.len(),
        first_difference(a, b, from) <= b.len(),
        forall|j: int| from <= j < first_difference(a, b, from) ==> a[j] == b[j],
        first_difference(a, b, from) < a.len() && first_difference(a, b, from) < b.len() ==> a[first_difference(
            a,
            b,
            from,
        )] != b[first_difference(a, b, from)],
    decreases a.len() - from,
{
    if from < a.len() && from < b.len() && a[from] == b[from] {
        lemma_first_difference(a, b, from + 1);
    }
}

/// Of two different names one comes before the other.
pub proof fn lemma_precedes_total(a: Seq<u8>, b: Seq<u8>)
    requires
        a != b,
    ensures
        precedes(a, b) || precedes(b, a),
{
    let p = first_difference(a, b, 0);
    lemma_first_difference(a, b, 0);
    if p == a.len() && p == b.len() {
        assert(a =~= b);
    } else if p == a.len() {
        assert(precedes_at(a, b, p));
    } else if p == b.len() {
        assert(precedes_at(b, a, p));
    } else if a[p] < b[p] {
        assert(precedes_at(a, b, p));
    } else {
        assert(precedes_at(b, a, p));
    }
}

/// Where `c` does not come before `b` and `b` does not come before `a`, `c`
/// does not come before `a`.
pub proof fn lemma_not_precedes_transitive(a: Seq<u8>, b: Seq<u8>, c: Seq<u8>)
    requires
        !precedes(b, a),
        !precedes(c, b),
    ensures
        !precedes(c, a),
{
    if precedes(c, a) {
        if a == b {
        } else {
            lemma_precedes_total(a, b);
            lemma_precedes_transitive(c, a, b);
        }
    }
}

/// A list without entries holds nothing.
proof fn lemma_nothing_in_empty_list(list: Seq<(Vec<u8>, FinalStats)>)
    requires
        list.len() == 0,
    ensures
        list.to_multiset() == Multiset::<(Vec<u8>, FinalStats)>::empty(),
{
    broadcast use vstd::multiset::group_multiset_axioms;

    assert forall|entry: (Vec<u8>, FinalStats)| list.to_multiset().count(entry) == 0 by {
        to_multiset_contains(list, entry);
    }
    assert(list.to_multiset() =~= Multiset::<(Vec<u8>, FinalStats)>::empty());
}

/// Of three heaps, the first and the last may exchange entries, or the second
/// and the last, without a change to what the three hold together.
proof fn lemma_three_heaps<A>(
    a: Multiset<A>,
    b: Multiset<A>,
    c: Multiset<A>,
    a2: Multiset<A>,
    b2: Multiset<A>,
    c2: Multiset<A>,
)
    requires
        (a2.add(c2) == a.add(c) && b2 == b) || (b2.add(c2) == b.add(c) && a2 == a),
    ensures
        a2.add(b2).add(c2) == a.add(b).add(c),
{
    broadcast use vstd::multiset::group_multiset_axioms;

    assert forall|x: A| a2.add(b2).add(c2).count(x) == a.add(b).add(c).count(x) by {
        assert(a2.add(c2).count(x) == a2.count(x) + c2.count(x));
        assert(a.add(c).count(x) == a.count(x) + c.count(x));
        assert(b2.add(c2).count(x) == b2.count(x) + c2.count(x));
        assert(b.add(c).count(x) == b.count(x) + c.count(x));
    }
    assert(a2.add(b2).add(c2) =~= a.add(b).add(c));
}

} // verus!
