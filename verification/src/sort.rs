//! Stable sorting by a rank.

use crate::order::views;
use vstd::prelude::*;

verus! {

/// A value with a rank among its like.
pub trait Ranked: View + Sized {
    /// Whether one value comes strictly before another.
    spec fn precedes(a: Self::V, b: Self::V) -> bool;

    /// Ranks are asymmetric, and what does not come before `b` comes after
    /// everything that does.
    proof fn rank_laws(a: Self::V, b: Self::V, c: Self::V)
        ensures
            !(Self::precedes(a, b) && Self::precedes(b, a)),
            Self::precedes(a, b) && !Self::precedes(c, b) ==> Self::precedes(a, c),
    ;

    /// Tells whether one value comes strictly before another.
    fn goes_before(&self, other: &Self) -> (r: bool)
        ensures
            r == Self::precedes(self@, other@),
    ;
}

/// No value comes before one that stands ahead of it.
pub open spec fn ranked<T: Ranked>(items: Seq<T::V>) -> bool {
    forall|i: int, j: int|
        #![trigger items[i], items[j]]
        0 <= i < j < items.len() ==> !T::precedes(items[j], items[i])
}

/// Position behind everything that a value does not come before.
fn rank_position<T: Ranked>(items: &Vec<T>, item: &T) -> (at: usize)
    requires
        ranked::<T>(views(items@)),
    ensures
        at <= items@.len(),
        forall|i: int| 0 <= i < at ==> !T::precedes(item@, #[trigger] items@[i]@),
        forall|i: int| at <= i < items@.len() ==> T::precedes(item@, #[trigger] items@[i]@),
{
    let ghost q = views(items@);
    let mut low: usize = 0;
    let mut high: usize = items.len();
    while low < high
        invariant
            low <= high <= items@.len(),
            q == views(items@),
            ranked::<T>(q),
            forall|i: int| 0 <= i < low ==> !T::precedes(item@, #[trigger] items@[i]@),
            forall|i: int| high <= i < items@.len() ==> T::precedes(item@, #[trigger] items@[i]@),
        decreases high - low,
    {
        let middle: usize = low + (high - low) / 2;
        let ghost m = middle as int;
        if item.goes_before(&items[middle]) {
            assert forall|i: int| m <= i < items@.len() implies T::precedes(
                item@,
                #[trigger] items@[i]@,
            ) by {
                if i > m {
                    assert(q[m] == items@[m]@ && q[i] == items@[i]@);
                    T::rank_laws(item@, items@[m]@, items@[i]@);
                }
            }
            high = middle;
        } else {
            assert forall|i: int| 0 <= i < m + 1 implies !T::precedes(
                item@,
                #[trigger] items@[i]@,
            ) by {
                if i < m && T::precedes(item@, items@[i]@) {
                    assert(q[i] == items@[i]@ && q[m] == items@[m]@);
                    T::rank_laws(item@, items@[i]@, items@[m]@);
                }
            }
            low = middle + 1;
        }
    }
    low
}

/// Sorts values by rank; equal ranks keep their order.
pub fn sort_by_rank<T: Ranked>(items: Vec<T>) -> (r: Vec<T>)
    ensures
        ranked::<T>(views(r@)),
        views(r@).to_multiset() == views(items@).to_multiset(),
        r@.len() == items@.len(),
{
    let mut r: Vec<T> = Vec::new();
    let ghost all = views(items@);
    let mut rest = items;
    let mut reversed: Vec<T> = Vec::new();
    while rest.len() > 0
        invariant
            views(rest@) + views(reversed@).reverse() == all,
        decreases rest@.len(),
    {
        let ghost before = views(rest@);
        let ghost held = views(reversed@);
        match rest.pop() {
            Some(item) => {
                let ghost last = item@;
                reversed.push(item);
                proof {
                    assert(views(rest@) =~= before.drop_last());
                    assert(views(reversed@) =~= held.push(last));
                    assert(views(rest@) + views(reversed@).reverse() =~= before + held.reverse());
                }
            },
            None => {},
        }
    }
    assert(views(rest@) + views(reversed@).reverse() =~= views(reversed@).reverse());
    assert(all =~= views(reversed@).reverse());
    proof {
        assert(views(r@) =~= Seq::<T::V>::empty());
        assert(views(r@) + views(reversed@).reverse() =~= all);
        views(reversed@).lemma_reverse_to_multiset();
        broadcast use vstd::seq_lib::group_to_multiset_ensures;
        assert(views(r@).to_multiset().add(views(reversed@).to_multiset()) =~= all.to_multiset());
    }
    while reversed.len() > 0
        invariant
            ranked::<T>(views(r@)),
            views(r@).to_multiset().add(views(reversed@).to_multiset()) == all.to_multiset(),
            r@.len() + reversed@.len() == all.len(),
        decreases reversed@.len(),
    {
        let ghost before = views(reversed@);
        let ghost done = views(r@);
        match reversed.pop() {
            Some(item) => {
                let at = rank_position(&r, &item);
                let ghost added = item@;
                proof {
                    let next = done.insert(at as int, added);
                    assert forall|i: int, j: int|
                        #![trigger next[i], next[j]]
                        0 <= i < j < next.len() implies !T::precedes(next[j], next[i]) by {
                        let oi = if i < at { i } else { i - 1 };
                        let oj = if j < at { j } else { j - 1 };
                        if i != at {
                            assert(next[i] == done[oi]);
                            assert(done[oi] == r@[oi]@);
                        }
                        if j != at {
                            assert(next[j] == done[oj]);
                            assert(done[oj] == r@[oj]@);
                        }
                        if i == at {
                            T::rank_laws(added, next[j], added);
                        }
                    }
                    vstd::seq_lib::to_multiset_insert(done, at as int, added);
                    assert(before =~= before.drop_last().push(added));
                    vstd::seq_lib::to_multiset_build(before.drop_last(), added);
                }
                r.insert(at, item);
                proof {
                    assert(views(reversed@) =~= before.drop_last());
                    assert(views(r@) =~= done.insert(at as int, added));
                    assert(views(r@).to_multiset().add(views(reversed@).to_multiset())
                        =~= done.to_multiset().add(before.to_multiset()));
                }
            },
            None => {},
        }
    }
    proof {
        assert(views(reversed@) =~= Seq::<T::V>::empty());
        broadcast use vstd::seq_lib::group_to_multiset_ensures;
        assert(views(r@).to_multiset() =~= all.to_multiset());
    }
    r
}

} // verus!
