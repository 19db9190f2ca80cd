//! Stable placement of records into a list kept in a total order.

use vstd::prelude::*;
use vstd::relations::{sorted_by, total_ordering};
use vstd::seq_lib::{lemma_sorted_unique, to_multiset_build, to_multiset_insert};

verus! {

/// Records listed in a total order.
pub trait Ranked: View + Sized {
    /// `a` is listed no later than `b`.
    spec fn listed_before(a: Self::V, b: Self::V) -> bool;

    /// Whether `self` is listed no later than `other`.
    fn precedes(&self, other: &Self) -> (r: bool)
        ensures
            r == Self::listed_before(self@, other@),
    ;

    /// A copy of the record.
    fn copy_record(&self) -> (r: Self)
        ensures
            r@ == self@,
    ;
}

/// The listing order of a record type as a relation.
pub open spec fn listing_order<T: Ranked>() -> spec_fn(T::V, T::V) -> bool {
    |a: T::V, b: T::V| T::listed_before(a, b)
}

/// The values of a sequence of records.
pub open spec fn record_views<T: View>(s: Seq<T>) -> Seq<T::V> {
    s.map_values(|r: T| r@)
}

/// The records of `items`, in listing order.
pub fn sort_records<T: Ranked>(items: &Vec<T>) -> (sorted: Vec<T>)
    requires
        total_ordering(listing_order::<T>()),
    ensures
        record_views(sorted@) == record_views(items@).sort_by(listing_order::<T>()),
{
    let ghost leq = listing_order::<T>();
    let mut sorted: Vec<T> = Vec::new();
    let mut j: usize = 0;
    proof {
        assert(record_views(sorted@) =~= record_views(items@).subrange(0, 0));
    }
    while j < items.len()
        invariant
            j <= items@.len(),
            leq == listing_order::<T>(),
            total_ordering(leq),
            sorted_by(record_views(sorted@), leq),
            record_views(sorted@).to_multiset() == record_views(items@).subrange(
                0,
                j as int,
            ).to_multiset(),
        decreases items@.len() - j,
    {
        let item = items[j].copy_record();
        let mut p: usize = 0;
        loop
            invariant
                p <= sorted@.len(),
                forall|q: int| 0 <= q < p ==> T::listed_before(#[trigger] sorted@[q]@, item@),
            ensures
                p <= sorted@.len(),
                forall|q: int| 0 <= q < p ==> T::listed_before(#[trigger] sorted@[q]@, item@),
                p < sorted@.len() ==> !T::listed_before(sorted@[p as int]@, item@),
            decreases sorted@.len() - p,
        {
            if p >= sorted.len() {
                break;
            }
            if !sorted[p].precedes(&item) {
                break;
            }
            p = p + 1;
        }
        let ghost before = record_views(sorted@);
        let ghost item_view = item@;
        sorted.insert(p, item);
        proof {
            let after = record_views(sorted@);
            assert(after =~= before.insert(p as int, item_view));
            to_multiset_insert(before, p as int, item_view);
            let prefix = record_views(items@).subrange(0, j as int);
            assert(record_views(items@).subrange(0, j + 1) =~= prefix.push(item_view));
            to_multiset_build(prefix, item_view);
            assert forall|a: int, b: int| 0 <= a < b < after.len() implies #[trigger] leq(
                after[a],
                after[b],
            ) by {
                if b < p {
                    assert(leq(before[a], before[b]));
                } else if a < p && b == p {
                    assert(T::listed_before(before[a], item_view));
                } else if a < p && b > p {
                    assert(leq(before[a], before[b - 1]));
                } else if a == p {
                    assert(!leq(before[p as int], item_view));
                    assert(leq(item_view, before[p as int]));
                    if b - 1 > p {
                        assert(leq(before[p as int], before[b - 1]));
                    }
                } else {
                    assert(leq(before[a - 1], before[b - 1]));
                }
            }
        }
        j = j + 1;
    }
    proof {
        assert(record_views(items@).subrange(0, items@.len() as int) =~= record_views(items@));
        record_views(items@).lemma_sort_by_ensures(leq);
        lemma_sorted_unique(record_views(sorted@), record_views(items@).sort_by(leq), leq);
    }
    sorted
}

} // verus!
