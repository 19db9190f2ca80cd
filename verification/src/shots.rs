//! Shots in flight: the shots of the two sides that meet cancel each
//! other, and the shots marked for removal leave the field.

use vstd::prelude::*;

verus! {

/// Which pairs of shots overlap: `overlap[i][j]` for shots `i` and `j`.
pub open spec fn overlap_views(overlap: Seq<Vec<bool>>) -> Seq<Seq<bool>> {
    overlap.map_values(|row: Vec<bool>| row@)
}

/// Shot `j` can cancel shot `i`: it belongs to the other side, is not
/// already removed, and overlaps it.
pub open spec fn crosses(from_player: Seq<bool>, overlap: Seq<Seq<bool>>, removed: Seq<bool>, i: int, j: int) -> bool {
    from_player[i] != from_player[j] && !removed[j] && overlap[i][j]
}

/// The first shot in `from..to` that can cancel shot `i`, if any.
pub open spec fn first_crossing(
    from_player: Seq<bool>,
    overlap: Seq<Seq<bool>>,
    removed: Seq<bool>,
    i: int,
    from: int,
    to: int,
) -> Option<int>
    decreases to - from,
{
    if from >= to {
        None
    } else if crosses(from_player, overlap, removed, i, from) {
        Some(from)
    } else {
        first_crossing(from_player, overlap, removed, i, from + 1, to)
    }
}

proof fn lemma_first_crossing_bounds(
    from_player: Seq<bool>,
    overlap: Seq<Seq<bool>>,
    removed: Seq<bool>,
    i: int,
    from: int,
    to: int,
)
    ensures
        first_crossing(from_player, overlap, removed, i, from, to) matches Some(j) ==> from <= j < to,
    decreases to - from,
{
    if from < to {
        lemma_first_crossing_bounds(from_player, overlap, removed, i, from + 1, to);
    }
}

/// The removal marks and the cancelled pairs once the first `k` shots are
/// taken in order: a shot not yet removed cancels with the first later
/// shot that can cancel it, and both are removed.
pub open spec fn cancelled(
    from_player: Seq<bool>,
    overlap: Seq<Seq<bool>>,
    removed: Seq<bool>,
    k: nat,
) -> (Seq<bool>, Seq<(usize, usize)>)
    decreases k,
{
    if k == 0 {
        (removed, Seq::empty())
    } else {
        let (rm, pairs) = cancelled(from_player, overlap, removed, (k - 1) as nat);
        let i = k - 1;
        if rm[i] {
            (rm, pairs)
        } else {
            match first_crossing(from_player, overlap, rm, i, i + 1, from_player.len() as int) {
                Some(j) => (rm.update(i, true).update(j, true), pairs.push((i as usize, j as usize))),
                None => (rm, pairs),
            }
        }
    }
}

/// The first shot in `from..to` that can cancel shot `i`.
fn find_crossing(
    from_player: &Vec<bool>,
    overlap: &Vec<Vec<bool>>,
    removed: &Vec<bool>,
    i: usize,
    from: usize,
) -> (r: Option<usize>)
    requires
        i < from_player@.len(),
        from <= from_player@.len(),
        removed@.len() == from_player@.len(),
        overlap@.len() == from_player@.len(),
        forall|a: int| 0 <= a < overlap@.len() ==> (#[trigger] overlap@[a])@.len() == from_player@.len(),
    ensures
        r matches Some(j) ==> j < from_player@.len(),
        r == match first_crossing(from_player@, overlap_views(overlap@), removed@, i as int, from as int, from_player@.len() as int) {
            Some(j) => Some(j as usize),
            None => None::<usize>,
        },
    decreases from_player@.len() - from,
{
    if from >= from_player.len() {
        return None;
    }
    let ghost ov = overlap_views(overlap@);
    assert(ov[i as int] == overlap@[i as int]@);
    if from_player[i] != from_player[from] && !removed[from] && overlap[i][from] {
        Some(from)
    } else {
        find_crossing(from_player, overlap, removed, i, from + 1)
    }
}

/// Cancels the shots of the two sides that meet: each shot not yet marked
/// in `removed`, in order, is paired with the first later shot of the
/// other side that is not marked and overlaps it, and both are marked.
/// Answers the pairs, in order.
pub fn cancel_crossing_shots(
    from_player: &Vec<bool>,
    overlap: &Vec<Vec<bool>>,
    removed: &mut Vec<bool>,
) -> (pairs: Vec<(usize, usize)>)
    requires
        old(removed)@.len() == from_player@.len(),
        overlap@.len() == from_player@.len(),
        forall|a: int| 0 <= a < overlap@.len() ==> (#[trigger] overlap@[a])@.len() == from_player@.len(),
    ensures
        (final(removed)@, pairs@) == cancelled(
            from_player@,
            overlap_views(overlap@),
            old(removed)@,
            from_player@.len() as nat,
        ),
{
    let n: usize = from_player.len();
    let mut pairs: Vec<(usize, usize)> = Vec::new();
    let mut i: usize = 0;
    while i < n
        invariant
            n == from_player@.len(),
            i <= n,
            removed@.len() == n,
            overlap@.len() == n,
            forall|a: int| 0 <= a < overlap@.len() ==> (#[trigger] overlap@[a])@.len() == n,
            (removed@, pairs@) == cancelled(from_player@, overlap_views(overlap@), old(removed)@, i as nat),
        decreases n - i,
    {
        let ghost rm0 = removed@;
        let ghost pairs0 = pairs@;
        proof {
            let ov = overlap_views(overlap@);
            lemma_first_crossing_bounds(from_player@, ov, rm0, i as int, i + 1, n as int);
            assert(cancelled(from_player@, ov, old(removed)@, (i + 1) as nat) == if rm0[i as int] {
                (rm0, pairs0)
            } else {
                match first_crossing(from_player@, ov, rm0, i as int, i + 1, n as int) {
                    Some(j) => (rm0.update(i as int, true).update(j, true), pairs0.push((i, j as usize))),
                    None => (rm0, pairs0),
                }
            });
        }
        if !removed[i] {
            match find_crossing(from_player, overlap, removed, i, i + 1) {
                Some(j) => {
                    removed.set(i, true);
                    removed.set(j, true);
                    pairs.push((i, j));
                },
                None => {},
            }
        }
        i = i + 1;
    }
    pairs
}

/// The items whose marks in `removed` are not set, in order.
pub open spec fn unmarked<T>(items: Seq<T>, removed: Seq<bool>) -> Seq<T>
    decreases items.len(),
{
    if items.len() == 0 {
        Seq::empty()
    } else {
        let rest = unmarked(items.drop_last(), removed);
        if removed[items.len() - 1] {
            rest
        } else {
            rest.push(items.last())
        }
    }
}

/// Keeps the items that are not marked in `removed`, in order.
pub fn keep_unmarked<T>(items: Vec<T>, removed: &Vec<bool>) -> (kept: Vec<T>)
    requires
        removed@.len() == items@.len(),
    ensures
        kept@ == unmarked(items@, removed@),
{
    let ghost all = items@;
    let mut rest = items;
    let mut tail: Vec<T> = Vec::new();
    proof {
        assert(all.take(all.len() as int) =~= all);
        assert(tail@.reverse() =~= Seq::<T>::empty());
        assert(unmarked(all, removed@) + Seq::<T>::empty() =~= unmarked(all, removed@));
    }
    while rest.len() > 0
        invariant
            removed@.len() == all.len(),
            rest@.len() <= all.len(),
            rest@ == all.take(rest@.len() as int),
            unmarked(all, removed@) == unmarked(rest@, removed@) + tail@.reverse(),
        decreases rest@.len(),
    {
        let k: usize = rest.len() - 1;
        let item = rest.pop().unwrap();
        proof {
            assert(rest@ == all.take(k as int));
            assert(all.take(k as int + 1).drop_last() =~= all.take(k as int));
            assert(all.take(k as int + 1).last() == item);
        }
        if !removed[k] {
            let ghost before = tail@;
            tail.push(item);
            proof {
                assert(tail@.reverse() =~= seq![item] + before.reverse());
                assert(unmarked(all.take(k as int + 1), removed@) == unmarked(all.take(k as int), removed@).push(item));
                assert(unmarked(all.take(k as int), removed@).push(item) + before.reverse() =~= unmarked(
                    all.take(k as int),
                    removed@,
                ) + (seq![item] + before.reverse()));
            }
        } else {
            proof {
                assert(unmarked(all.take(k as int + 1), removed@) == unmarked(all.take(k as int), removed@));
            }
        }
    }
    let mut kept: Vec<T> = Vec::new();
    let ghost rev = tail@;
    proof {
        assert(rest@.len() == 0);
        assert(unmarked(rest@, removed@) =~= Seq::<T>::empty());
        assert(unmarked(all, removed@) =~= rev.reverse());
    }
    while tail.len() > 0
        invariant
            rev.reverse() == kept@ + tail@.reverse(),
        decreases tail@.len(),
    {
        let ghost before = tail@;
        let item = tail.pop().unwrap();
        proof {
            assert(before == tail@.push(item));
            assert(before.reverse() =~= seq![item] + tail@.reverse());
        }
        let ghost k0 = kept@;
        kept.push(item);
        proof {
            assert(k0 + (seq![item] + tail@.reverse()) =~= kept@ + tail@.reverse());
        }
    }
    proof {
        assert(kept@ + tail@.reverse() =~= kept@);
    }
    kept
}

} // verus!
