//! Stable ascending order of the positions of a sequence of keys.
//!
//! Sorting is described without naming an algorithm: position `a` comes
//! before position `b` when its key is smaller, or equal with `a < b`. The
//! rank of a position is the number of positions that come before it.

use vstd::prelude::*;

verus! {

/// Position `a` comes before position `b`: its key is smaller, or the keys
/// are equal and `a` stands earlier.
pub open spec fn precedes(keys: Seq<i128>, a: int, b: int) -> bool {
    keys[a] < keys[b] || (keys[a] == keys[b] && a < b)
}

/// The positions of `keys` that come before position `i`.
pub open spec fn predecessors(keys: Seq<i128>, i: int) -> Set<int> {
    Set::new(|j: int| 0 <= j < keys.len() && precedes(keys, j, i))
}

/// The place of position `i` once the keys are sorted stably in ascending
/// order: the number of positions that come before it.
pub open spec fn rank(keys: Seq<i128>, i: int) -> nat {
    predecessors(keys, i).len()
}

/// Position `j` stands somewhere in `order`.
pub open spec fn has_place(order: Seq<usize>, j: int) -> bool {
    exists|q: int| 0 <= q < order.len() && #[trigger] order[q] as int == j
}

/// `order` lists the first `n` positions of `keys`, each once, every one
/// before all that it precedes.
pub open spec fn is_stable_order_of_prefix(keys: Seq<i128>, order: Seq<usize>, n: int) -> bool {
    &&& order.len() == n
    &&& forall|p: int| 0 <= p < order.len() ==> (#[trigger] order[p]) < n
    &&& forall|j: int| 0 <= j < n ==> #[trigger] has_place(order, j)
    &&& forall|p: int, q: int|
        0 <= p < q < order.len() ==> precedes(keys, #[trigger] order[p] as int, #[trigger] order[q] as int)
}

/// `order` lists every position of `keys` once, in stable ascending order
/// of the keys.
pub open spec fn is_stable_order(keys: Seq<i128>, order: Seq<usize>) -> bool {
    is_stable_order_of_prefix(keys, order, keys.len() as int)
}

/// In a stable order, the position found at place `p` has rank `p`.
pub proof fn lemma_rank_is_place(keys: Seq<i128>, order: Seq<usize>, p: int)
    requires
        is_stable_order(keys, order),
        0 <= p < order.len(),
    ensures
        rank(keys, order[p] as int) == p,
{
    let before = order.take(p).map_values(|x: usize| x as int);
    let preds = predecessors(keys, order[p] as int);
    assert(before.no_duplicates()) by {
        assert forall|a: int, b: int| 0 <= a < before.len() && 0 <= b < before.len() && a != b implies before[a]
            != before[b] by {
            if a < b {
                assert(precedes(keys, order[a] as int, order[b] as int));
            } else {
                assert(precedes(keys, order[b] as int, order[a] as int));
            }
        }
    }
    assert(before.to_set() =~= preds) by {
        assert forall|j: int| before.to_set().contains(j) implies preds.contains(j) by {
            let a = choose|a: int| 0 <= a < before.len() && before[a] == j;
            assert(precedes(keys, order[a] as int, order[p] as int));
        }
        assert forall|j: int| preds.contains(j) implies before.to_set().contains(j) by {
            assert(has_place(order, j));
            let q = choose|q: int| 0 <= q < order.len() && #[trigger] order[q] as int == j;
            if q > p {
                assert(precedes(keys, order[p] as int, order[q] as int));
            }
            assert(q < p);
            assert(before[q] == j);
        }
    }
    before.unique_seq_to_set();
}

/// The positions that come before a position are finitely many, and fewer
/// than there are positions.
pub proof fn lemma_rank_below_len(keys: Seq<i128>, i: int)
    requires
        0 <= i < keys.len(),
    ensures
        predecessors(keys, i).finite(),
        rank(keys, i) < keys.len(),
{
    let all = vstd::set_lib::set_int_range(0, keys.len() as int);
    vstd::set_lib::lemma_int_range(0, keys.len() as int);
    let others = all.remove(i);
    assert(predecessors(keys, i).subset_of(others));
    vstd::set_lib::lemma_len_subset(predecessors(keys, i), others);
}

/// A position that comes before another has the lower rank.
pub proof fn lemma_rank_respects_order(keys: Seq<i128>, i: int, j: int)
    requires
        0 <= i < keys.len(),
        0 <= j < keys.len(),
        precedes(keys, i, j),
    ensures
        rank(keys, i) < rank(keys, j),
{
    lemma_rank_below_len(keys, j);
    let rest = predecessors(keys, j).remove(i);
    assert(predecessors(keys, j).contains(i));
    assert(predecessors(keys, i).subset_of(rest));
    vstd::set_lib::lemma_len_subset(predecessors(keys, i), rest);
}

/// Two stable orders of the same keys are the same order.
pub proof fn lemma_stable_order_unique(keys: Seq<i128>, first: Seq<usize>, second: Seq<usize>)
    requires
        is_stable_order(keys, first),
        is_stable_order(keys, second),
    ensures
        first == second,
{
    assert forall|p: int| 0 <= p < first.len() implies first[p] == second[p] by {
        lemma_rank_is_place(keys, first, p);
        let j = first[p];
        assert(has_place(second, j as int));
        let q = choose|q: int| 0 <= q < second.len() && #[trigger] second[q] as int == j as int;
        lemma_rank_is_place(keys, second, q);
    }
    assert(first =~= second);
}

/// The positions of `keys` in stable ascending order of the keys: equal keys
/// keep the order in which they stand.
pub fn stable_order(keys: &Vec<i128>) -> (order: Vec<usize>)
    ensures
        is_stable_order(keys@, order@),
{
    let n: usize = keys.len();
    let mut order: Vec<usize> = Vec::new();
    let mut i: usize = 0;
    while i < n
        invariant
            n == keys.len(),
            i <= n,
            is_stable_order_of_prefix(keys@, order@, i as int),
        decreases n - i,
    {
        let key: i128 = keys[i];
        let mut p: usize = order.len();
        while p > 0 && keys[order[p - 1]] > key
            invariant
                n == keys.len(),
                i < n,
                key == keys[i as int],
                p <= order.len(),
                is_stable_order_of_prefix(keys@, order@, i as int),
                forall|q: int| p <= q < order.len() ==> keys[(#[trigger] order[q]) as int] > key,
            decreases p,
        {
            p = p - 1;
        }
        let ghost old_order = order@;
        order.insert(p, i);
        proof {
            let new_order = order@;
            assert forall|q: int| 0 <= q < p implies keys[(#[trigger] old_order[q]) as int] <= key by {
                if q < p - 1 {
                    assert(precedes(keys@, old_order[q] as int, old_order[p - 1] as int));
                }
            }
            assert forall|j: int| 0 <= j < i + 1 implies #[trigger] has_place(new_order, j) by {
                if j == i {
                    assert(new_order[p as int] as int == j);
                } else {
                    assert(has_place(old_order, j));
                    let q = choose|q: int| 0 <= q < old_order.len() && #[trigger] old_order[q] as int == j;
                    if q < p {
                        assert(new_order[q] as int == j);
                    } else {
                        assert(new_order[q + 1] as int == j);
                    }
                }
            }
            assert forall|a: int, b: int| 0 <= a < b < new_order.len() implies precedes(
                keys@,
                #[trigger] new_order[a] as int,
                #[trigger] new_order[b] as int,
            ) by {
                if b < p {
                    assert(precedes(keys@, old_order[a] as int, old_order[b] as int));
                } else if b == p {
                    assert(keys[old_order[a] as int] <= key);
                } else if a < p {
                    assert(precedes(keys@, old_order[a] as int, old_order[b - 1] as int));
                } else if a == p {
                    assert(keys[old_order[b - 1] as int] > key);
                } else {
                    assert(precedes(keys@, old_order[a - 1] as int, old_order[b - 1] as int));
                }
            }
        }
        i = i + 1;
    }
    order
}

} // verus!
