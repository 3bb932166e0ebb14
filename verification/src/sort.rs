//! Sorting of integer arrays, and binary heaps with the greatest item first.

use vstd::prelude::*;
use crate::min_pq::lemma_swap_multiset;

pub mod binary_heap;
pub mod heap_sort;
pub mod insertion;
pub mod max_pq;
pub mod merge;
pub mod merge_bu;
pub mod quick;
pub mod quick_3_way;
pub mod selection;
pub mod shell;

verus! {

/// From `lo` up to `hi`, no entry is greater than an entry behind it.
pub open spec fn sorted_between(s: Seq<i32>, lo: int, hi: int) -> bool {
    forall|i: int, j: int| lo <= i <= j < hi ==> s[i] <= s[j]
}

/// No entry is greater than an entry behind it.
pub open spec fn sorted(s: Seq<i32>) -> bool {
    sorted_between(s, 0, s.len() as int)
}

/// `after` holds the entries of `before` in ascending order.
pub open spec fn sorts(before: Seq<i32>, after: Seq<i32>) -> bool {
    sorted(after) && after.to_multiset() == before.to_multiset()
}

/// The array with the entries at `i` and `j` exchanged.
pub open spec fn exchanged(s: Seq<i32>, i: int, j: int) -> Seq<i32> {
    s.update(i, s[j]).update(j, s[i])
}

/// Whether no entry is greater than the entry behind it.
pub fn is_sorted(a: &[i32]) -> (r: bool)
    ensures
        r == sorted(a@),
{
    let mut i: usize = 1;
    while i < a.len()
        invariant
            1 <= i,
            sorted_between(a@, 0, i as int),
        decreases a@.len() - i,
    {
        if a[i - 1] > a[i] {
            return false;
        }
        proof {
            assert forall|p: int, q: int| 0 <= p <= q < i + 1 implies a@[p] <= a@[q] by {
                if q == i && p < i {
                    assert(a@[p] <= a@[i - 1]);
                }
            }
        }
        i += 1;
    }
    true
}

/// Exchanges the entries at `i` and `j`.
pub fn exchange(a: &mut [i32], i: usize, j: usize)
    requires
        i < old(a)@.len(),
        j < old(a)@.len(),
    ensures
        final(a)@ == exchanged(old(a)@, i as int, j as int),
        final(a)@.len() == old(a)@.len(),
        final(a)@.to_multiset() == old(a)@.to_multiset(),
{
    let x = a[i];
    let y = a[j];
    a[i] = y;
    a[j] = x;
    proof {
        lemma_swap_multiset(old(a)@, i as int, j as int);
        assert(a@ =~= exchanged(old(a)@, i as int, j as int));
    }
}

} // verus!
