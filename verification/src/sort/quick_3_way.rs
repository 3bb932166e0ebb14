//! Quicksort with three-way partitioning.

use vstd::prelude::*;
use crate::sort::merge::{lemma_range_same, lemma_range_split, sorts_between};
use crate::sort::quick::{lemma_exchange_range, lemma_range_member, shuffles_between};
use crate::sort::{exchange, sorts};

verus! {

/// Sorts `a` from `lo` up to `hi`: the range is rearranged into the entries less than
/// its first entry, those equal to it and those greater; then the first and the last
/// part are sorted.
pub fn sort_internal(a: &mut [i32], lo: usize, hi: usize)
    requires
        lo <= hi <= old(a)@.len(),
    ensures
        sorts_between(old(a)@, final(a)@, lo as int, hi as int),
    decreases hi - lo,
{
    if hi - lo < 2 {
        return ;
    }
    let mut lt = lo;
    let mut i = lo + 1;
    let mut gt = hi - 1;
    let v = a[lo];
    while i <= gt
        invariant
            lo <= lt < i <= gt + 1 <= hi <= a@.len(),
            shuffles_between(old(a)@, a@, lo as int, hi as int),
            forall|p: int| lo <= p < lt ==> a@[p] < v,
            forall|p: int| lt <= p < i ==> a@[p] == v,
            forall|q: int| gt < q < hi ==> a@[q] > v,
        decreases gt + 1 - i,
    {
        let ghost before = a@;
        if a[i] == v {
            i += 1;
        } else if a[i] > v {
            exchange(a, i, gt);
            proof {
                lemma_exchange_range(before, lo as int, hi as int, i as int, gt as int);
            }
            gt -= 1;
        } else {
            exchange(a, lt, i);
            proof {
                lemma_exchange_range(before, lo as int, hi as int, lt as int, i as int);
            }
            lt += 1;
            i += 1;
        }
    }
    let ghost parted = a@;
    sort_internal(a, lo, lt);
    let ghost first = a@;
    sort_internal(a, gt + 1, hi);
    proof {
        let done = a@;
        lemma_range_same(first, done, lo as int, lt as int);
        lemma_range_same(parted, first, gt + 1, hi as int);
        lemma_range_same(parted, done, lt as int, gt + 1);
        assert forall|p: int| lo <= p < lt implies done[p] < v by {
            let m = lemma_range_member(first, parted, lo as int, lt as int, p);
        }
        assert forall|q: int| gt < q < hi implies done[q] > v by {
            let m = lemma_range_member(done, first, gt + 1, hi as int, q);
        }
        assert forall|p: int| lt <= p <= gt implies done[p] == v by {
            assert(parted[p] == v);
        }
        assert forall|p: int, q: int| lo <= p <= q < hi implies done[p] <= done[q] by {
            if q < lt {
                assert(first[p] <= first[q]);
                assert(done[p] == first[p] && done[q] == first[q]);
            }
        }
        lemma_range_split(parted, lo as int, lt as int, hi as int);
        lemma_range_split(parted, lt as int, gt + 1, hi as int);
        lemma_range_split(done, lo as int, lt as int, hi as int);
        lemma_range_split(done, lt as int, gt + 1, hi as int);
        assert(done.subrange(lo as int, hi as int).to_multiset() == parted.subrange(
            lo as int,
            hi as int,
        ).to_multiset());
    }
}

/// Sorts `a`.
pub fn sort(a: &mut [i32])
    ensures
        sorts(old(a)@, final(a)@),
        final(a)@.len() == old(a)@.len(),
{
    let n = a.len();
    sort_internal(a, 0, n);
    proof {
        assert(a@.subrange(0, n as int) =~= a@);
        assert(old(a)@.subrange(0, n as int) =~= old(a)@);
    }
}

} // verus!
