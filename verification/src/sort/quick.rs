//! Quicksort.

use vstd::prelude::*;
use crate::min_pq::lemma_swap_multiset;
use crate::sort::merge::{lemma_range_same, lemma_range_split, sorts_between};
use crate::sort::{exchange, exchanged, sorts};

verus! {

/// `after` differs from `before` only from `lo` up to `hi`, where it holds the same
/// entries.
pub open spec fn shuffles_between(before: Seq<i32>, after: Seq<i32>, lo: int, hi: int) -> bool {
    &&& after.len() == before.len()
    &&& after.subrange(lo, hi).to_multiset() == before.subrange(lo, hi).to_multiset()
    &&& forall|k: int| 0 <= k < before.len() && !(lo <= k < hi) ==> after[k] == before[k]
}

/// Every entry of a range occurs in that range of an array that has the same entries
/// there.
pub proof fn lemma_range_member(s: Seq<i32>, t: Seq<i32>, lo: int, hi: int, k: int) -> (m: int)
    requires
        0 <= lo <= k < hi <= s.len(),
        s.len() == t.len(),
        s.subrange(lo, hi).to_multiset() == t.subrange(lo, hi).to_multiset(),
    ensures
        lo <= m < hi,
        t[m] == s[k],
{
    broadcast use vstd::seq_lib::to_multiset_contains;
    let x = s[k];
    assert(s.subrange(lo, hi)[k - lo] == x);
    assert(s.subrange(lo, hi).contains(x));
    assert(t.subrange(lo, hi).to_multiset().count(x) > 0);
    assert(t.subrange(lo, hi).contains(x));
    let i = choose|i: int| 0 <= i < t.subrange(lo, hi).len() && t.subrange(lo, hi)[i] == x;
    lo + i
}

/// Exchanging two entries of a range keeps the entries of the range.
pub proof fn lemma_exchange_range(s: Seq<i32>, lo: int, hi: int, i: int, j: int)
    requires
        0 <= lo <= i < hi <= s.len(),
        lo <= j < hi,
    ensures
        shuffles_between(s, exchanged(s, i, j), lo, hi),
{
    let t = exchanged(s, i, j);
    lemma_swap_multiset(s.subrange(lo, hi), i - lo, j - lo);
    assert(t.subrange(lo, hi) =~= s.subrange(lo, hi).update(i - lo, s.subrange(lo, hi)[j - lo]).update(
        j - lo,
        s.subrange(lo, hi)[i - lo],
    ));
}

/// Rearranges `a` from `lo` up to `hi` around its first entry there, and returns where
/// that entry ends up: no entry before it is greater, and every entry behind it is.
pub fn partition(a: &mut [i32], lo: usize, hi: usize) -> (j: usize)
    requires
        lo + 2 <= hi <= old(a)@.len(),
    ensures
        lo <= j < hi,
        shuffles_between(old(a)@, final(a)@, lo as int, hi as int),
        final(a)@[j as int] == old(a)@[lo as int],
        forall|p: int| lo <= p <= j ==> final(a)@[p] <= final(a)@[j as int],
        forall|q: int| j < q < hi ==> final(a)@[q] > final(a)@[j as int],
{
    let mut i = lo + 1;
    let mut j = hi - 1;
    let v = a[lo];
    loop
        invariant
            lo + 2 <= hi <= a@.len(),
            lo < i < hi,
            lo <= j < hi,
            a@[lo as int] == v,
            v == old(a)@[lo as int],
            shuffles_between(old(a)@, a@, lo as int, hi as int),
            forall|p: int| lo < p < i ==> a@[p] <= v,
            forall|q: int| j < q < hi ==> a@[q] > v,
        ensures
            lo < i < hi,
            lo <= j < hi,
            i >= j,
            a@[lo as int] == v,
            v == old(a)@[lo as int],
            hi <= a@.len(),
            shuffles_between(old(a)@, a@, lo as int, hi as int),
            forall|p: int| lo < p <= j ==> a@[p] <= v,
            forall|q: int| j < q < hi ==> a@[q] > v,
        decreases j + hi - i,
    {
        while i + 1 < hi && a[i] <= v
            invariant
                lo < i < hi <= a@.len(),
                forall|p: int| lo < p < i ==> a@[p] <= v,
            decreases hi - i,
        {
            i += 1;
        }
        while j > lo && a[j] > v
            invariant
                lo <= j < hi <= a@.len(),
                forall|q: int| j < q < hi ==> a@[q] > v,
            decreases j,
        {
            j -= 1;
        }
        if i >= j {
            break;
        }
        let ghost before = a@;
        exchange(a, i, j);
        proof {
            lemma_exchange_range(before, lo as int, hi as int, i as int, j as int);
        }
        // what the two scans would do first
        i += 1;
        j -= 1;
    }
    let ghost before = a@;
    exchange(a, lo, j);
    proof {
        lemma_exchange_range(before, lo as int, hi as int, lo as int, j as int);
    }
    j
}

/// Sorts `a` from `lo` up to `hi`: the range is partitioned, then the part before the
/// partitioning entry and the part behind it are sorted.
pub fn sort_internal(a: &mut [i32], lo: usize, hi: usize)
    requires
        lo <= hi <= old(a)@.len(),
    ensures
        sorts_between(old(a)@, final(a)@, lo as int, hi as int),
    decreases hi - lo,
{
    if hi - lo < 2 {
        return ;
    }
    let j = partition(a, lo, hi);
    let ghost parted = a@;
    sort_internal(a, lo, j);
    let ghost first = a@;
    sort_internal(a, j + 1, hi);
    proof {
        let done = a@;
        let v = parted[j as int];
        lemma_range_same(first, done, lo as int, j as int);
        lemma_range_same(parted, first, j + 1, hi as int);
        lemma_range_same(parted, done, j as int, j + 1);
        assert forall|p: int| lo <= p < j implies done[p] <= v by {
            let m = lemma_range_member(first, parted, lo as int, j as int, p);
        }
        assert forall|q: int| j < q < hi implies done[q] > v by {
            let m = lemma_range_member(done, first, j + 1, hi as int, q);
        }
        assert(done[j as int] == v);
        assert forall|p: int, q: int| lo <= p <= q < hi implies done[p] <= done[q] by {
            if q < j {
                assert(first[p] <= first[q]);
                assert(done[p] == first[p] && done[q] == first[q]);
            }
        }
        lemma_range_split(parted, lo as int, j as int, hi as int);
        lemma_range_split(parted, j as int, j + 1, hi as int);
        lemma_range_split(done, lo as int, j as int, hi as int);
        lemma_range_split(done, j as int, j + 1, hi as int);
        assert(done.subrange(lo as int, hi as int).to_multiset() == parted.subrange(
            lo as int,
            hi as int,
        ).to_multiset());
    }
}

/// Sorts `a`.
pub fn sort(a: &mut [i32])
    ensures
        sorts(old(a)@, final(a)@),
        final(a)@.len() == old(a)@.len(),
{
    let n = a.len();
    sort_internal(a, 0, n);
    proof {
        assert(a@.subrange(0, n as int) =~= a@);
        assert(old(a)@.subrange(0, n as int) =~= old(a)@);
    }
}

} // verus!
