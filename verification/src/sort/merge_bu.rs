//! Bottom-up merge sort.

use vstd::prelude::*;
use crate::sort::merge::{lemma_range_same, lemma_range_split, merge};
use crate::sort::{sorted_between, sorts};

verus! {

/// How far `from` is below `to`.
pub open spec fn left(from: int, to: int) -> int {
    if from < to {
        to - from
    } else {
        0
    }
}

/// From `from` up to `to`, the array consists of sorted runs of `w` entries each, the
/// last one perhaps shorter.
pub open spec fn runs(s: Seq<i32>, w: int, from: int, to: int) -> bool
    decreases left(from, to),
{
    if from >= to || w <= 0 {
        true
    } else {
        sorted_between(s, from, if from + w <= to { from + w } else { to }) && runs(
            s,
            w,
            from + w,
            to,
        )
    }
}

/// Steps of `w` lead from `from` exactly to `to`.
pub open spec fn reach(from: int, to: int, w: int) -> bool
    decreases left(from, to),
{
    from == to || (w > 0 && from + w <= to && reach(from + w, to, w))
}

/// Runs that end where a further sorted run of no more than `w` entries begins go on to
/// the end of that run.
proof fn lemma_runs_append(s: Seq<i32>, w: int, from: int, lo: int, hi: int)
    requires
        w > 0,
        runs(s, w, from, lo),
        reach(from, lo, w),
        lo <= hi <= lo + w,
        sorted_between(s, lo, hi),
    ensures
        runs(s, w, from, hi),
        hi == lo + w ==> reach(from, hi, w),
    decreases left(from, lo),
{
    if from == lo {
        assert(runs(s, w, lo + w, hi));
        if hi == lo + w {
            assert(reach(hi, hi, w));
        }
    } else {
        assert(from + w <= lo);
        assert(sorted_between(s, from, from + w));
        assert(runs(s, w, from + w, lo));
        lemma_runs_append(s, w, from + w, lo, hi);
    }
}

/// Arrays that agree on a range have the same runs there.
proof fn lemma_runs_same(s: Seq<i32>, t: Seq<i32>, w: int, from: int, to: int)
    requires
        0 <= from,
        to <= s.len(),
        s.len() == t.len(),
        forall|k: int| from <= k < to ==> s[k] == t[k],
        runs(s, w, from, to),
    ensures
        runs(t, w, from, to),
    decreases left(from, to),
{
    if from < to && w > 0 {
        lemma_runs_same(s, t, w, from + w, to);
    }
}

/// Every array consists of runs of one entry.
proof fn lemma_runs_single(s: Seq<i32>, from: int, to: int)
    ensures
        runs(s, 1, from, to),
    decreases left(from, to),
{
    if from < to {
        lemma_runs_single(s, from + 1, to);
    }
}

/// Sorts `a`: runs of 1, 2, 4, ... entries are merged two by two into runs of twice the
/// length, until one run is left.
pub fn sort(a: &mut [i32])
    ensures
        sorts(old(a)@, final(a)@),
        final(a)@.len() == old(a)@.len(),
{
    let n = a.len();
    let mut aux: Vec<i32> = Vec::with_capacity(n);
    let mut k: usize = 0;
    while k < n
        invariant
            k <= n,
            aux@.len() == k,
        decreases n - k,
    {
        aux.push(0);
        k += 1;
    }
    let mut i: usize = 1;
    proof {
        lemma_runs_single(a@, 0, n as int);
    }
    while i < n
        invariant
            n == a@.len(),
            aux@.len() == n,
            1 <= i <= n || (i == 1 && n == 0),
            a@.to_multiset() == old(a)@.to_multiset(),
            runs(a@, i as int, 0, n as int),
        decreases n - i,
    {
        let mut lo: usize = 0;
        assert(runs(a@, 2 * i, 0, 0));
        assert(reach(0, 0, 2 * i));
        while lo < n - i
            invariant
                n == a@.len(),
                aux@.len() == n,
                1 <= i < n,
                lo <= n,
                a@.to_multiset() == old(a)@.to_multiset(),
                runs(a@, 2 * i, 0, lo as int),
                lo == n || reach(0, lo as int, 2 * i),
                runs(a@, i as int, lo as int, n as int),
            decreases n - lo,
        {
            let mid = lo + i;
            let hi = if n - mid <= i {
                n
            } else {
                mid + i
            };
            let ghost before = a@;
            proof {
                assert(runs(before, i as int, mid as int, n as int));
            }
            merge(aux.as_mut_slice(), a, lo, mid, hi);
            proof {
                lemma_range_split(before, 0, lo as int, n as int);
                lemma_range_split(before, lo as int, hi as int, n as int);
                lemma_range_split(a@, 0, lo as int, n as int);
                lemma_range_split(a@, lo as int, hi as int, n as int);
                lemma_range_same(before, a@, 0, lo as int);
                lemma_range_same(before, a@, hi as int, n as int);
                assert(a@.subrange(0, n as int) =~= a@);
                assert(before.subrange(0, n as int) =~= before);
                lemma_runs_same(before, a@, 2 * i, 0, lo as int);
                lemma_runs_append(a@, 2 * i, 0, lo as int, hi as int);
                if hi < n {
                    assert(runs(before, i as int, hi as int, n as int));
                    lemma_runs_same(before, a@, i as int, hi as int, n as int);
                }
            }
            lo = hi;
        }
        proof {
            if lo < n {
                lemma_runs_append(a@, 2 * i, 0, lo as int, n as int);
            }
        }
        proof {
            // runs of more than half the length: there is one, or there are two
            assert(runs(a@, 2 * i, 0, n as int));
            if i >= n - i {
                assert(sorted_between(a@, 0, n as int));
                assert(runs(a@, n as int, n as int, n as int));
            }
        }
        if i >= n - i {
            i = n;
        } else {
            i += i;
        }
    }
    proof {
        if n == 0 {
            assert(sorted_between(a@, 0, 0));
        }
    }
}

} // verus!
