//! Top-down merge sort.

use vstd::prelude::*;
use crate::sort::{sorted_between, sorts};

verus! {

/// `after` differs from `before` only from `lo` up to `hi`, where it holds the same
/// entries in ascending order.
pub open spec fn sorts_between(before: Seq<i32>, after: Seq<i32>, lo: int, hi: int) -> bool {
    &&& after.len() == before.len()
    &&& sorted_between(after, lo, hi)
    &&& after.subrange(lo, hi).to_multiset() == before.subrange(lo, hi).to_multiset()
    &&& forall|k: int| 0 <= k < before.len() && !(lo <= k < hi) ==> after[k] == before[k]
}

/// Taking one more entry into a range adds it to the entries of the range.
pub proof fn lemma_range_push(s: Seq<i32>, lo: int, hi: int)
    requires
        0 <= lo <= hi < s.len(),
    ensures
        s.subrange(lo, hi + 1).to_multiset() == s.subrange(lo, hi).to_multiset().insert(s[hi]),
{
    broadcast use vstd::seq_lib::to_multiset_build;
    assert(s.subrange(lo, hi + 1) =~= s.subrange(lo, hi).push(s[hi]));
}

/// A range that ends where it starts has no entries.
pub proof fn lemma_range_empty(s: Seq<i32>, lo: int)
    requires
        0 <= lo <= s.len(),
    ensures
        s.subrange(lo, lo).to_multiset() == vstd::multiset::Multiset::<i32>::empty(),
{
    broadcast use vstd::seq_lib::to_multiset_contains;
    let e = s.subrange(lo, lo);
    assert forall|x: i32| e.to_multiset().count(x) == 0 by {
        assert(!e.contains(x));
    }
    assert(e.to_multiset() =~= vstd::multiset::Multiset::<i32>::empty());
}

/// The entries of a range are those of its two parts.
pub proof fn lemma_range_split(s: Seq<i32>, lo: int, mid: int, hi: int)
    requires
        0 <= lo <= mid <= hi <= s.len(),
    ensures
        s.subrange(lo, hi).to_multiset() == s.subrange(lo, mid).to_multiset().add(
            s.subrange(mid, hi).to_multiset(),
        ),
    decreases hi - mid,
{
    if mid == hi {
        lemma_range_empty(s, mid);
        assert(s.subrange(lo, hi).to_multiset() =~= s.subrange(lo, mid).to_multiset().add(
            s.subrange(mid, hi).to_multiset(),
        ));
    } else {
        lemma_range_split(s, lo, mid, hi - 1);
        lemma_range_push(s, lo, hi - 1);
        lemma_range_push(s, mid, hi - 1);
        assert(s.subrange(lo, hi).to_multiset() =~= s.subrange(lo, mid).to_multiset().add(
            s.subrange(mid, hi).to_multiset(),
        ));
    }
}

/// Two arrays that agree on a range have the same entries there.
pub proof fn lemma_range_same(s: Seq<i32>, t: Seq<i32>, lo: int, hi: int)
    requires
        0 <= lo <= hi <= s.len(),
        s.len() == t.len(),
        forall|k: int| lo <= k < hi ==> s[k] == t[k],
    ensures
        s.subrange(lo, hi) == t.subrange(lo, hi),
{
    assert(s.subrange(lo, hi) =~= t.subrange(lo, hi));
}

/// Merges the two sorted runs of `a` from `lo` up to `mid` and from `mid` up to `hi`
/// into one; on a tie the entry of the first run comes first. `aux` is used as scratch
/// space.
pub fn merge(aux: &mut [i32], a: &mut [i32], lo: usize, mid: usize, hi: usize)
    requires
        lo <= mid <= hi <= old(a)@.len(),
        old(aux)@.len() == old(a)@.len(),
        sorted_between(old(a)@, lo as int, mid as int),
        sorted_between(old(a)@, mid as int, hi as int),
    ensures
        sorts_between(old(a)@, final(a)@, lo as int, hi as int),
        final(aux)@.len() == old(aux)@.len(),
{
    let mut k = lo;
    while k < hi
        invariant
            lo <= k <= hi <= a@.len(),
            aux@.len() == a@.len(),
            a@ == old(a)@,
            forall|p: int| lo <= p < k ==> aux@[p] == a@[p],
        decreases hi - k,
    {
        aux[k] = a[k];
        k += 1;
    }
    let ghost src = aux@;
    let mut i = lo;
    let mut j = mid;
    let mut k = lo;
    proof {
        lemma_range_same(src, old(a)@, lo as int, hi as int);
        lemma_range_empty(a@, lo as int);
        lemma_range_empty(src, lo as int);
        lemma_range_empty(src, mid as int);
        assert(a@.subrange(lo as int, lo as int).to_multiset() =~= src.subrange(
            lo as int,
            lo as int,
        ).to_multiset().add(src.subrange(mid as int, mid as int).to_multiset()));
    }
    while k < hi
        invariant
            lo <= i <= mid <= j <= hi <= a@.len(),
            k == i + (j - mid),
            aux@ == src,
            src.len() == a@.len(),
            a@.len() == old(a)@.len(),
            forall|p: int| lo <= p < hi ==> src[p] == old(a)@[p],
            sorted_between(src, lo as int, mid as int),
            sorted_between(src, mid as int, hi as int),
            forall|p: int| 0 <= p < a@.len() && !(lo <= p < k) ==> a@[p] == old(a)@[p],
            sorted_between(a@, lo as int, k as int),
            forall|p: int| lo <= p < k && i < mid ==> a@[p] <= src[i as int],
            forall|p: int| lo <= p < k && j < hi ==> a@[p] <= src[j as int],
            a@.subrange(lo as int, k as int).to_multiset() == src.subrange(
                lo as int,
                i as int,
            ).to_multiset().add(src.subrange(mid as int, j as int).to_multiset()),
        decreases hi - k,
    {
        let ghost before = a@;
        let from_second = i >= mid || (j < hi && aux[j] < aux[i]);
        if from_second {
            a[k] = aux[j];
            proof {
                lemma_range_push(src, mid as int, j as int);
            }
            j += 1;
        } else {
            a[k] = aux[i];
            proof {
                lemma_range_push(src, lo as int, i as int);
            }
            i += 1;
        }
        proof {
            lemma_range_same(before, a@, lo as int, k as int);
            lemma_range_push(a@, lo as int, k as int);
            assert(a@.subrange(lo as int, k + 1).to_multiset() =~= src.subrange(
                lo as int,
                i as int,
            ).to_multiset().add(src.subrange(mid as int, j as int).to_multiset()));
            assert forall|p: int, q: int| lo <= p <= q < k + 1 implies a@[p] <= a@[q] by {
                if q < k {
                    assert(before[p] <= before[q]);
                }
            }
        }
        k += 1;
    }
    proof {
        lemma_range_split(src, lo as int, mid as int, hi as int);
    }
}

/// Sorts `a` from `lo` up to `hi`: each half is sorted, then the two are merged.
pub fn sort_internal(aux: &mut [i32], a: &mut [i32], lo: usize, hi: usize)
    requires
        lo <= hi <= old(a)@.len(),
        old(aux)@.len() == old(a)@.len(),
    ensures
        sorts_between(old(a)@, final(a)@, lo as int, hi as int),
        final(aux)@.len() == old(aux)@.len(),
    decreases hi - lo,
{
    if hi - lo <= 1 {
        return ;
    }
    let mid = lo + (hi - lo) / 2;
    sort_internal(aux, a, lo, mid);
    let ghost first = a@;
    sort_internal(aux, a, mid, hi);
    let ghost second = a@;
    proof {
        lemma_range_same(first, second, lo as int, mid as int);
        lemma_range_same(old(a)@, first, mid as int, hi as int);
    }
    merge(aux, a, lo, mid, hi);
    proof {
        lemma_range_split(old(a)@, lo as int, mid as int, hi as int);
        lemma_range_split(second, lo as int, mid as int, hi as int);
    }
}

/// Sorts `a`.
pub fn sort(a: &mut [i32])
    ensures
        sorts(old(a)@, final(a)@),
        final(a)@.len() == old(a)@.len(),
{
    let n = a.len();
    let mut aux: Vec<i32> = Vec::with_capacity(n);
    let mut i: usize = 0;
    while i < n
        invariant
            i <= n,
            aux@.len() == i,
        decreases n - i,
    {
        aux.push(0);
        i += 1;
    }
    sort_internal(aux.as_mut_slice(), a, 0, n);
    proof {
        assert(a@.subrange(0, n as int) =~= a@);
        assert(old(a)@.subrange(0, n as int) =~= old(a)@);
    }
}

} // verus!
