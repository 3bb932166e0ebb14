//! Shell sort.

use vstd::prelude::*;
use crate::sort::{exchange, sorted_between, sorts};

verus! {

/// `h` is one of the gaps 1, 4, 13, 40, ...: each is three times the one before plus one.
pub open spec fn is_gap(h: nat) -> bool
    decreases h,
{
    h == 1 || (h > 1 && h % 3 == 1 && is_gap(h / 3))
}

/// Sorts `a`: for each gap, from the greatest that is below a third of the length down
/// to 1, each entry in turn moves towards the front in steps of the gap past the entries
/// that are greater.
pub fn sort(a: &mut [i32])
    ensures
        sorts(old(a)@, final(a)@),
        final(a)@.len() == old(a)@.len(),
{
    let n = a.len();
    let mut h: usize = 1;
    while h < n / 3
        invariant
            is_gap(h as nat),
        decreases n - h,
    {
        h = 3 * h + 1;
    }
    while h >= 1
        invariant
            n == a@.len(),
            a@.to_multiset() == old(a)@.to_multiset(),
            h == 0 || is_gap(h as nat),
            h == 0 ==> sorted_between(a@, 0, n as int),
        decreases h,
    {
        let mut i: usize = h;
        while i < n
            invariant
                n == a@.len(),
                1 <= h <= i,
                a@.to_multiset() == old(a)@.to_multiset(),
                h == 1 ==> sorted_between(a@, 0, if i <= n { i as int } else { n as int }),
            decreases n - i,
        {
            let mut j = i;
            while j >= h && a[j] < a[j - h]
                invariant
                    n == a@.len(),
                    1 <= h,
                    j <= i < n,
                    a@.to_multiset() == old(a)@.to_multiset(),
                    h == 1 ==> sorted_between(a@, 0, j as int),
                    h == 1 ==> sorted_between(a@, j as int, i + 1),
                    h == 1 ==> forall|p: int, q: int| 0 <= p < j < q <= i ==> a@[p] <= a@[q],
                decreases j,
            {
                exchange(a, j, j - h);
                j -= h;
            }
            i += 1;
        }
        proof {
            if h == 1 && n == 0 {
                assert(sorted_between(a@, 0, 0));
            }
        }
        h /= 3;
    }
}

} // verus!
