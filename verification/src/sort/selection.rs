//! Selection sort.

use vstd::prelude::*;
use crate::sort::{exchange, sorted_between, sorts};

verus! {

/// Sorts `a`: again and again the smallest of the entries not yet in place, the first of
/// them on a tie, is exchanged with the first of them.
pub fn sort(a: &mut [i32])
    ensures
        sorts(old(a)@, final(a)@),
        final(a)@.len() == old(a)@.len(),
{
    let n = a.len();
    let mut i: usize = 0;
    while i < n
        invariant
            n == a@.len(),
            i <= n,
            a@.to_multiset() == old(a)@.to_multiset(),
            sorted_between(a@, 0, i as int),
            forall|p: int, q: int| 0 <= p < i <= q < n ==> a@[p] <= a@[q],
        decreases n - i,
    {
        let mut min = i;
        let mut j = i + 1;
        while j < n
            invariant
                n == a@.len(),
                i <= min < j <= n,
                forall|q: int| i <= q < j ==> a@[min as int] <= a@[q],
            decreases n - j,
        {
            if a[j] < a[min] {
                min = j;
            }
            j += 1;
        }
        exchange(a, i, min);
        i += 1;
    }
}

} // verus!
