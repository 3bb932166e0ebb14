//! Insertion sort.

use vstd::prelude::*;
use crate::sort::{exchange, sorted_between, sorts};

verus! {

/// Sorts `a`: each entry in turn moves towards the front past the entries that are
/// greater.
pub fn sort(a: &mut [i32])
    ensures
        sorts(old(a)@, final(a)@),
        final(a)@.len() == old(a)@.len(),
{
    let n = a.len();
    let mut i: usize = 1;
    while i < n
        invariant
            n == a@.len(),
            1 <= i,
            a@.to_multiset() == old(a)@.to_multiset(),
            sorted_between(a@, 0, if i <= n { i as int } else { n as int }),
        decreases n - i,
    {
        let mut j = i;
        while j > 0 && a[j] < a[j - 1]
            invariant
                n == a@.len(),
                j <= i < n,
                a@.to_multiset() == old(a)@.to_multiset(),
                sorted_between(a@, 0, j as int),
                sorted_between(a@, j as int, i + 1),
                forall|p: int, q: int| 0 <= p < j < q <= i ==> a@[p] <= a@[q],
            decreases j,
        {
            exchange(a, j, j - 1);
            j -= 1;
        }
        i += 1;
    }
}

} // verus!
