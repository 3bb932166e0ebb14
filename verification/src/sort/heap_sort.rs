//! Sorting by way of a binary heap.

use vstd::prelude::*;
use crate::min_pq::{swapped, Weighted};
use crate::sort::binary_heap::{
    is_max_heap, is_max_heap_from, lemma_heap_max, sunk_down, topped_at, BinaryHeap,
};

verus! {

/// The keys never fall along the sequence.
pub open spec fn rising<T: Weighted>(s: Seq<T>) -> bool {
    forall|i: int, j: int| 0 <= i <= j < s.len() ==> (#[trigger] s[i]).key() <= (#[trigger] s[j]).key()
}

/// From position `from` on the keys never fall, and no item before has a greater key
/// than an item from there on.
pub open spec fn settled<T: Weighted>(s: Seq<T>, from: int) -> bool {
    forall|i: int, j: int|
        0 <= i <= j < s.len() && from <= j ==> (#[trigger] s[i]).key() <= (#[trigger] s[j]).key()
}

/// The array after each of the items before `i` has moved down, the last of them first.
pub open spec fn built<T: Weighted>(h: Seq<T>, i: int) -> Seq<T>
    decreases i,
{
    if i <= 0 {
        h
    } else {
        built(sunk_down(h, h.len() as int, i - 1), i - 1)
    }
}

/// The array after the items up to `i` have been settled from the last one down: the
/// first item changes places with the item at `i` and the item that came to the front
/// moves down among those before `i`; then the same with the item before `i`.
pub open spec fn settled_down<T: Weighted>(h: Seq<T>, i: int) -> Seq<T>
    decreases i,
{
    if i <= 0 || i >= h.len() {
        h
    } else {
        settled_down(sunk_down(swapped(h, 0, i), i, 0), i - 1)
    }
}

/// An array that is first put in heap order and then sorted from its end.
pub struct HeapSort<T> {
    buf: BinaryHeap<T>,
}

impl<T: Weighted> View for HeapSort<T> {
    type V = Seq<T>;

    closed spec fn view(&self) -> Seq<T> {
        self.buf@
    }
}

impl<T: Weighted> HeapSort<T> {
    /// The items of `a` in heap order.
    pub fn new(a: Vec<T>) -> (h: HeapSort<T>)
        ensures
            h@ == built(a@, a@.len() as int / 2),
            is_max_heap(h@),
            h@.to_multiset() == a@.to_multiset(),
            h@.len() == a@.len(),
    {
        let mut h = HeapSort { buf: BinaryHeap::from_vec(a) };
        h.build_max_heap();
        h
    }

    /// The items in the order of the array.
    pub fn as_slice(&self) -> (r: &[T])
        ensures
            r@ == self@,
    {
        self.buf.as_slice()
    }

    /// Sorts an array in heap order: the first item changes places with the last one
    /// that is not yet settled, and the item that came to the front moves down among
    /// those before it.
    pub fn sort(&mut self)
        requires
            is_max_heap(old(self)@),
        ensures
            final(self)@ == settled_down(old(self)@, old(self)@.len() - 1),
            rising(final(self)@),
            final(self)@.to_multiset() == old(self)@.to_multiset(),
            final(self)@.len() == old(self)@.len(),
    {
        let n = self.buf.len();
        if n < 2 {
            return ;
        }
        let mut i = n - 1;
        while i > 0
            invariant
                i < n,
                n == self.buf@.len(),
                is_max_heap_from(self.buf@, i + 1, 0),
                settled(self.buf@, i + 1),
                self.buf@.to_multiset() == old(self)@.to_multiset(),
                settled_down(self.buf@, i as int) == settled_down(old(self)@, n - 1),
            decreases i,
        {
            let ghost before = self.buf@;
            self.buf.swap(0, i);
            let ghost mid = self.buf@;
            proof {
                assert forall|k: int| 1 <= k < i implies #[trigger] topped_at(mid, i as int, k) by {
                    assert(topped_at(before, i + 1, k));
                }
                assert forall|p: int| 0 <= p <= i implies (#[trigger] mid[p]).key() <= mid[i as int].key() by {
                    lemma_heap_max(before, i + 1, p);
                    lemma_heap_max(before, i + 1, i as int);
                }
            }
            self.buf.sink_within(i, 0);
            proof {
                let s = self.buf@;
                assert forall|p: int, q: int| 0 <= p <= q < s.len() && i <= q implies (#[trigger] s[p]).key() <= (
                #[trigger] s[q]).key() by {
                    assert(s[q] == mid[q]);
                    if p >= i {
                        assert(s[p] == mid[p]);
                        if q > i {
                            if p == i {
                                assert(before[0].key() <= before[q].key());
                            } else {
                                assert(before[p].key() <= before[q].key());
                            }
                        }
                    } else {
                        // an item before `i` was before `i` when the item sank
                        broadcast use vstd::seq_lib::to_multiset_contains;
                        assert(s.take(i as int)[p] == s[p]);
                        assert(s.take(i as int).contains(s[p]));
                        assert(mid.take(i as int).to_multiset().count(s[p]) > 0);
                        assert(mid.take(i as int).contains(s[p]));
                        let r = choose|r: int| 0 <= r < i && mid.take(i as int)[r] == s[p];
                        assert(mid[r] == s[p]);
                        assert(mid[r].key() <= mid[i as int].key());
                        if q > i {
                            assert(before[0].key() <= before[q].key());
                        }
                    }
                }
            }
            i -= 1;
        }
    }

    /// Puts the array in heap order: from the last item that has one below it back to
    /// the first, each moves down.
    fn build_max_heap(&mut self)
        ensures
            final(self)@ == built(old(self)@, old(self)@.len() as int / 2),
            is_max_heap(final(self)@),
            final(self)@.to_multiset() == old(self)@.to_multiset(),
            final(self)@.len() == old(self)@.len(),
    {
        let n = self.buf.len();
        let mut i = n / 2;
        while i > 0
            invariant
                i <= n / 2,
                n == self.buf@.len(),
                is_max_heap_from(self.buf@, n as int, i as int),
                self.buf@.to_multiset() == old(self)@.to_multiset(),
                built(self.buf@, i as int) == built(old(self)@, n as int / 2),
            decreases i,
        {
            i -= 1;
            self.buf.sink(i);
        }
    }
}

} // verus!
