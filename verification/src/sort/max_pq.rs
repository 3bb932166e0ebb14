//! A priority queue that hands out the item with the greatest key first.

use vstd::multiset::Multiset;
use vstd::prelude::*;
use crate::min_pq::{lemma_swap_multiset, swapped, Weighted};
use crate::sort::binary_heap::{
    is_max_heap, lemma_heap_max, sunk_down, swum_up, topped_at, topped_but, BinaryHeap,
};

verus! {

/// A priority queue on a binary heap. The view is the heap array; as a collection the
/// queue is the multiset of its entries.
pub struct MaxPQ<T> {
    h: BinaryHeap<T>,
}

impl<T: Weighted> View for MaxPQ<T> {
    type V = Seq<T>;

    closed spec fn view(&self) -> Seq<T> {
        self.h@
    }
}

impl<T: Weighted> MaxPQ<T> {
    /// The representation invariant: the array is in heap order.
    pub closed spec fn wf(&self) -> bool {
        is_max_heap(self.h@)
    }

    /// The items of the queue.
    pub open spec fn items(&self) -> Multiset<T> {
        self@.to_multiset()
    }

    /// The first item of the array has the greatest key.
    pub proof fn lemma_first(&self, i: int)
        requires
            self.wf(),
            0 <= i < self@.len(),
        ensures
            self@[0].key() >= self@[i].key(),
    {
        lemma_heap_max(self.h@, self.h@.len() as int, i);
    }

    /// An empty queue with room for `capacity` items.
    pub fn new(capacity: usize) -> (q: MaxPQ<T>)
        ensures
            q.wf(),
            q@ == Seq::<T>::empty(),
    {
        MaxPQ { h: BinaryHeap::new(capacity) }
    }

    /// Number of items.
    pub fn len(&self) -> (r: usize)
        ensures
            r == self@.len(),
    {
        self.h.len()
    }

    /// The heap array.
    pub fn as_slice(&self) -> (r: &[T])
        ensures
            r@ == self@,
    {
        self.h.as_slice()
    }

    /// Adds `item`: it goes behind the last item and moves up from there.
    pub fn insert(&mut self, item: T)
        requires
            old(self).wf(),
        ensures
            final(self).wf(),
            final(self)@ == swum_up(old(self)@.push(item), old(self)@.len() as int),
            final(self).items() == old(self).items().insert(item),
            final(self)@.len() == old(self)@.len() + 1,
    {
        proof {
            broadcast use vstd::seq_lib::to_multiset_build;
        }
        self.h.push(item);
        let i = self.h.len() - 1;
        proof {
            let s = self.h@;
            assert forall|k: int| 0 <= k < s.len() implies #[trigger] topped_but(s, k, i as int) by {
                if k < i {
                    assert(topped_at(old(self).h@, old(self).h@.len() as int, k));
                }
            }
        }
        self.h.swim(i);
    }

    /// Removes the item with the greatest key and returns it: the last item takes its
    /// place and moves down from there.
    pub fn delete_max(&mut self) -> (r: T)
        requires
            old(self).wf(),
            old(self)@.len() > 0,
        ensures
            final(self).wf(),
            r == old(self)@[0],
            forall|x: T| old(self).items().count(x) > 0 ==> r.key() >= #[trigger] x.key(),
            old(self).items() == final(self).items().insert(r),
            final(self)@.len() == old(self)@.len() - 1,
            final(self)@ == sunk_down(
                swapped(old(self)@, 0, old(self)@.len() - 1).drop_last(),
                old(self)@.len() - 1,
                0,
            ),
    {
        let ghost before = self.h@;
        let ghost n = before.len() as int;
        let max = self.h.pop();
        proof {
            broadcast use vstd::seq_lib::to_multiset_build;
            let exchanged = swapped(before, 0, n - 1);
            lemma_swap_multiset(before, 0, n - 1);
            assert(exchanged =~= self.h@.push(max));
            assert(before.to_multiset() == self.h@.to_multiset().insert(max));
            assert forall|x: T| before.to_multiset().count(x) > 0 implies max.key() >= #[trigger] x.key() by {
                broadcast use vstd::seq_lib::to_multiset_contains;
                assert(before.contains(x));
                let i = choose|i: int| 0 <= i < before.len() && before[i] == x;
                lemma_heap_max(before, n, i);
            }
            assert forall|k: int| 1 <= k < self.h@.len() implies #[trigger] topped_at(
                self.h@,
                self.h@.len() as int,
                k,
            ) by {
                assert(topped_at(before, n, k));
            }
        }
        self.h.sink(0);
        max
    }
}

} // verus!
