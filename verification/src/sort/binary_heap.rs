//! A binary heap in an array, with the item of the greatest key first.

use vstd::prelude::*;
use crate::min_pq::{lemma_swap_multiset, swapped, Weighted};

verus! {

/// Among the first `n` items, the item at `k` has a key no smaller than the item at `c`,
/// if there is one.
pub open spec fn above_ok<T: Weighted>(h: Seq<T>, n: int, k: int, c: int) -> bool {
    c < n ==> h[k].key() >= h[c].key()
}

/// Among the first `n` items, the item at `k` has a key no smaller than the two items
/// just below it.
pub open spec fn topped_at<T: Weighted>(h: Seq<T>, n: int, k: int) -> bool {
    above_ok(h, n, k, 2 * k + 1) && above_ok(h, n, k, 2 * k + 2)
}

/// Among the first `n` items, none from position `from` on has a smaller key than an
/// item just below it.
pub open spec fn is_max_heap_from<T: Weighted>(h: Seq<T>, n: int, from: int) -> bool {
    forall|k: int| from <= k < n ==> #[trigger] topped_at(h, n, k)
}

/// No item has a smaller key than an item just below it.
pub open spec fn is_max_heap<T: Weighted>(h: Seq<T>) -> bool {
    is_max_heap_from(h, h.len() as int, 0)
}

/// The item at `k` has a key no smaller than the items just below it, leaving the
/// position `hole` out of account.
pub open spec fn topped_but<T: Weighted>(h: Seq<T>, k: int, hole: int) -> bool {
    &&& 2 * k + 1 != hole ==> above_ok(h, h.len() as int, k, 2 * k + 1)
    &&& 2 * k + 2 != hole ==> above_ok(h, h.len() as int, k, 2 * k + 2)
}

/// No item has a smaller key than an item just below it, except perhaps the item above
/// `hole`, which may have a smaller key than the item at `hole`.
pub open spec fn max_heap_but<T: Weighted>(h: Seq<T>, hole: int) -> bool {
    forall|k: int| 0 <= k < h.len() ==> #[trigger] topped_but(h, k, hole)
}

/// The items just below `hole` have keys no greater than the item above `hole`.
pub open spec fn spanned<T: Weighted>(h: Seq<T>, hole: int) -> bool {
    hole > 0 ==> above_ok(h, h.len() as int, (hole - 1) / 2, 2 * hole + 1) && above_ok(
        h,
        h.len() as int,
        (hole - 1) / 2,
        2 * hole + 2,
    )
}

/// The array after the item at `k` has moved up as far as its key is greater than that
/// of the item above it.
pub open spec fn swum_up<T: Weighted>(h: Seq<T>, k: int) -> Seq<T>
    decreases k,
{
    if 0 < k < h.len() && h[(k - 1) / 2].key() < h[k].key() {
        swum_up(swapped(h, (k - 1) / 2, k), (k - 1) / 2)
    } else {
        h
    }
}

/// Of the items just below `k` among the first `n`, the position of the one with the
/// greater key: the left one on a tie, or where there is no right one.
pub open spec fn greater_below<T: Weighted>(h: Seq<T>, n: int, k: int) -> int {
    if 2 * k + 2 < n && h[2 * k + 1].key() < h[2 * k + 2].key() {
        2 * k + 2
    } else {
        2 * k + 1
    }
}

/// The array after the item at `k` has moved down among the first `n` items: as long as
/// an item just below it has a greater key, it changes places with the one of the two
/// that has the greater key.
pub open spec fn sunk_down<T: Weighted>(h: Seq<T>, n: int, k: int) -> Seq<T>
    decreases n - k,
{
    if 0 <= k && 2 * k + 1 < n && n <= h.len() {
        let j = greater_below(h, n, k);
        if h[k].key() >= h[j].key() {
            h
        } else {
            sunk_down(swapped(h, k, j), n, j)
        }
    } else {
        h
    }
}

/// The first item of a heap has the greatest key.
pub proof fn lemma_heap_max<T: Weighted>(h: Seq<T>, n: int, i: int)
    requires
        is_max_heap_from(h, n, 0),
        0 <= i < n,
    ensures
        h[0].key() >= h[i].key(),
    decreases i,
{
    if i > 0 {
        let p = (i - 1) / 2;
        lemma_heap_max(h, n, p);
        assert(topped_at(h, n, p));
        assert(i == 2 * p + 1 || i == 2 * p + 2);
    }
}

/// Moves the item at `k` up until the item above it has no smaller key. In an array
/// that is a heap but for the item at `k` this gives a heap.
pub fn swim<T: Weighted>(a: &mut Vec<T>, k: usize)
    requires
        k < old(a)@.len() || k == 0,
    ensures
        final(a)@ == swum_up(old(a)@, k as int),
        final(a)@.len() == old(a)@.len(),
        final(a)@.to_multiset() == old(a)@.to_multiset(),
        k < old(a)@.len() && max_heap_but(old(a)@, k as int) && spanned(old(a)@, k as int) ==> is_max_heap(
            final(a)@,
        ),
{
    let ghost start = k;
    let ghost good = k < a@.len() && max_heap_but(a@, k as int) && spanned(a@, k as int);
    let mut k = k;
    while k > 0 && a[(k - 1) / 2].priority() < a[k].priority()
        invariant
            k < a@.len() || k == 0,
            swum_up(a@, k as int) == swum_up(old(a)@, start as int),
            good ==> k < a@.len() && max_heap_but(a@, k as int) && spanned(a@, k as int),
            a@.to_multiset() == old(a)@.to_multiset(),
            a@.len() == old(a)@.len(),
        decreases k,
    {
        let p = (k - 1) / 2;
        let ghost before = a@;
        let up = a[k];
        let down = a[p];
        a[p] = up;
        a[k] = down;
        proof {
            lemma_swap_multiset(before, p as int, k as int);
            assert(a@ =~= swapped(before, p as int, k as int));
            if good {
                let s = a@;
                assert(k == 2 * p + 1 || k == 2 * p + 2);
                assert(topped_but(before, p as int, k as int));
                assert(topped_but(before, k as int, k as int));
                assert forall|m: int| 0 <= m < s.len() implies #[trigger] topped_but(s, m, p as int) by {
                    assert(topped_but(before, m, k as int));
                }
                if p > 0 {
                    let pp = (p as int - 1) / 2;
                    assert(topped_but(before, pp, k as int));
                    assert(p == 2 * pp + 1 || p == 2 * pp + 2);
                }
            }
        }
        k = p;
    }
    proof {
        if good {
            let s = a@;
            assert forall|m: int| 0 <= m < s.len() implies #[trigger] topped_at(s, s.len() as int, m) by {
                assert(topped_but(s, m, k as int));
                if k > 0 {
                    let p = (k as int - 1) / 2;
                    assert(k == 2 * p + 1 || k == 2 * p + 2);
                }
            }
        }
    }
}

/// Moves the item at `k` down among the first `n` items until no item just below it has
/// a greater key. Where the items behind `k` are in heap order, so are then the items
/// from `k` on.
pub fn sink<T: Weighted>(a: &mut Vec<T>, n: usize, k: usize)
    requires
        n <= old(a)@.len(),
    ensures
        final(a)@ == sunk_down(old(a)@, n as int, k as int),
        final(a)@.len() == old(a)@.len(),
        final(a)@.to_multiset() == old(a)@.to_multiset(),
        final(a)@.take(n as int).to_multiset() == old(a)@.take(n as int).to_multiset(),
        forall|m: int| 0 <= m < k || n <= m < old(a)@.len() ==> final(a)@[m] == old(a)@[m],
        is_max_heap_from(old(a)@, n as int, k + 1) ==> is_max_heap_from(final(a)@, n as int, k as int),
{
    let ghost start = k;
    let ghost good = is_max_heap_from(a@, n as int, k + 1);
    let mut k = k;
    while k < n / 2
        invariant
            n <= a@.len(),
            start <= k,
            a@.len() == old(a)@.len(),
            sunk_down(a@, n as int, k as int) == sunk_down(old(a)@, n as int, start as int),
            a@.to_multiset() == old(a)@.to_multiset(),
            a@.take(n as int).to_multiset() == old(a)@.take(n as int).to_multiset(),
            forall|m: int| 0 <= m < start || n <= m < a@.len() ==> a@[m] == old(a)@[m],
            good ==> forall|m: int| start <= m < n && m != k ==> #[trigger] topped_at(a@, n as int, m),
            good && k > start ==> (k - 1) / 2 >= start && above_ok(
                a@,
                n as int,
                (k - 1) / 2,
                2 * k + 1,
            ) && above_ok(a@, n as int, (k - 1) / 2, 2 * k + 2),
        ensures
            a@ == sunk_down(old(a)@, n as int, start as int),
            a@.len() == old(a)@.len(),
            a@.to_multiset() == old(a)@.to_multiset(),
            a@.take(n as int).to_multiset() == old(a)@.take(n as int).to_multiset(),
            forall|m: int| 0 <= m < start || n <= m < a@.len() ==> a@[m] == old(a)@[m],
            good ==> is_max_heap_from(a@, n as int, start as int),
        decreases n - k,
    {
        let mut j = 2 * k + 1;
        if j + 1 < n && a[j].priority() < a[j + 1].priority() {
            j += 1;
        }
        assert(j == greater_below(a@, n as int, k as int));
        if a[k].priority() >= a[j].priority() {
            proof {
                if good {
                    assert(topped_at(a@, n as int, k as int));
                }
            }
            break ;
        }
        let ghost before = a@;
        let up = a[j];
        let down = a[k];
        a[k] = up;
        a[j] = down;
        proof {
            lemma_swap_multiset(before, k as int, j as int);
            lemma_swap_multiset(before.take(n as int), k as int, j as int);
            assert(a@ =~= swapped(before, k as int, j as int));
            assert(a@.take(n as int) =~= swapped(before.take(n as int), k as int, j as int));
            if good {
                let s = a@;
                assert(topped_at(before, n as int, j as int));
                assert forall|m: int| start <= m < n && m != j implies #[trigger] topped_at(s, n as int, m) by {
                    if m == k {
                    } else if k > start && m == (k - 1) / 2 {
                        assert(topped_at(before, n as int, m));
                        assert(k == 2 * m + 1 || k == 2 * m + 2);
                    } else {
                        assert(topped_at(before, n as int, m));
                    }
                }
            }
        }
        k = j;
    }
    proof {
        if good {
            assert forall|m: int| start <= m < n implies #[trigger] topped_at(a@, n as int, m) by {}
        }
    }
}

/// A binary heap in an array. The methods move single items; whether the array is in
/// heap order is up to the caller.
pub struct BinaryHeap<T> {
    buf: Vec<T>,
}

impl<T: Weighted> View for BinaryHeap<T> {
    type V = Seq<T>;

    closed spec fn view(&self) -> Seq<T> {
        self.buf@
    }
}

impl<T: Weighted> BinaryHeap<T> {
    /// An empty heap with room for `capacity` items.
    pub fn new(capacity: usize) -> (h: BinaryHeap<T>)
        ensures
            h@ == Seq::<T>::empty(),
    {
        BinaryHeap { buf: Vec::with_capacity(capacity) }
    }

    /// A heap on the items of `buf`, as they stand.
    pub fn from_vec(buf: Vec<T>) -> (h: BinaryHeap<T>)
        ensures
            h@ == buf@,
    {
        BinaryHeap { buf }
    }

    /// Number of items.
    pub fn len(&self) -> (r: usize)
        ensures
            r == self@.len(),
    {
        self.buf.len()
    }

    /// Adds `item` behind the last item.
    pub fn push(&mut self, item: T)
        ensures
            final(self)@ == old(self)@.push(item),
    {
        self.buf.push(item);
    }

    /// Takes the first item out and puts the last item in its place.
    pub fn pop(&mut self) -> (r: T)
        requires
            old(self)@.len() > 0,
        ensures
            r == old(self)@[0],
            final(self)@ == swapped(old(self)@, 0, old(self)@.len() - 1).drop_last(),
    {
        let n = self.buf.len();
        let max = self.buf[0];
        let last = self.buf[n - 1];
        self.buf[0] = last;
        self.buf[n - 1] = max;
        let out = self.buf.pop();
        proof {
            assert(self.buf@ =~= swapped(old(self)@, 0, old(self)@.len() - 1).drop_last());
        }
        max
    }

    /// Moves the item at `k` up until the item above it has no smaller key.
    pub fn swim(&mut self, k: usize)
        requires
            k < old(self)@.len() || k == 0,
        ensures
            final(self)@ == swum_up(old(self)@, k as int),
            final(self)@.len() == old(self)@.len(),
            final(self)@.to_multiset() == old(self)@.to_multiset(),
            k < old(self)@.len() && max_heap_but(old(self)@, k as int) && spanned(old(self)@, k as int)
                ==> is_max_heap(final(self)@),
    {
        swim(&mut self.buf, k);
    }

    /// Moves the item at `k` down until no item just below it has a greater key.
    pub fn sink(&mut self, k: usize)
        ensures
            final(self)@ == sunk_down(old(self)@, old(self)@.len() as int, k as int),
            final(self)@.len() == old(self)@.len(),
            final(self)@.to_multiset() == old(self)@.to_multiset(),
            is_max_heap_from(old(self)@, old(self)@.len() as int, k + 1) ==> is_max_heap_from(
                final(self)@,
                old(self)@.len() as int,
                k as int,
            ),
    {
        let n = self.buf.len();
        proof {
            assert(self.buf@.take(n as int) =~= self.buf@);
        }
        sink(&mut self.buf, n, k);
    }

    /// Moves the item at `k` down among the first `n` items, leaving the others where
    /// they are.
    pub fn sink_within(&mut self, n: usize, k: usize)
        requires
            n <= old(self)@.len(),
        ensures
            final(self)@ == sunk_down(old(self)@, n as int, k as int),
            final(self)@.len() == old(self)@.len(),
            final(self)@.to_multiset() == old(self)@.to_multiset(),
            final(self)@.take(n as int).to_multiset() == old(self)@.take(n as int).to_multiset(),
            forall|m: int| 0 <= m < k || n <= m < old(self)@.len() ==> final(self)@[m] == old(self)@[m],
            is_max_heap_from(old(self)@, n as int, k + 1) ==> is_max_heap_from(
                final(self)@,
                n as int,
                k as int,
            ),
    {
        sink(&mut self.buf, n, k);
    }

    /// Exchanges the items at `i` and `j`.
    pub fn swap(&mut self, i: usize, j: usize)
        requires
            i < old(self)@.len(),
            j < old(self)@.len(),
        ensures
            final(self)@ == swapped(old(self)@, i as int, j as int),
            final(self)@.to_multiset() == old(self)@.to_multiset(),
    {
        let x = self.buf[i];
        let y = self.buf[j];
        self.buf[i] = y;
        self.buf[j] = x;
        proof {
            lemma_swap_multiset(old(self)@, i as int, j as int);
            assert(self.buf@ =~= swapped(old(self)@, i as int, j as int));
        }
    }

    /// The items in the order of the array.
    pub fn as_slice(&self) -> (r: &[T])
        ensures
            r@ == self@,
    {
        self.buf.as_slice()
    }
}

} // verus!
