//! A minimum priority queue on a binary heap.

use vstd::multiset::Multiset;
use vstd::prelude::*;
use crate::edge::Edge;

verus! {

/// Items that carry the key by which a queue orders them.
pub trait Weighted: Copy {
    /// The key of the item.
    spec fn key(&self) -> u64;

    /// The key of the item.
    fn priority(&self) -> (k: u64)
        ensures
            k == self.key(),
    ;
}

impl Weighted for u64 {
    open spec fn key(&self) -> u64 {
        *self
    }

    fn priority(&self) -> (k: u64) {
        *self
    }
}

impl Weighted for Edge {
    open spec fn key(&self) -> u64 {
        self.weight
    }

    fn priority(&self) -> (k: u64) {
        self.weight
    }
}

/// Items that belong to a slot in which a queue holds at most one of them.
pub trait Slotted: Weighted {
    /// The slot of the item.
    spec fn slot(&self) -> usize;

    /// The slot of the item.
    fn place(&self) -> (s: usize)
        ensures
            s == self.slot(),
    ;
}

/// The item at `k` has a key no greater than the item at `c`, if there is one.
pub open spec fn below_ok<T: Weighted>(h: Seq<T>, k: int, c: int) -> bool {
    c < h.len() ==> h[k].key() <= h[c].key()
}

/// The item at `k` has a key no greater than the two items just below it.
pub open spec fn ordered_at<T: Weighted>(h: Seq<T>, k: int) -> bool {
    below_ok(h, k, 2 * k + 1) && below_ok(h, k, 2 * k + 2)
}

/// No item has a smaller key than the item above it.
pub open spec fn is_heap<T: Weighted>(h: Seq<T>) -> bool {
    forall|k: int| 0 <= k < h.len() ==> #[trigger] ordered_at(h, k)
}

/// The item at `k` has a key no greater than the items just below it, leaving the
/// position `hole` out of account.
pub open spec fn ordered_but<T: Weighted>(h: Seq<T>, k: int, hole: int) -> bool {
    &&& 2 * k + 1 != hole ==> below_ok(h, k, 2 * k + 1)
    &&& 2 * k + 2 != hole ==> below_ok(h, k, 2 * k + 2)
}

/// No item has a smaller key than the item above it, except perhaps the item at `hole`.
pub open spec fn heap_but<T: Weighted>(h: Seq<T>, hole: int) -> bool {
    forall|k: int| 0 <= k < h.len() ==> #[trigger] ordered_but(h, k, hole)
}

/// The items just below `hole` have keys no smaller than the item above `hole`.
pub open spec fn bridged<T: Weighted>(h: Seq<T>, hole: int) -> bool {
    hole > 0 ==> below_ok(h, (hole - 1) / 2, 2 * hole + 1) && below_ok(
        h,
        (hole - 1) / 2,
        2 * hole + 2,
    )
}

/// The array with the items at `i` and `j` exchanged.
pub open spec fn swapped<T>(h: Seq<T>, i: int, j: int) -> Seq<T> {
    h.update(i, h[j]).update(j, h[i])
}

/// The array after the item at `k` has moved up as far as its key is smaller than that
/// of the item above it.
pub open spec fn swum<T: Weighted>(h: Seq<T>, k: int) -> Seq<T>
    decreases k,
{
    if 0 < k < h.len() && h[(k - 1) / 2].key() > h[k].key() {
        swum(swapped(h, (k - 1) / 2, k), (k - 1) / 2)
    } else {
        h
    }
}

/// The array of `n` items after the item at `i` has sunk: if the item just below it on
/// the left has a smaller key, the two are exchanged and the item sinks on from there;
/// then the same is done with the item that is at `i` now and the item just below it on
/// the right.
pub open spec fn sunk_in<T: Weighted>(h: Seq<T>, n: int, i: int) -> Seq<T>
    decreases n - i,
{
    if 0 <= i && 2 * i + 1 < n {
        let first = if h[2 * i + 1].key() < h[i].key() {
            sunk_in(swapped(h, 2 * i + 1, i), n, 2 * i + 1)
        } else {
            h
        };
        if 2 * i + 2 < n && first[2 * i + 2].key() < first[i].key() {
            sunk_in(swapped(first, 2 * i + 2, i), n, 2 * i + 2)
        } else {
            first
        }
    } else {
        h
    }
}

/// The array after the item at `i` has sunk.
pub open spec fn sunk<T: Weighted>(h: Seq<T>, i: int) -> Seq<T> {
    sunk_in(h, h.len() as int, i)
}

/// Whether position `k` lies at or below position `i` in the heap.
pub open spec fn in_subtree(i: int, k: int) -> bool
    decreases k,
{
    if k <= i || k <= 0 {
        k == i
    } else {
        in_subtree(i, (k - 1) / 2)
    }
}

/// Every item at or below `i` has a key no greater than the two items just below it.
pub open spec fn ordered_in<T: Weighted>(h: Seq<T>, i: int) -> bool {
    forall|k: int| 0 <= k < h.len() && in_subtree(i, k) ==> #[trigger] ordered_at(h, k)
}

/// Every item below `i` has a key no greater than the two items just below it.
pub open spec fn ordered_under<T: Weighted>(h: Seq<T>, i: int) -> bool {
    forall|k: int| 0 <= k < h.len() && in_subtree(i, k) && k != i ==> #[trigger] ordered_at(h, k)
}

/// Every item at or below `i` has a key of at least `b`.
pub open spec fn bounded_in<T: Weighted>(h: Seq<T>, i: int, b: int) -> bool {
    forall|k: int| 0 <= k < h.len() && #[trigger] in_subtree(i, k) ==> h[k].key() >= b
}

/// The two arrays have the same items at the positions that are not at or below `i`.
pub open spec fn same_outside<T>(h: Seq<T>, r: Seq<T>, i: int) -> bool {
    forall|k: int| 0 <= k < h.len() && !in_subtree(i, k) ==> #[trigger] r[k] == h[k]
}

/// What lies at or below a position just below `i` lies below `i`, and not above where
/// it starts.
pub proof fn lemma_subtree_child(i: int, c: int, k: int)
    requires
        0 <= i,
        c == 2 * i + 1 || c == 2 * i + 2,
        in_subtree(c, k),
    ensures
        in_subtree(i, k),
        k >= c,
        k != i,
    decreases k,
{
    if k > c {
        lemma_subtree_child(i, c, (k - 1) / 2);
    } else {
        assert(k == c);
        assert(in_subtree(i, (k - 1) / 2));
    }
}

/// What lies below `i` lies at or below one of the two positions just below `i`.
pub proof fn lemma_subtree_split(i: int, k: int)
    requires
        0 <= i,
        in_subtree(i, k),
        k != i,
    ensures
        in_subtree(2 * i + 1, k) || in_subtree(2 * i + 2, k),
        k > i,
    decreases k,
{
    let p = (k - 1) / 2;
    if p != i {
        lemma_subtree_split(i, p);
        if in_subtree(2 * i + 1, p) {
            lemma_subtree_child(i, 2 * i + 1, p);
        } else {
            lemma_subtree_child(i, 2 * i + 2, p);
        }
    }
}

/// Nothing lies at or below both of the positions just below `i`.
pub proof fn lemma_subtree_apart(i: int, k: int)
    requires
        0 <= i,
    ensures
        !(in_subtree(2 * i + 1, k) && in_subtree(2 * i + 2, k)),
    decreases k,
{
    if k > 2 * i + 2 {
        lemma_subtree_apart(i, (k - 1) / 2);
    } else if k == 2 * i + 2 {
        assert((k - 1) / 2 == i);
        assert(!in_subtree(2 * i + 1, i));
    }
}

/// Every position lies at or below the first.
pub proof fn lemma_subtree_all(k: int)
    requires
        0 <= k,
    ensures
        in_subtree(0, k),
    decreases k,
{
    if k > 0 {
        lemma_subtree_all((k - 1) / 2);
    }
}

/// The positions just below a position at or below `i` lie below `i`.
pub proof fn lemma_subtree_down(i: int, k: int)
    requires
        0 <= i,
        in_subtree(i, k),
    ensures
        in_subtree(i, 2 * k + 1),
        in_subtree(i, 2 * k + 2),
        k >= i,
{
    if k != i {
        lemma_subtree_split(i, k);
    }
    assert((2 * k + 1 - 1) / 2 == k);
    assert((2 * k + 2 - 1) / 2 == k);
}

/// Where the items at and below `i` are in order, none of them has a smaller key than
/// the item at `i`.
pub proof fn lemma_subtree_min<T: Weighted>(h: Seq<T>, i: int, k: int)
    requires
        0 <= i,
        0 <= k < h.len(),
        in_subtree(i, k),
        ordered_in(h, i),
    ensures
        h[i].key() <= h[k].key(),
    decreases k,
{
    if k != i {
        lemma_subtree_split(i, k);
        let p = (k - 1) / 2;
        lemma_subtree_min(h, i, p);
        assert(ordered_at(h, p));
        assert(k == 2 * p + 1 || k == 2 * p + 2);
    }
}

/// Sinking the item at `i` puts the items at and below `i` in order if those below `i`
/// were in order. It exchanges items at and below `i` only.
pub proof fn lemma_sunk<T: Weighted>(h: Seq<T>, i: int)
    requires
        0 <= i < h.len(),
        ordered_under(h, i),
    ensures
        sunk(h, i).len() == h.len(),
        sunk(h, i).to_multiset() == h.to_multiset(),
        same_outside(h, sunk(h, i), i),
        ordered_in(sunk(h, i), i),
        forall|b: int| #[trigger] bounded_in(h, i, b) ==> bounded_in(sunk(h, i), i, b),
    decreases h.len() - i,
{
    let n = h.len() as int;
    let l = 2 * i + 1;
    let r = 2 * i + 2;
    let out = sunk(h, i);
    assert(in_subtree(i, i));
    if l < n {
        assert(in_subtree(l, l) && in_subtree(r, r));
        lemma_subtree_child(i, l, l);
        // the left side
        let first = if h[l].key() < h[i].key() {
            sunk_in(swapped(h, l, i), n, l)
        } else {
            h
        };
        if h[l].key() < h[i].key() {
            let turned = swapped(h, l, i);
            lemma_swap_multiset(h, l, i);
            assert(turned =~= h.update(l, h[i]).update(i, h[l]));
            assert(ordered_under(turned, l)) by {
                assert forall|k: int| 0 <= k < turned.len() && in_subtree(l, k) && k != l implies
                    #[trigger] ordered_at(turned, k) by {
                    lemma_subtree_child(i, l, k);
                    assert(ordered_at(h, k));
                }
            }
            lemma_sunk(turned, l);
            assert(first == sunk(turned, l));
            // no item at or below the left position is smaller than the one that was there
            assert(bounded_in(turned, l, h[l].key() as int)) by {
                assert(ordered_in(h, l)) by {
                    assert forall|k: int| 0 <= k < h.len() && in_subtree(l, k) implies
                        #[trigger] ordered_at(h, k) by {
                        lemma_subtree_child(i, l, k);
                    }
                }
                assert forall|k: int| 0 <= k < turned.len() && #[trigger] in_subtree(l, k) implies
                    turned[k].key() >= h[l].key() by {
                    lemma_subtree_child(i, l, k);
                    if k != l {
                        lemma_subtree_min(h, l, k);
                    }
                }
            }
            assert(bounded_in(first, l, h[l].key() as int));
            assert(first[i] == turned[i]) by {
                if in_subtree(l, i) {
                    lemma_subtree_child(i, l, i);
                }
            }
        }
        assert(first.len() == n);
        assert(first.to_multiset() == h.to_multiset());
        assert(first[l].key() >= first[i].key());
        assert(ordered_in(first, l)) by {
            if !(h[l].key() < h[i].key()) {
                assert forall|k: int| 0 <= k < h.len() && in_subtree(l, k) implies
                    #[trigger] ordered_at(h, k) by {
                    lemma_subtree_child(i, l, k);
                }
            }
        }
        // what is at or below the right position has not changed
        assert forall|k: int| 0 <= k < n && in_subtree(r, k) implies #[trigger] first[k] == h[k] by {
            lemma_subtree_child(i, r, k);
            lemma_subtree_apart(i, k);
        }
        assert(same_outside(h, first, i)) by {
            assert forall|k: int| 0 <= k < h.len() && !in_subtree(i, k) implies
                #[trigger] first[k] == h[k] by {
                if in_subtree(l, k) {
                    lemma_subtree_child(i, l, k);
                }
            }
        }
        assert forall|b: int| #[trigger] bounded_in(h, i, b) implies bounded_in(first, i, b) by {
            if h[l].key() < h[i].key() {
                let turned = swapped(h, l, i);
                assert(bounded_in(turned, l, b)) by {
                    assert forall|k: int| 0 <= k < turned.len() && #[trigger] in_subtree(l, k)
                        implies turned[k].key() >= b by {
                        lemma_subtree_child(i, l, k);
                        assert(in_subtree(i, k));
                    }
                }
                assert(bounded_in(first, l, b));
                assert forall|k: int| 0 <= k < first.len() && #[trigger] in_subtree(i, k) implies
                    first[k].key() >= b by {
                    if k == i {
                        assert(in_subtree(i, l));
                    } else {
                        lemma_subtree_split(i, k);
                        if in_subtree(l, k) {
                        } else {
                            assert(first[k] == h[k]);
                        }
                    }
                }
            }
        }
        if r < n && first[r].key() < first[i].key() {
            lemma_subtree_child(i, r, r);
            let turned = swapped(first, r, i);
            lemma_swap_multiset(first, r, i);
            assert(turned =~= first.update(r, first[i]).update(i, first[r]));
            assert(ordered_in(first, r)) by {
                assert forall|k: int| 0 <= k < first.len() && in_subtree(r, k) implies
                    #[trigger] ordered_at(first, k) by {
                    lemma_subtree_child(i, r, k);
                    lemma_subtree_down(r, k);
                    assert(ordered_at(h, k));
                    assert(first[k] == h[k]);
                    if 2 * k + 1 < n {
                        assert(first[2 * k + 1] == h[2 * k + 1]);
                    }
                    if 2 * k + 2 < n {
                        assert(first[2 * k + 2] == h[2 * k + 2]);
                    }
                }
            }
            assert(ordered_under(turned, r)) by {
                assert forall|k: int| 0 <= k < turned.len() && in_subtree(r, k) && k != r implies
                    #[trigger] ordered_at(turned, k) by {
                    lemma_subtree_child(i, r, k);
                    assert(ordered_at(first, k));
                }
            }
            lemma_sunk(turned, r);
            assert(out == sunk(turned, r));
            assert(bounded_in(turned, r, first[r].key() as int)) by {
                assert forall|k: int| 0 <= k < turned.len() && #[trigger] in_subtree(r, k) implies
                    turned[k].key() >= first[r].key() by {
                    lemma_subtree_child(i, r, k);
                    if k != r {
                        lemma_subtree_min(first, r, k);
                    }
                }
            }
            assert(bounded_in(out, r, first[r].key() as int));
            assert(out[i] == turned[i]) by {
                if in_subtree(r, i) {
                    lemma_subtree_child(i, r, i);
                }
            }
            assert forall|k: int| 0 <= k < n && in_subtree(l, k) implies #[trigger] out[k] == first[k]
                by {
                lemma_subtree_child(i, l, k);
                lemma_subtree_apart(i, k);
            }
            assert(ordered_in(out, i)) by {
                assert forall|k: int| 0 <= k < out.len() && in_subtree(i, k) implies
                    #[trigger] ordered_at(out, k) by {
                    if k == i {
                        assert(in_subtree(r, r));
                        assert(out[l] == first[l]);
                    } else {
                        lemma_subtree_split(i, k);
                        if in_subtree(l, k) {
                            lemma_subtree_down(l, k);
                            assert(ordered_at(first, k));
                            if 2 * k + 1 < n {
                                assert(out[2 * k + 1] == first[2 * k + 1]);
                            }
                            if 2 * k + 2 < n {
                                assert(out[2 * k + 2] == first[2 * k + 2]);
                            }
                        }
                    }
                }
            }
            assert(same_outside(h, out, i)) by {
                assert forall|k: int| 0 <= k < h.len() && !in_subtree(i, k) implies
                    #[trigger] out[k] == h[k] by {
                    if in_subtree(r, k) {
                        lemma_subtree_child(i, r, k);
                    }
                    assert(out[k] == turned[k]);
                    assert(first[k] == h[k]);
                }
            }
            assert forall|b: int| #[trigger] bounded_in(h, i, b) implies bounded_in(out, i, b) by {
                assert(bounded_in(first, i, b));
                assert(bounded_in(turned, r, b)) by {
                    assert forall|k: int| 0 <= k < turned.len() && #[trigger] in_subtree(r, k)
                        implies turned[k].key() >= b by {
                        lemma_subtree_child(i, r, k);
                        assert(in_subtree(i, k));
                    }
                }
                assert(bounded_in(out, r, b));
                assert forall|k: int| 0 <= k < out.len() && #[trigger] in_subtree(i, k) implies
                    out[k].key() >= b by {
                    if k == i {
                        assert(in_subtree(i, r));
                    } else {
                        lemma_subtree_split(i, k);
                        if in_subtree(r, k) {
                        } else {
                            assert(out[k] == first[k]);
                        }
                    }
                }
            }
        } else {
            assert(out == first);
            assert(ordered_in(first, i)) by {
                assert forall|k: int| 0 <= k < first.len() && in_subtree(i, k) implies
                    #[trigger] ordered_at(first, k) by {
                    if k != i {
                        lemma_subtree_split(i, k);
                        if in_subtree(r, k) {
                            lemma_subtree_child(i, r, k);
                            lemma_subtree_down(r, k);
                            assert(ordered_at(h, k));
                            assert(first[k] == h[k]);
                            if 2 * k + 1 < n {
                                assert(first[2 * k + 1] == h[2 * k + 1]);
                            }
                            if 2 * k + 2 < n {
                                assert(first[2 * k + 2] == h[2 * k + 2]);
                            }
                        }
                    }
                }
            }
        }
    } else {
        assert(out == h);
        assert forall|k: int| 0 <= k < h.len() && in_subtree(i, k) implies #[trigger] ordered_at(h, k)
            by {
            if k != i {
                lemma_subtree_split(i, k);
                if in_subtree(l, k) {
                    lemma_subtree_child(i, l, k);
                } else {
                    lemma_subtree_child(i, r, k);
                }
            }
        }
    }
}

/// The first item of a heap has the smallest key.
pub proof fn lemma_heap_min<T: Weighted>(h: Seq<T>, i: int)
    requires
        is_heap(h),
        0 <= i < h.len(),
    ensures
        h[0].key() <= h[i].key(),
    decreases i,
{
    if i > 0 {
        let p = (i - 1) / 2;
        lemma_heap_min(h, p);
        assert(ordered_at(h, p));
        assert(i == 2 * p + 1 || i == 2 * p + 2);
    }
}

/// Putting an item with a greater key in the place of an item of a heap and letting it
/// sink gives a heap.
pub proof fn lemma_heap_after_sinking<T: Weighted>(h: Seq<T>, item: T, i: int)
    requires
        is_heap(h),
        0 <= i < h.len(),
        item.key() >= h[i].key(),
    ensures
        is_heap(sunk(h.update(i, item), i)),
        sunk(h.update(i, item), i).to_multiset() == h.update(i, item).to_multiset(),
        sunk(h.update(i, item), i).len() == h.len(),
{
    let s = h.update(i, item);
    let out = sunk(s, i);
    assert(ordered_under(s, i)) by {
        assert forall|k: int| 0 <= k < s.len() && in_subtree(i, k) && k != i implies
            #[trigger] ordered_at(s, k) by {
            lemma_subtree_split(i, k);
            assert(ordered_at(h, k));
        }
    }
    lemma_sunk(s, i);
    assert(ordered_in(h, i)) by {
        assert forall|k: int| 0 <= k < h.len() && in_subtree(i, k) implies #[trigger] ordered_at(h, k)
            by {}
    }
    assert(bounded_in(s, i, h[i].key() as int)) by {
        assert forall|k: int| 0 <= k < s.len() && #[trigger] in_subtree(i, k) implies s[k].key()
            >= h[i].key() by {
            lemma_subtree_min(h, i, k);
        }
    }
    assert(bounded_in(out, i, h[i].key() as int));
    assert(in_subtree(i, i));
    assert forall|k: int| 0 <= k < out.len() implies #[trigger] ordered_at(out, k) by {
        if !in_subtree(i, k) {
            assert(ordered_at(h, k));
            assert(out[k] == s[k]);
            // an item just below `k` has not changed unless it is the item at `i`
            if 2 * k + 1 < out.len() {
                if in_subtree(i, 2 * k + 1) {
                    assert(in_subtree(i, (2 * k + 1 - 1) / 2) || 2 * k + 1 == i);
                } else {
                    assert(out[2 * k + 1] == s[2 * k + 1]);
                }
            }
            if 2 * k + 2 < out.len() {
                if in_subtree(i, 2 * k + 2) {
                    assert(in_subtree(i, (2 * k + 2 - 1) / 2) || 2 * k + 2 == i);
                } else {
                    assert(out[2 * k + 2] == s[2 * k + 2]);
                }
            }
        }
    }
}

/// Exchanging two items keeps the collection of items.
pub proof fn lemma_swap_multiset<T>(s: Seq<T>, i: int, j: int)
    requires
        0 <= i < s.len(),
        0 <= j < s.len(),
    ensures
        s.update(i, s[j]).update(j, s[i]).to_multiset() == s.to_multiset(),
{
    broadcast use vstd::seq_lib::to_multiset_update;
    let t = s.update(i, s[j]);
    assert(t.to_multiset() == s.to_multiset().insert(s[j]).remove(s[i]));
    assert(t.update(j, s[i]).to_multiset() == t.to_multiset().insert(s[i]).remove(t[j]));
    assert(s.to_multiset().count(s[j]) > 0) by {
        broadcast use vstd::seq_lib::to_multiset_contains;
        assert(s.contains(s[j]));
    }
    assert(s.to_multiset().count(s[i]) > 0) by {
        broadcast use vstd::seq_lib::to_multiset_contains;
        assert(s.contains(s[i]));
    }
    assert(s.update(i, s[j]).update(j, s[i]).to_multiset() =~= s.to_multiset());
}

/// A priority queue that hands out an item with the smallest key first.
///
/// The view is the heap array; as a collection the queue is the multiset of its entries.
pub struct MinPQ<T> {
    h: Vec<T>,
}

impl<T: Weighted> View for MinPQ<T> {
    type V = Seq<T>;

    closed spec fn view(&self) -> Seq<T> {
        self.h@
    }
}

impl<T: Weighted> MinPQ<T> {
    /// The representation invariant: the array is a heap.
    pub closed spec fn wf(&self) -> bool {
        is_heap(self.h@)
    }

    /// The items held, with their multiplicities.
    pub open spec fn items(&self) -> Multiset<T> {
        self@.to_multiset()
    }

    /// An empty queue with room for `capacity` items.
    pub fn new(capacity: usize) -> (q: MinPQ<T>)
        ensures
            q.wf(),
            q@.len() == 0,
    {
        MinPQ { h: Vec::with_capacity(capacity) }
    }

    /// Number of items.
    pub fn len(&self) -> (r: usize)
        ensures
            r == self@.len(),
    {
        self.h.len()
    }

    /// Whether the queue holds no item.
    pub fn is_empty(&self) -> (r: bool)
        ensures
            r == (self@.len() == 0),
    {
        self.h.len() == 0
    }

    /// The heap array; its first entry has the smallest key.
    pub fn as_slice(&self) -> (r: &[T])
        requires
            self.wf(),
        ensures
            r@ == self@,
            is_heap(r@),
            forall|i: int| 0 <= i < r@.len() ==> r@[0].key() <= (#[trigger] r@[i]).key(),
    {
        proof {
            assert forall|i: int| 0 <= i < self.h@.len() implies self.h@[0].key()
                <= (#[trigger] self.h@[i]).key() by {
                lemma_heap_min(self.h@, i);
            }
        }
        self.h.as_slice()
    }

    /// Adds `item`.
    pub fn insert(&mut self, item: T)
        requires
            old(self).wf(),
        ensures
            final(self).wf(),
            final(self)@ == swum(old(self)@.push(item), old(self)@.len() as int),
            final(self).items() == old(self).items().insert(item),
            final(self)@.len() == old(self)@.len() + 1,
    {
        proof {
            broadcast use vstd::seq_lib::to_multiset_build;
        }
        self.h.push(item);
        let i = self.h.len() - 1;
        proof {
            let s = self.h@;
            assert forall|k: int| 0 <= k < s.len() implies #[trigger] ordered_but(s, k, i as int)
                by {
                if k < i {
                    assert(ordered_at(old(self).h@, k));
                }
            }
        }
        swim(&mut self.h, i);
    }

    /// Removes an item with the smallest key and returns it; `None` when the queue is
    /// empty.
    pub fn delete_min(&mut self) -> (r: Option<T>)
        requires
            old(self).wf(),
        ensures
            final(self).wf(),
            old(self)@.len() == 0 ==> r.is_none() && final(self)@ == old(self)@,
            old(self)@.len() > 0 ==> r.is_some() && old(self).items() == final(self).items().insert(
                r.unwrap(),
            ) && final(self)@.len() == old(self)@.len() - 1 && r.unwrap() == old(self)@[0],
            old(self)@.len() > 0 ==> final(self)@ == sunk(
                swapped(old(self)@, 0, old(self)@.len() - 1).drop_last(),
                0,
            ),
            old(self)@.len() > 0 ==> forall|x: T|
                old(self).items().count(x) > 0 ==> r.unwrap().key() <= #[trigger] x.key(),
    {
        let n = self.h.len();
        if n == 0 {
            return None;
        }
        let ghost before = self.h@;
        let first = self.h[0];
        let last = self.h[n - 1];
        self.h[0] = last;
        self.h[n - 1] = first;
        let min = self.h.pop();
        proof {
            broadcast use vstd::seq_lib::to_multiset_build;
            let exchanged = swapped(before, 0, n - 1);
            lemma_swap_multiset(before, 0, n - 1);
            assert(exchanged =~= self.h@.push(first));
            assert(self.h@ =~= exchanged.drop_last());
            assert(before.to_multiset() == self.h@.to_multiset().insert(first));
            assert forall|x: T| before.to_multiset().count(x) > 0 implies first.key()
                <= #[trigger] x.key() by {
                broadcast use vstd::seq_lib::to_multiset_contains;
                assert(before.contains(x));
                let i = choose|i: int| 0 <= i < before.len() && before[i] == x;
                lemma_heap_min(before, i);
            }
            assert forall|k: int| 0 <= k < self.h@.len() && k != 0 implies #[trigger] ordered_at(
                self.h@,
                k,
            ) by {
                assert(ordered_at(before, k));
            }
        }
        let ghost cut = self.h@;
        sink(&mut self.h, 0);
        proof {
            if cut.len() > 0 {
                lemma_sunk(cut, 0);
                assert forall|k: int| 0 <= k < self.h@.len() implies #[trigger] ordered_at(self.h@, k)
                    by {
                    lemma_subtree_all(k);
                }
            }
        }
        min
    }
}

impl<T: Slotted> MinPQ<T> {
    /// Puts `item` in the place of the first entry with the same slot and restores the
    /// order. Returns `false`, leaving the queue as it was, when there is no such entry.
    pub fn update(&mut self, item: T) -> (r: bool)
        requires
            old(self).wf(),
        ensures
            final(self).wf(),
            r == exists|i: int| 0 <= i < old(self)@.len() && (#[trigger] old(self)@[i]).slot()
                == item.slot(),
            !r ==> final(self)@ == old(self)@,
            r ==> exists|i: int|
                0 <= i < old(self)@.len() && (#[trigger] old(self)@[i]).slot() == item.slot()
                    && final(self).items() == old(self).items().remove(old(self)@[i]).insert(item)
                    && final(self)@ == (if item.key() <= old(self)@[i].key() {
                    swum(old(self)@.update(i, item), i)
                } else {
                    sunk(old(self)@.update(i, item), i)
                }) && forall|k: int| 0 <= k < i ==> (#[trigger] old(self)@[k]).slot()
                    != item.slot(),
            final(self)@.len() == old(self)@.len(),
    {
        let n = self.h.len();
        let want = item.place();
        let mut i: usize = 0;
        while i < n
            invariant
                n == self.h@.len(),
                self.h@ == old(self).h@,
                is_heap(self.h@),
                i <= n,
                want == item.slot(),
                forall|k: int| 0 <= k < i ==> (#[trigger] self.h@[k]).slot() != want,
            decreases n - i,
        {
            if self.h[i].place() == want {
                let ghost before = self.h@;
                let old_key = self.h[i].priority();
                self.h[i] = item;
                proof {
                    broadcast use vstd::seq_lib::to_multiset_update;
                    assert(self.h@ == before.update(i as int, item));
                    assert(self.h@.to_multiset() =~= before.to_multiset().remove(
                        before[i as int],
                    ).insert(
                        item,
                    )) by {
                        broadcast use vstd::seq_lib::to_multiset_contains;
                        assert(before.contains(before[i as int]));
                    }
                }
                proof {
                    assert(ordered_at(before, i as int));
                    if i > 0 {
                        let p = (i as int - 1) / 2;
                        assert(ordered_at(before, p));
                        assert(i == 2 * p + 1 || i == 2 * p + 2);
                    }
                }
                if item.priority() <= old_key {
                    proof {
                        let s = self.h@;
                        assert forall|k: int| 0 <= k < s.len() implies #[trigger] ordered_but(
                            s,
                            k,
                            i as int,
                        ) by {
                            assert(ordered_at(before, k));
                        }
                    }
                    swim(&mut self.h, i);
                } else {
                    sink(&mut self.h, i);
                    proof {
                        lemma_heap_after_sinking(before, item, i as int);
                    }
                }
                proof {
                    assert(old(self)@[i as int].slot() == item.slot());
                }
                return true;
            }
            i += 1;
        }
        false
    }
}

/// Moves the item at `k` up until the item above it has no greater key.
fn swim<T: Weighted>(h: &mut Vec<T>, k: usize)
    requires
        k < old(h)@.len(),
        heap_but(old(h)@, k as int),
        bridged(old(h)@, k as int),
    ensures
        is_heap(final(h)@),
        final(h)@ == swum(old(h)@, k as int),
        final(h)@.to_multiset() == old(h)@.to_multiset(),
        final(h)@.len() == old(h)@.len(),
{
    let ghost start = k;
    let mut k = k;
    while k > 0 && h[(k - 1) / 2].priority() > h[k].priority()
        invariant
            k < h@.len(),
            swum(h@, k as int) == swum(old(h)@, start as int),
            heap_but(h@, k as int),
            bridged(h@, k as int),
            h@.to_multiset() == old(h)@.to_multiset(),
            h@.len() == old(h)@.len(),
        decreases k,
    {
        let p = (k - 1) / 2;
        let ghost before = h@;
        let up = h[k];
        let down = h[p];
        h[p] = up;
        h[k] = down;
        proof {
            lemma_swap_multiset(before, p as int, k as int);
            assert(h@ =~= before.update(p as int, before[k as int]).update(k as int,
                before[p as int]));
            let s = h@;
            assert(k == 2 * p + 1 || k == 2 * p + 2);
            assert(ordered_but(before, p as int, k as int));
            assert(ordered_but(before, k as int, k as int));
            assert forall|m: int| 0 <= m < s.len() implies #[trigger] ordered_but(s, m, p as int)
                by {
                assert(ordered_but(before, m, k as int));
            }
            if p > 0 {
                let pp = (p as int - 1) / 2;
                assert(ordered_but(before, pp, k as int));
                assert(p == 2 * pp + 1 || p == 2 * pp + 2);
            }
        }
        k = p;
    }
    proof {
        let s = h@;
        assert forall|m: int| 0 <= m < s.len() implies #[trigger] ordered_at(s, m) by {
            assert(ordered_but(s, m, k as int));
            if k > 0 {
                let p = (k as int - 1) / 2;
                assert(k == 2 * p + 1 || k == 2 * p + 2);
            }
        }
    }
}

/// Lets the item at `i` sink: first past the item just below it on the left, then past
/// the item just below it on the right, each time if that item has the smaller key.
fn sink<T: Weighted>(h: &mut Vec<T>, i: usize)
    ensures
        final(h)@ == sunk(old(h)@, i as int),
        final(h)@.len() == old(h)@.len(),
    decreases old(h)@.len() - i,
{
    let n = h.len();
    if i >= n / 2 {
        return ;
    }
    let l = 2 * i + 1;
    if h[l].priority() < h[i].priority() {
        let up = h[l];
        let down = h[i];
        h[i] = up;
        h[l] = down;
        proof {
            assert(h@ =~= swapped(old(h)@, l as int, i as int));
        }
        sink(h, l);
    }
    let r = l + 1;
    if r >= n {
        return ;
    }
    if h[r].priority() < h[i].priority() {
        let ghost first = h@;
        let up = h[r];
        let down = h[i];
        h[i] = up;
        h[r] = down;
        proof {
            assert(h@ =~= swapped(first, r as int, i as int));
        }
        sink(h, r);
    }
}

} // verus!
