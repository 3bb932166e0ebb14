//! A symbol table on two ordered arrays, searched by halving.

use vstd::prelude::*;
use crate::search::{
    ascending, below, lemma_ascending_distinct, lemma_below, lemma_place, lemma_table_insert,
    lemma_table_remove, lemma_table_update, lookup, table,
};

verus! {

/// A symbol table that keeps its keys in ascending order.
pub struct BinarySearchST {
    keys: Vec<i32>,
    values: Vec<i32>,
    len: usize,
}

impl View for BinarySearchST {
    type V = Map<i32, i32>;

    closed spec fn view(&self) -> Map<i32, i32> {
        table(self.keys_view(), self.values@.take(self.len as int))
    }
}

impl BinarySearchST {
    /// The keys in ascending order.
    pub closed spec fn keys_view(&self) -> Seq<i32> {
        self.keys@.take(self.len as int)
    }

    /// The representation invariant: the keys held are in ascending order, and the table
    /// pairs them with their values.
    pub closed spec fn wf(&self) -> bool {
        &&& self.len <= self.keys@.len()
        &&& self.keys@.len() == self.values@.len()
        &&& ascending(self.keys_view())
    }

    /// The keys are in ascending order, and they are the keys of the table.
    pub proof fn lemma_keys(&self)
        requires
            self.wf(),
        ensures
            ascending(self.keys_view()),
            forall|k: i32| self@.contains_key(k) == self.keys_view().contains(k),
    {
    }

    /// An empty table.
    pub fn new() -> (t: BinarySearchST)
        ensures
            t.wf(),
            t@ == Map::<i32, i32>::empty(),
            t.keys_view().len() == 0,
    {
        let t = BinarySearchST { keys: Vec::new(), values: Vec::new(), len: 0 };
        proof {
            assert(t@ =~= Map::<i32, i32>::empty());
        }
        t
    }

    /// Number of keys.
    pub fn len(&self) -> (r: usize)
        requires
            self.wf(),
        ensures
            r == self.keys_view().len(),
    {
        self.len
    }

    /// The value of `key`, if it has one.
    pub fn get(&self, key: i32) -> (r: Option<i32>)
        requires
            self.wf(),
        ensures
            r == lookup(self@, key),
    {
        if self.len == 0 {
            return None;
        }
        let i = self.rank(key);
        if !self.contains_key(i, key) {
            return None;
        }
        proof {
            lemma_ascending_distinct(self.keys_view());
            lemma_place(self.keys_view(), i as int);
        }
        Some(self.values[i])
    }

    /// Gives `key` the value `value`.
    pub fn put(&mut self, key: i32, value: i32)
        requires
            old(self).wf(),
        ensures
            final(self).wf(),
            final(self)@ == old(self)@.insert(key, value),
            final(self).keys_view() == if old(self).keys_view().contains(key) {
                old(self).keys_view()
            } else {
                old(self).keys_view().insert(below(old(self).keys_view(), key) as int, key)
            },
    {
        let i = self.rank(key);
        let ghost keys0 = self.keys_view();
        let ghost values0 = self.values@.take(self.len as int);
        proof {
            lemma_ascending_distinct(keys0);
        }
        if self.contains_key(i, key) {
            self.values[i] = value;
            proof {
                lemma_table_update(keys0, values0, i as int, value);
                assert(self.values@.take(self.len as int) =~= values0.update(i as int, value));
                assert(self.keys_view() =~= keys0);
            }
            return ;
        }
        self.resize();
        let n = self.len;
        let mut k = n;
        while k > i
            invariant
                i <= k <= n,
                n == self.len,
                n < self.keys@.len(),
                self.keys@.len() == self.values@.len(),
                keys0.len() == n,
                values0.len() == n,
                forall|p: int| 0 <= p < k ==> self.keys@[p] == keys0[p] && self.values@[p]
                    == values0[p],
                forall|p: int| k < p <= n ==> self.keys@[p] == keys0[p - 1] && self.values@[p]
                    == values0[p - 1],
            decreases k,
        {
            self.keys[k] = self.keys[k - 1];
            self.values[k] = self.values[k - 1];
            k -= 1;
        }
        assert(self.len < self.keys.len());
        self.keys[i] = key;
        self.values[i] = value;
        self.len += 1;
        proof {
            assert(!keys0.contains(key)) by {
                if keys0.contains(key) {
                    let p = choose|p: int| 0 <= p < keys0.len() && keys0[p] == key;
                }
            }
            lemma_table_insert(keys0, values0, i as int, key, value);
            assert(self.keys_view() =~= keys0.insert(i as int, key));
            assert(self.values@.take(self.len as int) =~= values0.insert(i as int, value));
            let keys2 = self.keys_view();
            assert forall|p: int, q: int| 0 <= p < q < keys2.len() implies keys2[p] < keys2[q] by {
                let p0 = if p < i { p } else { p - 1 };
                let q0 = if q < i { q } else { q - 1 };
                if p != i && q != i {
                    assert(keys0[p0] < keys0[q0]);
                }
            }
        }
    }

    /// Takes `key` and its value out of the table.
    pub fn delete(&mut self, key: i32)
        requires
            old(self).wf(),
        ensures
            final(self).wf(),
            final(self)@ == old(self)@.remove(key),
            final(self).keys_view() == if old(self).keys_view().contains(key) {
                old(self).keys_view().remove(below(old(self).keys_view(), key) as int)
            } else {
                old(self).keys_view()
            },
    {
        let i = self.rank(key);
        let ghost keys0 = self.keys_view();
        let ghost values0 = self.values@.take(self.len as int);
        proof {
            lemma_ascending_distinct(keys0);
        }
        if !self.contains_key(i, key) {
            proof {
                assert(!keys0.contains(key)) by {
                    if keys0.contains(key) {
                        let p = choose|p: int| 0 <= p < keys0.len() && keys0[p] == key;
                    }
                }
                assert(self@ =~= self@.remove(key));
            }
            return ;
        }
        let n = self.len;
        let mut k = i + 1;
        while k < n
            invariant
                i < k <= n,
                n == self.len,
                n <= self.keys@.len(),
                self.keys@.len() == self.values@.len(),
                keys0.len() == n,
                values0.len() == n,
                forall|p: int| 0 <= p < i ==> self.keys@[p] == keys0[p] && self.values@[p]
                    == values0[p],
                forall|p: int| i <= p < k - 1 ==> self.keys@[p] == keys0[p + 1] && self.values@[p]
                    == values0[p + 1],
                forall|p: int| k <= p < n ==> self.keys@[p] == keys0[p] && self.values@[p]
                    == values0[p],
            decreases n - k,
        {
            self.keys[k - 1] = self.keys[k];
            self.values[k - 1] = self.values[k];
            k += 1;
        }
        self.len -= 1;
        proof {
            lemma_table_remove(keys0, values0, i as int);
            assert(self.keys_view() =~= keys0.remove(i as int));
            assert(self.values@.take(self.len as int) =~= values0.remove(i as int));
            let keys2 = self.keys_view();
            assert forall|p: int, q: int| 0 <= p < q < keys2.len() implies keys2[p] < keys2[q] by {
                let p0 = if p < i { p } else { p + 1 };
                let q0 = if q < i { q } else { q + 1 };
                assert(keys0[p0] < keys0[q0]);
            }
        }
    }

    /// Whether `key` is the key at place `i`.
    fn contains_key(&self, i: usize, key: i32) -> (r: bool)
        requires
            self.wf(),
        ensures
            r == (i < self.keys_view().len() && self.keys_view()[i as int] == key),
    {
        i < self.len && key == self.keys[i]
    }

    /// Makes room for one more key if there is none.
    fn resize(&mut self)
        requires
            old(self).wf(),
        ensures
            final(self).wf(),
            final(self).len == old(self).len,
            final(self).len < final(self).keys@.len(),
            final(self).keys@.len() == final(self).values@.len(),
            final(self).keys@.take(final(self).len as int) == old(self).keys@.take(
                old(self).len as int,
            ),
            final(self).values@.take(final(self).len as int) == old(self).values@.take(
                old(self).len as int,
            ),
    {
        if self.len < self.keys.len() {
            return ;
        }
        self.keys.push(0);
        self.values.push(0);
        proof {
            assert(self.keys@.take(self.len as int) =~= old(self).keys@.take(old(self).len as int));
            assert(self.values@.take(self.len as int) =~= old(self).values@.take(
                old(self).len as int,
            ));
        }
    }

    /// The number of keys less than `key`: the place of `key` if it is in the table, and
    /// the place where it belongs if it is not.
    pub fn rank(&self, key: i32) -> (r: usize)
        requires
            self.wf(),
        ensures
            r == below(self.keys_view(), key),
            r <= self.keys_view().len(),
            forall|k: int| 0 <= k < r ==> self.keys_view()[k] < key,
            forall|k: int| r <= k < self.keys_view().len() ==> self.keys_view()[k] >= key,
    {
        let ghost keys = self.keys_view();
        let mut lo: usize = 0;
        let mut hi: usize = self.len;
        while lo < hi
            invariant
                self.wf(),
                keys == self.keys_view(),
                lo <= hi <= self.len,
                forall|k: int| 0 <= k < lo ==> keys[k] < key,
                forall|k: int| hi <= k < keys.len() ==> keys[k] > key,
            decreases hi - lo,
        {
            let mid = lo + (hi - 1 - lo) / 2;
            assert(keys[mid as int] == self.keys@[mid as int]);
            if self.keys[mid] == key {
                proof {
                    assert forall|k: int| 0 <= k < mid implies keys[k] < key by {
                        assert(keys[k] < keys[mid as int]);
                    }
                    assert forall|k: int| mid <= k < keys.len() implies keys[k] >= key by {
                        if k > mid {
                            assert(keys[mid as int] < keys[k]);
                        }
                    }
                    lemma_below(keys, key, mid as int);
                }
                return mid;
            }
            if self.keys[mid] < key {
                proof {
                    assert forall|k: int| 0 <= k < mid + 1 implies keys[k] < key by {
                        if k < mid {
                            assert(keys[k] < keys[mid as int]);
                        }
                    }
                }
                lo = mid + 1;
            } else {
                proof {
                    assert forall|k: int| mid <= k < keys.len() implies keys[k] > key by {
                        if k > mid {
                            assert(keys[mid as int] < keys[k]);
                        }
                    }
                }
                hi = mid;
            }
        }
        proof {
            lemma_below(keys, key, lo as int);
        }
        lo
    }
}

} // verus!
