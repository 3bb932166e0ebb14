//! A symbol table on an unordered list, searched from its head.

use vstd::prelude::*;
use crate::search::{lemma_place, lemma_table_insert, lemma_table_remove, lemma_table_update, lookup, table};

verus! {

/// A symbol table that keeps its pairs in a list; a new key goes to the head of the list.
///
/// The list is held in two arrays, the head last.
pub struct SequentialSearchST {
    keys: Vec<i32>,
    values: Vec<i32>,
}

impl View for SequentialSearchST {
    type V = Map<i32, i32>;

    closed spec fn view(&self) -> Map<i32, i32> {
        table(self.keys@, self.values@)
    }
}

impl SequentialSearchST {
    /// The keys of the list, the head first.
    pub closed spec fn keys_view(&self) -> Seq<i32> {
        self.keys@.reverse()
    }

    /// The representation invariant: no key is listed twice.
    pub closed spec fn wf(&self) -> bool {
        &&& self.keys@.len() == self.values@.len()
        &&& self.keys@.no_duplicates()
    }

    /// The keys of the list are the keys of the table, each listed once.
    pub proof fn lemma_keys(&self)
        requires
            self.wf(),
        ensures
            self.keys_view().no_duplicates(),
            forall|k: i32| self@.contains_key(k) == self.keys_view().contains(k),
    {
        let r = self.keys@.reverse();
        assert forall|i: int, j: int| 0 <= i < r.len() && 0 <= j < r.len() && i != j implies r[i]
            != r[j] by {}
        assert forall|k: i32| self.keys@.contains(k) == r.contains(k) by {
            if self.keys@.contains(k) {
                let i = choose|i: int| 0 <= i < self.keys@.len() && self.keys@[i] == k;
                assert(r[r.len() - 1 - i] == k);
            }
            if r.contains(k) {
                let i = choose|i: int| 0 <= i < r.len() && r[i] == k;
                assert(self.keys@[r.len() - 1 - i] == k);
            }
        }
    }

    /// An empty table.
    pub fn new() -> (t: SequentialSearchST)
        ensures
            t.wf(),
            t@ == Map::<i32, i32>::empty(),
            t.keys_view().len() == 0,
    {
        let t = SequentialSearchST { keys: Vec::new(), values: Vec::new() };
        proof {
            assert(t@ =~= Map::<i32, i32>::empty());
        }
        t
    }

    /// Where `key` is held, if it is in the table.
    fn find(&self, key: i32) -> (r: Option<usize>)
        requires
            self.wf(),
        ensures
            match r {
                Some(i) => i < self.keys@.len() && self.keys@[i as int] == key,
                None => !self.keys@.contains(key),
            },
    {
        let mut i = self.keys.len();
        while i > 0
            invariant
                i <= self.keys@.len(),
                forall|k: int| i <= k < self.keys@.len() ==> self.keys@[k] != key,
            decreases i,
        {
            i -= 1;
            if self.keys[i] == key {
                return Some(i);
            }
        }
        None
    }

    /// The value of `key`, if it has one.
    pub fn get(&self, key: i32) -> (r: Option<i32>)
        requires
            self.wf(),
        ensures
            r == lookup(self@, key),
    {
        match self.find(key) {
            Some(i) => {
                proof {
                    lemma_place(self.keys@, i as int);
                }
                Some(self.values[i])
            },
            None => None,
        }
    }

    /// Gives `key` the value `value`. A key that is new becomes the head of the list.
    pub fn put(&mut self, key: i32, value: i32)
        requires
            old(self).wf(),
        ensures
            final(self).wf(),
            final(self)@ == old(self)@.insert(key, value),
            final(self).keys_view() == if old(self).keys_view().contains(key) {
                old(self).keys_view()
            } else {
                seq![key] + old(self).keys_view()
            },
    {
        proof {
            old(self).lemma_keys();
        }
        match self.find(key) {
            Some(i) => {
                self.values[i] = value;
                proof {
                    lemma_table_update(old(self).keys@, old(self).values@, i as int, value);
                    lemma_place(old(self).keys@, i as int);
                }
            },
            None => {
                self.keys.push(key);
                self.values.push(value);
                proof {
                    let n = old(self).keys@.len() as int;
                    lemma_table_insert(old(self).keys@, old(self).values@, n, key, value);
                    assert(self.keys@ =~= old(self).keys@.insert(n, key));
                    assert(self.values@ =~= old(self).values@.insert(n, value));
                    assert(self.keys@.reverse() =~= seq![key] + old(self).keys@.reverse());
                }
            },
        }
    }

    /// Takes `key` and its value out of the table.
    pub fn delete(&mut self, key: i32)
        requires
            old(self).wf(),
        ensures
            final(self).wf(),
            final(self)@ == old(self)@.remove(key),
            final(self).keys_view() == if old(self).keys_view().contains(key) {
                old(self).keys_view().remove(old(self).keys_view().index_of(key))
            } else {
                old(self).keys_view()
            },
    {
        proof {
            old(self).lemma_keys();
        }
        match self.find(key) {
            Some(i) => {
                self.keys.remove(i);
                self.values.remove(i);
                proof {
                    lemma_table_remove(old(self).keys@, old(self).values@, i as int);
                    lemma_place(old(self).keys@, i as int);
                    let r = old(self).keys@.reverse();
                    let at = r.len() - 1 - i;
                    assert(r[at] == key);
                    lemma_place(r, at);
                    assert(self.keys@.reverse() =~= r.remove(at));
                }
            },
            None => {
                proof {
                    assert(self@ =~= self@.remove(key));
                }
            },
        }
    }
}

} // verus!
