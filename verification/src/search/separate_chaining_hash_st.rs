//! A hash table with one list of pairs for each hash value.

use vstd::prelude::*;
use crate::search::sequential_search::SequentialSearchST;
use crate::search::lookup;

verus! {

/// The hash value of `key` in a table of `m` lists: the key without its sign bit, modulo
/// `m`.
pub open spec fn hash_of(key: i32, m: usize) -> usize {
    ((key & 0x7FFFFFFF) as usize % m) as usize
}

/// The hash value of `key` in a table of `m` lists.
pub fn hash_in(key: i32, m: usize) -> (r: usize)
    requires
        m > 0,
    ensures
        r == hash_of(key, m),
        r < m,
{
    let bits = key & 0x7FFFFFFF;
    assert(bits >= 0) by (bit_vector)
        requires
            bits == key & 0x7FFFFFFF,
    ;
    (bits as usize) % m
}

/// A symbol table that keeps the pairs in 997 lists, each key in the list of its hash
/// value.
pub struct SeparateChainingHashST {
    m: usize,
    st: Vec<SequentialSearchST>,
}

impl View for SeparateChainingHashST {
    type V = Map<i32, i32>;

    closed spec fn view(&self) -> Map<i32, i32> {
        Map::new(
            |k: i32| hash_of(k, self.m) < self.st@.len() && self.st@[hash_of(k, self.m) as int]@.contains_key(k),
            |k: i32| self.st@[hash_of(k, self.m) as int]@[k],
        )
    }
}

impl SeparateChainingHashST {
    /// The representation invariant: every list is well formed and holds only keys with
    /// its hash value.
    pub closed spec fn wf(&self) -> bool {
        &&& self.m > 0
        &&& forall|i: int| 0 <= i < self.st@.len() ==> (#[trigger] self.st@[i]).wf()
        &&& forall|i: int, k: i32|
            0 <= i < self.st@.len() && (#[trigger] self.st@[i]@.contains_key(k)) ==> hash_of(k, self.m)
                == i
    }

    /// An empty table.
    pub fn new() -> (t: SeparateChainingHashST)
        ensures
            t.wf(),
            t@ == Map::<i32, i32>::empty(),
    {
        let t = SeparateChainingHashST { m: 997, st: Vec::new() };
        proof {
            assert(t@ =~= Map::<i32, i32>::empty());
        }
        t
    }

    /// The value of `key`, if it has one.
    pub fn get(&self, key: i32) -> (r: Option<i32>)
        requires
            self.wf(),
        ensures
            r == lookup(self@, key),
    {
        let i = self.hash(key);
        if i >= self.st.len() {
            return None;
        }
        self.st[i].get(key)
    }

    /// Gives `key` the value `value`.
    pub fn put(&mut self, key: i32, value: i32)
        requires
            old(self).wf(),
        ensures
            final(self).wf(),
            final(self)@ == old(self)@.insert(key, value),
    {
        let i = self.hash(key);
        self.resize(i);
        let ghost before = *self;
        self.st[i].put(key, value);
        proof {
            assert forall|j: int| 0 <= j < self.st@.len() implies (#[trigger] self.st@[j]).wf() by {
                if j != i {
                    assert(self.st@[j] == before.st@[j]);
                    assert(before.st@[j].wf());
                }
            }
            assert forall|j: int, k: i32|
                0 <= j < self.st@.len() && (#[trigger] self.st@[j]@.contains_key(k)) implies hash_of(
                k,
                self.m,
            ) == j by {
                if j != i {
                    assert(self.st@[j] == before.st@[j]);
                    assert(before.st@[j]@.contains_key(k));
                } else if k != key {
                    assert(before.st@[i as int]@.contains_key(k));
                }
            }
            assert(self@ =~= old(self)@.insert(key, value)) by {
                assert forall|k: i32| self@.contains_key(k) == old(self)@.insert(key, value).contains_key(
                    k,
                ) by {
                    let h = hash_of(k, self.m) as int;
                    if h < self.st@.len() && h != i {
                        assert(self.st@[h] == before.st@[h]);
                    }
                }
                assert forall|k: i32| self@.contains_key(k) implies self@[k] == old(self)@.insert(
                    key,
                    value,
                )[k] by {
                    let h = hash_of(k, self.m) as int;
                    if h != i {
                        assert(self.st@[h] == before.st@[h]);
                    }
                }
            }
        }
    }

    /// Adds empty lists until there is one for the hash value `i`.
    fn resize(&mut self, i: usize)
        requires
            old(self).wf(),
        ensures
            final(self).wf(),
            final(self).m == old(self).m,
            final(self)@ == old(self)@,
            i < final(self).st@.len(),
    {
        while self.st.len() <= i
            invariant
                self.wf(),
                self.m == old(self).m,
                self@ == old(self)@,
            decreases i + 1 - self.st@.len(),
        {
            let ghost before = *self;
            self.st.push(SequentialSearchST::new());
            proof {
                assert forall|j: int| 0 <= j < self.st@.len() implies (#[trigger] self.st@[j]).wf() by {
                    if j < before.st@.len() {
                        assert(self.st@[j] == before.st@[j]);
                        assert(before.st@[j].wf());
                    }
                }
                assert forall|j: int, k: i32|
                    0 <= j < self.st@.len() && (#[trigger] self.st@[j]@.contains_key(k)) implies hash_of(
                    k,
                    self.m,
                ) == j by {
                    if j < before.st@.len() {
                        assert(self.st@[j] == before.st@[j]);
                        assert(before.st@[j]@.contains_key(k));
                    }
                }
                assert(self@ =~= before@) by {
                    assert forall|k: i32| self@.contains_key(k) == before@.contains_key(k) by {
                        let h = hash_of(k, self.m) as int;
                        if h < before.st@.len() {
                            assert(self.st@[h] == before.st@[h]);
                        }
                    }
                    assert forall|k: i32| self@.contains_key(k) implies self@[k] == before@[k] by {
                        let h = hash_of(k, self.m) as int;
                        assert(self.st@[h] == before.st@[h]);
                    }
                }
            }
        }
    }

    /// The hash value of `key`.
    fn hash(&self, key: i32) -> (r: usize)
        requires
            self.wf(),
        ensures
            r == hash_of(key, self.m),
            r < self.m,
    {
        hash_in(key, self.m)
    }
}

} // verus!
