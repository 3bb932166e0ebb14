//! A hash table with open addressing and linear probing.

use vstd::prelude::*;
use crate::search::separate_chaining_hash_st::{hash_in, hash_of};
use crate::search::lookup;

verus! {

/// How many steps lead from slot `h` forward, around the end of the table, to slot `j`.
pub open spec fn ahead(h: int, j: int, m: int) -> int {
    if j >= h {
        j - h
    } else {
        j + m - h
    }
}

/// The slot behind `i`, around the end of the table.
pub open spec fn next_slot(i: int, m: int) -> int {
    if i + 1 == m {
        0
    } else {
        i + 1
    }
}

/// The slot `d` steps behind slot `h`, around the end of the table.
pub open spec fn slot_at(h: int, d: int, m: int) -> int {
    if h + d < m {
        h + d
    } else {
        h + d - m
    }
}

/// `k` is among the entries of `tail` from index `from` on.
pub open spec fn outstanding(tail: Seq<i32>, from: int, k: i32) -> bool {
    exists|u: int| from <= u < tail.len() && tail[u] == k
}

/// An entry is outstanding from `from` on if it is the one at `from` or outstanding
/// from the next index on.
pub proof fn lemma_outstanding_step(tail: Seq<i32>, from: int, k: i32)
    requires
        0 <= from < tail.len(),
    ensures
        outstanding(tail, from, k) <==> tail[from] == k || outstanding(tail, from + 1, k),
{
    if outstanding(tail, from, k) {
        let u = choose|u: int| from <= u < tail.len() && tail[u] == k;
        if u != from {
            assert(from + 1 <= u < tail.len() && tail[u] == k);
        }
    }
    if outstanding(tail, from + 1, k) {
        let u = choose|u: int| from + 1 <= u < tail.len() && tail[u] == k;
        assert(from <= u < tail.len() && tail[u] == k);
    }
}

/// Every slot on the way from slot `h` to slot `s` is taken.
pub open spec fn path_full(keys: Seq<Option<i32>>, h: int, s: int) -> bool {
    forall|j: int|
        0 <= j < keys.len() && ahead(h, j, keys.len() as int) < ahead(h, s, keys.len() as int) ==> (
        #[trigger] keys[j]).is_some()
}

/// Every key can be found by probing: no slot between the slot of its hash value and
/// its own slot is free.
pub open spec fn slots_ok(keys: Seq<Option<i32>>) -> bool {
    forall|s: int|
        0 <= s < keys.len() && (#[trigger] keys[s]).is_some() ==> path_full(
            keys,
            hash_of(keys[s].unwrap(), keys.len() as usize) as int,
            s,
        )
}

/// No key is held in two slots.
pub open spec fn distinct(keys: Seq<Option<i32>>) -> bool {
    forall|s: int, t: int|
        0 <= s < keys.len() && 0 <= t < keys.len() && s != t && (#[trigger] keys[s]).is_some() ==> keys[s]
            != #[trigger] keys[t]
}

/// Number of slots that are taken.
pub open spec fn taken(keys: Seq<Option<i32>>) -> nat
    decreases keys.len(),
{
    if keys.len() == 0 {
        0
    } else {
        taken(keys.drop_last()) + if keys.last().is_some() {
            1nat
        } else {
            0nat
        }
    }
}

/// The table that the slots hold.
pub open spec fn held(keys: Seq<Option<i32>>, values: Seq<i32>) -> Map<i32, i32> {
    Map::new(|k: i32| keys.contains(Some(k)), |k: i32| values[keys.index_of(Some(k))])
}

/// Changing one slot changes the number of taken slots by what the slot gains or loses.
pub proof fn lemma_taken_update(keys: Seq<Option<i32>>, p: int, x: Option<i32>)
    requires
        0 <= p < keys.len(),
    ensures
        taken(keys.update(p, x)) + (if keys[p].is_some() { 1int } else { 0int }) == taken(keys) + (if x.is_some() {
            1int
        } else {
            0int
        }),
        taken(keys) <= keys.len(),
    decreases keys.len(),
{
    let keys2 = keys.update(p, x);
    if p == keys.len() - 1 {
        assert(keys2.drop_last() =~= keys.drop_last());
        lemma_taken_bound(keys.drop_last());
    } else {
        assert(keys2.drop_last() =~= keys.drop_last().update(p, x));
        lemma_taken_update(keys.drop_last(), p, x);
    }
}

/// No more slots are taken than there are.
pub proof fn lemma_taken_bound(keys: Seq<Option<i32>>)
    ensures
        taken(keys) <= keys.len(),
    decreases keys.len(),
{
    if keys.len() > 0 {
        lemma_taken_bound(keys.drop_last());
    }
}

/// Where fewer slots are taken than there are, some slot is free.
pub proof fn lemma_free_slot(keys: Seq<Option<i32>>) -> (z: int)
    requires
        taken(keys) < keys.len(),
    ensures
        0 <= z < keys.len(),
        keys[z].is_none(),
    decreases keys.len(),
{
    if keys.last().is_none() {
        keys.len() - 1
    } else {
        lemma_free_slot(keys.drop_last())
    }
}

/// Where no slot is taken, the count is zero.
pub proof fn lemma_taken_none(keys: Seq<Option<i32>>)
    requires
        forall|i: int| 0 <= i < keys.len() ==> (#[trigger] keys[i]).is_none(),
    ensures
        taken(keys) == 0,
    decreases keys.len(),
{
    if keys.len() > 0 {
        lemma_taken_none(keys.drop_last());
    }
}

/// A key is found in the one slot that holds it.
pub proof fn lemma_slot(keys: Seq<Option<i32>>, s: int)
    requires
        distinct(keys),
        0 <= s < keys.len(),
        keys[s].is_some(),
    ensures
        keys.contains(keys[s]),
        keys.index_of(keys[s]) == s,
{
    assert(keys.contains(keys[s]));
    let t = keys.index_of(keys[s]);
    assert(keys[t] == keys[s]);
}

/// A symbol table that keeps each pair in the first free slot at or behind the slot of
/// the hash value of its key.
pub struct LinearProbingHashST {
    n: usize,
    m: usize,
    keys: Vec<Option<i32>>,
    values: Vec<i32>,
}

impl View for LinearProbingHashST {
    type V = Map<i32, i32>;

    closed spec fn view(&self) -> Map<i32, i32> {
        held(self.keys@, self.values@)
    }
}

impl LinearProbingHashST {
    /// Number of slots.
    pub closed spec fn capacity(&self) -> nat {
        self.m as nat
    }

    /// Number of keys.
    pub closed spec fn count(&self) -> nat {
        self.n as nat
    }

    /// The representation invariant: every key is held once and can be found by probing,
    /// the counter is the number of keys, and some slot is free.
    pub closed spec fn wf(&self) -> bool {
        &&& self.m == self.keys@.len()
        &&& self.m == self.values@.len()
        &&& self.n == taken(self.keys@)
        &&& self.n < self.m
        &&& slots_ok(self.keys@)
        &&& distinct(self.keys@)
    }

    /// An empty table with 16 slots.
    pub fn new() -> (t: LinearProbingHashST)
        ensures
            t.wf(),
            t@ == Map::<i32, i32>::empty(),
            t.count() == 0,
            t.capacity() == 16,
    {
        Self::with_capacity(16)
    }

    /// An empty table with `m` slots.
    fn with_capacity(m: usize) -> (t: LinearProbingHashST)
        requires
            m > 0,
        ensures
            t.wf(),
            t@ == Map::<i32, i32>::empty(),
            t.n == 0,
            t.m == m,
    {
        let mut keys: Vec<Option<i32>> = Vec::with_capacity(m);
        let mut values: Vec<i32> = Vec::with_capacity(m);
        let mut i: usize = 0;
        while i < m
            invariant
                i <= m,
                keys@.len() == i,
                values@.len() == i,
                forall|k: int| 0 <= k < i ==> (#[trigger] keys@[k]).is_none(),
            decreases m - i,
        {
            keys.push(None);
            values.push(0);
            i += 1;
        }
        let t = LinearProbingHashST { n: 0, m, keys, values };
        proof {
            lemma_taken_none(t.keys@);
            assert(t@ =~= Map::<i32, i32>::empty()) by {
                assert forall|k: i32| !t.keys@.contains(Some(k)) by {
                    if t.keys@.contains(Some(k)) {
                        let s = choose|s: int| 0 <= s < t.keys@.len() && t.keys@[s] == Some(k);
                        assert(t.keys@[s].is_none());
                    }
                }
            }
        }
        t
    }

    /// Number of keys.
    pub fn len(&self) -> (r: usize)
        ensures
            r == self.count(),
    {
        self.n
    }

    /// Number of slots.
    pub fn slots(&self) -> (r: usize)
        ensures
            r == self.capacity(),
    {
        self.m
    }

    /// The hash value of `key`.
    fn hash(&self, key: i32) -> (r: usize)
        requires
            self.m > 0,
        ensures
            r == hash_of(key, self.m),
            r < self.m,
    {
        hash_in(key, self.m)
    }

    /// The slot that holds `key`, or the first free slot at or behind the slot of its
    /// hash value if no slot holds it.
    fn probe(&self, key: i32) -> (i: usize)
        requires
            self.wf(),
        ensures
            i < self.m,
            self.keys@[i as int] == Some(key) || (self.keys@[i as int].is_none() && !self.keys@.contains(
                Some(key),
            )),
            path_full(self.keys@, hash_of(key, self.m) as int, i as int),
    {
        let h = self.hash(key);
        let m = self.m;
        let mut i = h;
        let ghost mut steps: int = 0;
        let ghost free = lemma_free_slot(self.keys@);
        loop
            invariant
                self.wf(),
                m == self.m,
                h == hash_of(key, m),
                h < m,
                i < m,
                0 <= steps < m,
                ahead(h as int, i as int, m as int) == steps,
                0 <= free < m,
                self.keys@[free].is_none(),
                forall|j: int|
                    0 <= j < m && ahead(h as int, j, m as int) < steps ==> (#[trigger] self.keys@[j]).is_some()
                        && self.keys@[j] != Some(key),
            ensures
                i < m,
                self.keys@[i as int] == Some(key) || self.keys@[i as int].is_none(),
                ahead(h as int, i as int, m as int) == steps,
                forall|j: int|
                    0 <= j < m && ahead(h as int, j, m as int) < steps ==> (#[trigger] self.keys@[j]).is_some()
                        && self.keys@[j] != Some(key),
            decreases m - steps,
        {
            match self.keys[i] {
                None => {
                    break;
                },
                Some(k) => {
                    if k == key {
                        break;
                    }
                },
            }
            proof {
                // the free slot is still ahead
                assert(ahead(h as int, free, m as int) >= steps);
                assert(free != i);
                steps = steps + 1;
            }
            i = if i + 1 == m {
                0
            } else {
                i + 1
            };
        }
        proof {
            if self.keys@[i as int].is_none() && self.keys@.contains(Some(key)) {
                let s = choose|s: int| 0 <= s < self.keys@.len() && self.keys@[s] == Some(key);
                assert(self.keys@[s].is_some());
                // the way to `s` would lead over the free slot `i`
                assert(path_full(self.keys@, h as int, s));
                assert(ahead(h as int, s, m as int) >= steps);
                assert(ahead(h as int, i as int, m as int) < ahead(h as int, s, m as int));
                assert(self.keys@[i as int].is_some());
            }
        }
        i
    }

    /// The value of `key`, if it has one.
    pub fn get(&self, key: i32) -> (r: Option<i32>)
        requires
            self.wf(),
        ensures
            r == lookup(self@, key),
    {
        let i = self.probe(key);
        match self.keys[i] {
            None => None,
            Some(_) => {
                proof {
                    lemma_slot(self.keys@, i as int);
                }
                Some(self.values[i])
            },
        }
    }

    /// Gives `key` the value `value` in a table that has room.
    fn insert_raw(&mut self, key: i32, value: i32)
        requires
            old(self).wf(),
            old(self).n + 1 < old(self).m,
        ensures
            final(self).wf(),
            final(self).m == old(self).m,
            final(self)@ == old(self)@.insert(key, value),
            final(self).n == old(self).n + if old(self)@.contains_key(key) {
                0int
            } else {
                1int
            },
    {
        let i = self.probe(key);
        let ghost keys0 = self.keys@;
        let ghost values0 = self.values@;
        match self.keys[i] {
            Some(_) => {
                self.values[i] = value;
                proof {
                    lemma_slot(keys0, i as int);
                    assert(self@ =~= old(self)@.insert(key, value)) by {
                        assert forall|k: i32| self@.contains_key(k) implies self@[k] == old(self)@.insert(
                            key,
                            value,
                        )[k] by {
                            let s = keys0.index_of(Some(k));
                            assert(keys0[s] == Some(k));
                        }
                    }
                }
            },
            None => {
                self.keys[i] = Some(key);
                self.values[i] = value;
                self.n += 1;
                proof {
                    let keys1 = self.keys@;
                    lemma_taken_update(keys0, i as int, Some(key));
                    assert forall|s: int, t: int|
                        0 <= s < keys1.len() && 0 <= t < keys1.len() && s != t && (#[trigger] keys1[s]).is_some() implies keys1[s]
                        != #[trigger] keys1[t] by {
                        if s == i {
                            assert(keys0[t] != Some(key)) by {
                                if keys0[t] == Some(key) {
                                    assert(keys0.contains(Some(key)));
                                }
                            }
                        } else if t == i {
                            assert(keys0[s] != Some(key)) by {
                                if keys0[s] == Some(key) {
                                    assert(keys0.contains(Some(key)));
                                }
                            }
                        } else {
                            assert(keys0[s] != keys0[t]);
                        }
                    }
                    assert forall|s: int| 0 <= s < keys1.len() && (#[trigger] keys1[s]).is_some() implies path_full(
                        keys1,
                        hash_of(keys1[s].unwrap(), keys1.len() as usize) as int,
                        s,
                    ) by {
                        let h = hash_of(keys1[s].unwrap(), keys1.len() as usize) as int;
                        if s != i {
                            assert(keys0[s].is_some());
                            assert(path_full(keys0, h, s));
                        }
                        assert forall|j: int|
                            0 <= j < keys1.len() && ahead(h, j, keys1.len() as int) < ahead(
                                h,
                                s,
                                keys1.len() as int,
                            ) implies (#[trigger] keys1[j]).is_some() by {
                            if j != i {
                                assert(keys0[j].is_some());
                            }
                        }
                    }
                    lemma_slot(keys1, i as int);
                    assert(self@ =~= old(self)@.insert(key, value)) by {
                        assert forall|k: i32| self@.contains_key(k) == old(self)@.insert(
                            key,
                            value,
                        ).contains_key(k) by {
                            if keys1.contains(Some(k)) && k != key {
                                let s = choose|s: int| 0 <= s < keys1.len() && keys1[s] == Some(k);
                                assert(keys0[s] == Some(k));
                            }
                            if keys0.contains(Some(k)) {
                                let s = choose|s: int| 0 <= s < keys0.len() && keys0[s] == Some(k);
                                assert(keys1[s] == Some(k));
                            }
                        }
                        assert forall|k: i32| self@.contains_key(k) implies self@[k] == old(self)@.insert(
                            key,
                            value,
                        )[k] by {
                            if k != key {
                                let s = keys1.index_of(Some(k));
                                assert(keys1[s] == Some(k));
                                assert(keys0[s] == Some(k));
                                lemma_slot(keys0, s);
                            }
                        }
                    }
                }
            },
        }
    }

    /// Gives `key` the value `value`. A table that is half full is moved to one of twice
    /// the size first.
    pub fn put(&mut self, key: i32, value: i32)
        requires
            old(self).wf(),
            old(self).capacity() <= usize::MAX / 2,
        ensures
            final(self).wf(),
            final(self)@ == old(self)@.insert(key, value),
            final(self).count() == old(self).count() + if old(self)@.contains_key(key) {
                0int
            } else {
                1int
            },
            final(self).capacity() == if old(self).count() >= old(self).capacity() / 2 {
                2 * old(self).capacity()
            } else {
                old(self).capacity()
            },
    {
        if self.n >= self.m / 2 {
            self.resize(2 * self.m);
        }
        self.insert_raw(key, value);
    }

    /// Moves the pairs to a table with `cap` slots.
    fn resize(&mut self, cap: usize)
        requires
            old(self).wf(),
            old(self).n + 1 < cap,
        ensures
            final(self).wf(),
            final(self)@ == old(self)@,
            final(self).n == old(self).n,
            final(self).m == cap,
    {
        let mut t = LinearProbingHashST::with_capacity(cap);
        let mut i: usize = 0;
        while i < self.m
            invariant
                self.wf(),
                self == old(self),
                i <= self.m,
                t.wf(),
                t.m == cap,
                self.n + 1 < cap,
                t.n == taken(self.keys@.take(i as int)),
                forall|k: i32|
                    t@.contains_key(k) <==> exists|s: int| 0 <= s < i && #[trigger] self.keys@[s] == Some(k),
                forall|k: i32| t@.contains_key(k) ==> t@[k] == self@[k],
            decreases self.m - i,
        {
            let ghost before = t@;
            proof {
                assert(self.keys@.take(i + 1).drop_last() =~= self.keys@.take(i as int));
                assert(self.keys@.take(i as int) =~= self.keys@.update(i as int, None).take(i as int));
                lemma_taken_bound(self.keys@.take(i as int));
                Self::lemma_taken_take(self.keys@, i as int);
            }
            match self.keys[i] {
                Some(k) => {
                    proof {
                        lemma_slot(self.keys@, i as int);
                        if before.contains_key(k) {
                            let s = choose|s: int| 0 <= s < i && #[trigger] self.keys@[s] == Some(k);
                            assert(self.keys@[s] != self.keys@[i as int]);
                        }
                    }
                    t.insert_raw(k, self.values[i]);
                    proof {
                        assert forall|x: i32| t@.contains_key(x) <==> exists|s: int|
                            0 <= s < i + 1 && #[trigger] self.keys@[s] == Some(x) by {
                            if before.contains_key(x) {
                                let s = choose|s: int| 0 <= s < i && #[trigger] self.keys@[s] == Some(x);
                                assert(0 <= s < i + 1 && self.keys@[s] == Some(x));
                            }
                            if x == k {
                                assert(self.keys@[i as int] == Some(x));
                            }
                        }
                    }
                },
                None => {
                    proof {
                        assert forall|x: i32| t@.contains_key(x) <==> exists|s: int|
                            0 <= s < i + 1 && #[trigger] self.keys@[s] == Some(x) by {
                            if t@.contains_key(x) {
                                let s = choose|s: int| 0 <= s < i && #[trigger] self.keys@[s] == Some(x);
                                assert(0 <= s < i + 1 && self.keys@[s] == Some(x));
                            }
                        }
                    }
                },
            }
            i += 1;
        }
        proof {
            assert(self.keys@.take(self.m as int) =~= self.keys@);
            assert(t@ =~= self@) by {
                assert forall|k: i32| t@.contains_key(k) == self@.contains_key(k) by {
                    if self.keys@.contains(Some(k)) {
                        let s = choose|s: int| 0 <= s < self.keys@.len() && self.keys@[s] == Some(k);
                        assert(self.keys@[s] == Some(k));
                    }
                    if t@.contains_key(k) {
                        let s = choose|s: int| 0 <= s < i && #[trigger] self.keys@[s] == Some(k);
                        assert(self.keys@.contains(Some(k)));
                    }
                }
            }
        }
        *self = t;
    }

    /// Frees slot `p`, the last taken slot of its run.
    fn clear_slot(&mut self, p: usize)
        requires
            old(self).wf(),
            p < old(self).m,
            old(self).keys@[p as int].is_some(),
            old(self).keys@[next_slot(p as int, old(self).m as int)].is_none(),
        ensures
            final(self).wf(),
            final(self).m == old(self).m,
            final(self).n + 1 == old(self).n,
            final(self).keys@ == old(self).keys@.update(p as int, None),
            final(self).values@ == old(self).values@,
            final(self)@ == old(self)@.remove(old(self).keys@[p as int].unwrap()),
    {
        let ghost keys0 = self.keys@;
        let ghost gone = keys0[p as int].unwrap();
        let ghost m = self.m as int;
        proof {
            lemma_taken_update(keys0, p as int, None);
        }
        self.keys[p] = None;
        self.n -= 1;
        proof {
            let keys1 = self.keys@;
            let q = next_slot(p as int, m);
            assert forall|s: int| 0 <= s < keys1.len() && (#[trigger] keys1[s]).is_some() implies path_full(
                keys1,
                hash_of(keys1[s].unwrap(), keys1.len() as usize) as int,
                s,
            ) by {
                let h = hash_of(keys1[s].unwrap(), keys1.len() as usize) as int;
                assert(keys0[s].is_some());
                assert(path_full(keys0, h, s));
                assert forall|j: int| 0 <= j < keys1.len() && ahead(h, j, m) < ahead(h, s, m) implies (
                #[trigger] keys1[j]).is_some() by {
                    assert(keys0[j].is_some());
                    if j == p {
                        // the way would go on over the free slot behind `p`
                        assert(q != s);
                        assert(ahead(h, q, m) < ahead(h, s, m));
                        assert(keys0[q].is_some());
                    }
                }
            }
            lemma_slot(keys0, p as int);
            assert(self@ =~= old(self)@.remove(gone)) by {
                assert forall|k: i32| self@.contains_key(k) == old(self)@.remove(gone).contains_key(k) by {
                    if keys1.contains(Some(k)) {
                        let s = choose|s: int| 0 <= s < keys1.len() && keys1[s] == Some(k);
                        assert(keys0[s] == Some(k));
                        assert(keys0[s] != keys0[p as int]);
                    }
                    if keys0.contains(Some(k)) && k != gone {
                        let s = choose|s: int| 0 <= s < keys0.len() && keys0[s] == Some(k);
                        assert(keys1[s] == Some(k));
                    }
                }
                assert forall|k: i32| self@.contains_key(k) implies self@[k] == old(self)@.remove(gone)[k] by {
                    let s = keys1.index_of(Some(k));
                    assert(keys1[s] == Some(k));
                    assert(keys0[s] == Some(k));
                    lemma_slot(keys0, s);
                }
            }
        }
    }

    /// Takes `key` and its value out, and puts the pairs behind it in its run back in,
    /// so that each can still be found. A table that is left an eighth full is moved to
    /// one of half the size.
    pub fn delete(&mut self, key: i32)
        requires
            old(self).wf(),
        ensures
            final(self).wf(),
            final(self)@ == old(self)@.remove(key),
            final(self).count() == old(self).count() - if old(self)@.contains_key(key) {
                1int
            } else {
                0int
            },
            final(self).capacity() == if old(self)@.contains_key(key) && old(self).count() > 1 && old(
                self,
            ).count() - 1 == old(self).capacity() / 8 {
                old(self).capacity() / 2
            } else {
                old(self).capacity()
            },
    {
        let i = self.probe(key);
        if self.keys[i].is_none() {
            assert(self@ =~= old(self)@.remove(key));
            return ;
        }
        let m = self.m;
        let ghost keys0 = self.keys@;
        let ghost values0 = self.values@;
        let ghost free = lemma_free_slot(keys0);
        proof {
            lemma_slot(keys0, i as int);
        }
        // the pairs behind the key in its run
        let mut tail_keys: Vec<i32> = Vec::new();
        let mut tail_values: Vec<i32> = Vec::new();
        let mut j: usize = if i + 1 == m {
            0
        } else {
            i + 1
        };
        loop
            invariant
                self == old(self),
                self.wf(),
                m == self.m,
                i < m,
                j < m,
                keys0 == self.keys@,
                values0 == self.values@,
                keys0[i as int] == Some(key),
                0 <= free < m,
                keys0[free].is_none(),
                tail_keys@.len() == tail_values@.len(),
                tail_keys@.len() + 1 < m,
                ahead(i as int, j as int, m as int) == tail_keys@.len() + 1,
                forall|u: int|
                    0 <= u < tail_keys@.len() ==> keys0[slot_at(i as int, u + 1, m as int)] == Some(
                        #[trigger] tail_keys@[u],
                    ) && values0[slot_at(i as int, u + 1, m as int)] == tail_values@[u],
            ensures
                keys0[j as int].is_none(),
                j < m,
                tail_keys@.len() == tail_values@.len(),
                tail_keys@.len() + 1 < m,
                ahead(i as int, j as int, m as int) == tail_keys@.len() + 1,
                forall|u: int|
                    0 <= u < tail_keys@.len() ==> keys0[slot_at(i as int, u + 1, m as int)] == Some(
                        #[trigger] tail_keys@[u],
                    ) && values0[slot_at(i as int, u + 1, m as int)] == tail_values@[u],
            decreases m - tail_keys@.len(),
        {
            match self.keys[j] {
                None => {
                    break;
                },
                Some(k) => {
                    proof {
                        assert(slot_at(i as int, tail_keys@.len() + 1 as int, m as int) == j);
                        // the free slot is still ahead
                        assert forall|d: int| 0 <= d <= tail_keys@.len() + 1 implies keys0[#[trigger] slot_at(
                            i as int,
                            d,
                            m as int,
                        )].is_some() by {
                            if 0 < d <= tail_keys@.len() {
                                assert(keys0[slot_at(i as int, d, m as int)] == Some(tail_keys@[d - 1]));
                            }
                        }
                        let d = ahead(i as int, free, m as int);
                        assert(slot_at(i as int, d, m as int) == free);
                        assert(d > tail_keys@.len() + 1);
                    }
                    tail_keys.push(k);
                    tail_values.push(self.values[j]);
                },
            }
            j = if j + 1 == m {
                0
            } else {
                j + 1
            };
        }
        let len = tail_keys.len();
        let ghost tail = tail_keys@;
        let ghost tail_v = tail_values@;
        proof {
            assert forall|u: int| 0 <= u < len implies old(self)@.contains_key(#[trigger] tail[u]) && old(
                self,
            )@[tail[u]] == tail_v[u] && tail[u] != key by {
                let s = slot_at(i as int, u + 1, m as int);
                assert(keys0[s] == Some(tail[u]));
                lemma_slot(keys0, s);
                assert(keys0[s] != keys0[i as int]);
            }
            assert forall|u: int, v: int| 0 <= u < v < len implies #[trigger] tail[u] != #[trigger] tail[v] by {
                let s = slot_at(i as int, u + 1, m as int);
                let t = slot_at(i as int, v + 1, m as int);
                assert(keys0[s] == Some(tail[u]));
                assert(keys0[t] == Some(tail[v]));
                assert(keys0[s] != keys0[t]);
            }
        }
        // free the run from its end back to the key
        let mut t: usize = len;
        let mut p: usize = j;
        while t > 0
            invariant
                self.wf(),
                m == self.m,
                i < m,
                p < m,
                t <= len,
                len + 1 < m,
                len == tail.len(),
                p as int == slot_at(i as int, t + 1, m as int),
                self.keys@[p as int].is_none(),
                self.keys@[i as int] == Some(key),
                self.n + (len - t) == old(self).n,
                forall|u: int|
                    0 <= u < t ==> self.keys@[slot_at(i as int, u + 1, m as int)] == Some(#[trigger] tail[u]),
                forall|k: i32|
                    #![trigger self@.contains_key(k)]
                    #![trigger old(self)@.contains_key(k)]
                    self@.contains_key(k) <==> old(self)@.contains_key(k) && !outstanding(tail, t as int, k),
                forall|k: i32| self@.contains_key(k) ==> self@[k] == old(self)@[k],
            decreases t,
        {
            let ghost before = self@;
            let ghost t0 = t as int;
            t -= 1;
            p = if p == 0 {
                m - 1
            } else {
                p - 1
            };
            proof {
                assert(p as int == slot_at(i as int, t + 1, m as int));
                assert(self.keys@[p as int] == Some(tail[t as int]));
            }
            self.clear_slot(p);
            proof {
                assert forall|u: int| 0 <= u < t implies self.keys@[slot_at(i as int, u + 1, m as int)] == Some(
                    #[trigger] tail[u],
                ) by {
                    assert(slot_at(i as int, u + 1, m as int) != p);
                }
                assert forall|k: i32|
                    self@.contains_key(k) <==> old(self)@.contains_key(k) && !outstanding(tail, t as int, k) by {
                    lemma_outstanding_step(tail, t as int, k);
                    assert(outstanding(tail, t + 1, k) == outstanding(tail, t0, k));
                    assert(before.contains_key(k) <==> old(self)@.contains_key(k) && !outstanding(tail, t0, k));
                    assert(self@.contains_key(k) <==> before.contains_key(k) && k != tail[t as int]);
                }
            }
        }
        proof {
            assert(p as int == next_slot(i as int, m as int));
        }
        let ghost bare = self@;
        self.clear_slot(i);
        // put the run back in
        let mut t: usize = 0;
        proof {
            assert forall|k: i32|
                self@.contains_key(k) <==> old(self)@.contains_key(k) && k != key && !outstanding(tail, 0, k) by {
                assert(bare.contains_key(k) <==> old(self)@.contains_key(k) && !outstanding(tail, 0, k));
                assert(self@.contains_key(k) <==> bare.contains_key(k) && k != key);
            }
        }
        while t < len
            invariant
                self.wf(),
                m == self.m,
                t <= len,
                len == tail.len(),
                tail == tail_keys@,
                tail_v == tail_values@,
                tail_v.len() == len,
                old(self).wf(),
                m == old(self).m,
                self.n + 1 + (len - t) == old(self).n,
                forall|u: int|
                    0 <= u < len ==> old(self)@.contains_key(#[trigger] tail[u]) && old(self)@[tail[u]]
                        == tail_v[u] && tail[u] != key,
                forall|u: int, v: int| 0 <= u < v < len ==> #[trigger] tail[u] != #[trigger] tail[v],
                forall|k: i32|
                    #![trigger self@.contains_key(k)]
                    #![trigger old(self)@.contains_key(k)]
                    self@.contains_key(k) <==> old(self)@.contains_key(k) && k != key && !outstanding(
                        tail,
                        t as int,
                        k,
                    ),
                forall|k: i32| self@.contains_key(k) ==> self@[k] == old(self)@[k],
            decreases len - t,
        {
            let ghost before = self@;
            let ghost t0 = t as int;
            proof {
                assert(outstanding(tail, t0, tail[t0]));
            }
            self.insert_raw(tail_keys[t], tail_values[t]);
            proof {
                assert forall|k: i32|
                    self@.contains_key(k) <==> old(self)@.contains_key(k) && k != key && !outstanding(
                        tail,
                        t + 1,
                        k,
                    ) by {
                    lemma_outstanding_step(tail, t0, k);
                    assert(before.contains_key(k) <==> old(self)@.contains_key(k) && k != key && !outstanding(
                        tail,
                        t0,
                        k,
                    ));
                    assert(self@.contains_key(k) <==> before.contains_key(k) || k == tail[t0]);
                    if k == tail[t0] {
                        if outstanding(tail, t + 1, k) {
                            let u = choose|u: int| t + 1 <= u < tail.len() && tail[u] == k;
                            assert(tail[t as int] != tail[u]);
                        }
                    }
                }
            }
            t += 1;
        }
        proof {
            assert forall|k: i32| self@.contains_key(k) == old(self)@.remove(key).contains_key(k) by {
                assert(!outstanding(tail, t as int, k));
                assert(self@.contains_key(k) <==> old(self)@.contains_key(k) && k != key && !outstanding(
                    tail,
                    t as int,
                    k,
                ));
            }
            assert(self@ =~= old(self)@.remove(key));
        }
        if self.n > 0 && self.n == self.m / 8 {
            self.resize(self.m / 2);
        }
    }

    /// The slots taken among the first `i + 1` are those among the first `i` and slot
    /// `i`.
    proof fn lemma_taken_take(keys: Seq<Option<i32>>, i: int)
        requires
            0 <= i < keys.len(),
        ensures
            taken(keys.take(i + 1)) == taken(keys.take(i)) + if keys[i].is_some() {
                1nat
            } else {
                0nat
            },
            taken(keys.take(i + 1)) <= taken(keys),
        decreases keys.len() - i,
    {
        assert(keys.take(i + 1).drop_last() =~= keys.take(i));
        if i + 1 == keys.len() {
            assert(keys.take(i + 1) =~= keys);
        } else {
            Self::lemma_taken_take(keys, i + 1);
        }
    }
}

} // verus!
