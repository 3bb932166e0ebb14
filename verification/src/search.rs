//! Symbol tables with integer keys and values.

use vstd::prelude::*;

pub mod binary_search;
pub mod bst;
pub mod linear_probing_hash_st;
pub mod red_black_bst;
pub mod separate_chaining_hash_st;
pub mod sequential_search;

verus! {

/// The table that pairs each of `keys` with the entry of `values` at the same place.
pub open spec fn table(keys: Seq<i32>, values: Seq<i32>) -> Map<i32, i32> {
    Map::new(|k: i32| keys.contains(k), |k: i32| values[keys.index_of(k)])
}

/// What a table gives for `key`.
pub open spec fn lookup(t: Map<i32, i32>, key: i32) -> Option<i32> {
    if t.contains_key(key) {
        Some(t[key])
    } else {
        None
    }
}

/// Each entry is less than the one behind it.
pub open spec fn ascending(keys: Seq<i32>) -> bool {
    forall|i: int, j: int| 0 <= i < j < keys.len() ==> keys[i] < keys[j]
}

/// How many of `keys` are less than `key`.
pub open spec fn below(keys: Seq<i32>, key: i32) -> nat
    decreases keys.len(),
{
    if keys.len() == 0 {
        0
    } else {
        below(keys.drop_last(), key) + if keys.last() < key {
            1nat
        } else {
            0nat
        }
    }
}

/// Among ascending keys, the number of keys less than `key` is the place where the
/// keys begin to be no less.
pub proof fn lemma_below(keys: Seq<i32>, key: i32, i: int)
    requires
        ascending(keys),
        0 <= i <= keys.len(),
        forall|k: int| 0 <= k < i ==> keys[k] < key,
        forall|k: int| i <= k < keys.len() ==> keys[k] >= key,
    ensures
        below(keys, key) == i,
    decreases keys.len(),
{
    if keys.len() > 0 {
        let rest = keys.drop_last();
        if i == keys.len() {
            lemma_below(rest, key, i - 1);
        } else {
            lemma_below(rest, key, i);
        }
    }
}

/// Where nothing occurs twice, a key is found at its own place.
pub proof fn lemma_place(keys: Seq<i32>, i: int)
    requires
        keys.no_duplicates(),
        0 <= i < keys.len(),
    ensures
        keys.contains(keys[i]),
        keys.index_of(keys[i]) == i,
{
    assert(keys.contains(keys[i]));
    let j = keys.index_of(keys[i]);
    assert(keys[j] == keys[i]);
}

/// Ascending keys do not repeat.
pub proof fn lemma_ascending_distinct(keys: Seq<i32>)
    requires
        ascending(keys),
    ensures
        keys.no_duplicates(),
{
    assert forall|i: int, j: int| 0 <= i < keys.len() && 0 <= j < keys.len() && i != j implies keys[i]
        != keys[j] by {
        if i < j {
            assert(keys[i] < keys[j]);
        } else {
            assert(keys[j] < keys[i]);
        }
    }
}

/// Putting a new key with its value in at the same place of both sequences adds the
/// pair to the table.
pub proof fn lemma_table_insert(keys: Seq<i32>, values: Seq<i32>, i: int, key: i32, value: i32)
    requires
        keys.no_duplicates(),
        keys.len() == values.len(),
        0 <= i <= keys.len(),
        !keys.contains(key),
    ensures
        keys.insert(i, key).no_duplicates(),
        table(keys.insert(i, key), values.insert(i, value)) == table(keys, values).insert(key, value),
{
    let keys2 = keys.insert(i, key);
    let values2 = values.insert(i, value);
    assert forall|p: int, q: int| 0 <= p < keys2.len() && 0 <= q < keys2.len() && p != q implies keys2[p]
        != keys2[q] by {
        let p0 = if p < i { p } else { p - 1 };
        let q0 = if q < i { q } else { q - 1 };
        if p != i && q != i {
            assert(keys2[p] == keys[p0] && keys2[q] == keys[q0]);
        } else if p == i {
            assert(keys2[q] == keys[q0]);
            assert(keys.contains(keys[q0]));
        } else {
            assert(keys2[p] == keys[p0]);
            assert(keys.contains(keys[p0]));
        }
    }
    let t = table(keys, values).insert(key, value);
    let t2 = table(keys2, values2);
    assert forall|k: i32| t2.contains_key(k) == t.contains_key(k) by {
        if keys2.contains(k) {
            let p = choose|p: int| 0 <= p < keys2.len() && keys2[p] == k;
            if p != i {
                let p0 = if p < i { p } else { p - 1 };
                assert(keys[p0] == k);
            }
        }
        if keys.contains(k) {
            let p0 = choose|p: int| 0 <= p < keys.len() && keys[p] == k;
            let p = if p0 < i { p0 } else { p0 + 1 };
            assert(keys2[p] == k);
        }
        if k == key {
            assert(keys2[i] == k);
        }
    }
    assert forall|k: i32| t2.contains_key(k) implies t2[k] == t[k] by {
        let p = keys2.index_of(k);
        assert(keys2[p] == k);
        if p == i {
        } else {
            let p0 = if p < i { p } else { p - 1 };
            assert(keys[p0] == k);
            lemma_place(keys, p0);
            assert(values2[p] == values[p0]);
        }
    }
    assert(t2 =~= t);
}

/// Putting another value in the place of a key changes what the table gives for that
/// key.
pub proof fn lemma_table_update(keys: Seq<i32>, values: Seq<i32>, i: int, value: i32)
    requires
        keys.no_duplicates(),
        keys.len() == values.len(),
        0 <= i < keys.len(),
    ensures
        table(keys, values.update(i, value)) == table(keys, values).insert(keys[i], value),
{
    let t = table(keys, values).insert(keys[i], value);
    let t2 = table(keys, values.update(i, value));
    lemma_place(keys, i);
    assert forall|k: i32| t2.contains_key(k) implies t2[k] == t[k] by {
        let p = keys.index_of(k);
        assert(keys[p] == k);
    }
    assert(t2 =~= t);
}

/// Taking a key and its value out of both sequences takes the key out of the table.
pub proof fn lemma_table_remove(keys: Seq<i32>, values: Seq<i32>, i: int)
    requires
        keys.no_duplicates(),
        keys.len() == values.len(),
        0 <= i < keys.len(),
    ensures
        keys.remove(i).no_duplicates(),
        !keys.remove(i).contains(keys[i]),
        table(keys.remove(i), values.remove(i)) == table(keys, values).remove(keys[i]),
{
    let keys2 = keys.remove(i);
    let values2 = values.remove(i);
    assert forall|p: int| 0 <= p < keys2.len() implies keys2[p] == keys[if p < i { p } else { p + 1 }]
        by {}
    assert forall|p: int, q: int| 0 <= p < keys2.len() && 0 <= q < keys2.len() && p != q implies keys2[p]
        != keys2[q] by {
        assert(keys2[p] == keys[if p < i { p } else { p + 1 }]);
        assert(keys2[q] == keys[if q < i { q } else { q + 1 }]);
    }
    if keys2.contains(keys[i]) {
        let p = choose|p: int| 0 <= p < keys2.len() && keys2[p] == keys[i];
        assert(keys2[p] == keys[if p < i { p } else { p + 1 }]);
    }
    let t = table(keys, values).remove(keys[i]);
    let t2 = table(keys2, values2);
    assert forall|k: i32| t2.contains_key(k) == t.contains_key(k) by {
        if keys2.contains(k) {
            let p = choose|p: int| 0 <= p < keys2.len() && keys2[p] == k;
            assert(keys2[p] == keys[if p < i { p } else { p + 1 }]);
            assert(keys.contains(k));
        }
        if keys.contains(k) && k != keys[i] {
            let p0 = choose|p: int| 0 <= p < keys.len() && keys[p] == k;
            let p = if p0 < i { p0 } else { p0 - 1 };
            assert(keys2[p] == k);
        }
    }
    assert forall|k: i32| t2.contains_key(k) implies t2[k] == t[k] by {
        let p = keys2.index_of(k);
        assert(keys2[p] == k);
        let p0 = if p < i { p } else { p + 1 };
        assert(keys[p0] == k);
        lemma_place(keys, p0);
        assert(values2[p] == values[p0]);
    }
    assert(t2 =~= t);
}

} // verus!
