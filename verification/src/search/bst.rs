//! A symbol table on a binary search tree.

use std::collections::VecDeque;
use vstd::prelude::*;
use crate::search::{
    ascending, below, lemma_ascending_distinct, lemma_below, lemma_place, lemma_table_insert,
    lemma_table_remove, lemma_table_update, lookup, table,
};

verus! {

/// A node of the tree: a pair, the number of pairs at and below it, and the two subtrees.
pub struct Node {
    pub key: i32,
    pub value: i32,
    pub len: usize,
    pub left: Option<Box<Node>>,
    pub right: Option<Box<Node>>,
}

impl Node {
    /// A node without subtrees.
    pub fn new(key: i32, value: i32, len: usize) -> (n: Node)
        ensures
            n.key == key,
            n.value == value,
            n.len == len,
            n.left.is_none(),
            n.right.is_none(),
    {
        Node { key, value, len, left: None, right: None }
    }
}

/// The keys of a tree from left to right.
pub open spec fn keys_of(link: Option<Box<Node>>) -> Seq<i32>
    decreases link,
{
    match link {
        None => Seq::empty(),
        Some(n) => keys_of(n.left) + seq![n.key] + keys_of(n.right),
    }
}

/// The values of a tree from left to right.
pub open spec fn values_of(link: Option<Box<Node>>) -> Seq<i32>
    decreases link,
{
    match link {
        None => Seq::empty(),
        Some(n) => values_of(n.left) + seq![n.value] + values_of(n.right),
    }
}

/// Every node holds the number of pairs at and below it.
pub open spec fn counted(link: Option<Box<Node>>) -> bool
    decreases link,
{
    match link {
        None => true,
        Some(n) => n.len == keys_of(link).len() && counted(n.left) && counted(n.right),
    }
}

/// The keys ascend from left to right, and every node holds its count.
pub open spec fn tree_ok(link: Option<Box<Node>>) -> bool {
    ascending(keys_of(link)) && counted(link)
}

/// The keys after `key` is put in.
pub open spec fn put_keys(keys: Seq<i32>, key: i32) -> Seq<i32> {
    if keys.contains(key) {
        keys
    } else {
        keys.insert(below(keys, key) as int, key)
    }
}

/// The values after `key` is given `value`.
pub open spec fn put_values(keys: Seq<i32>, values: Seq<i32>, key: i32, value: i32) -> Seq<i32> {
    if keys.contains(key) {
        values.update(below(keys, key) as int, value)
    } else {
        values.insert(below(keys, key) as int, value)
    }
}

/// The keys, or the values that go with them, after `key` is taken out.
pub open spec fn cut(keys: Seq<i32>, row: Seq<i32>, key: i32) -> Seq<i32> {
    if keys.contains(key) {
        row.remove(below(keys, key) as int)
    } else {
        row
    }
}

/// The greatest of the keys that is no greater than `key`.
pub open spec fn floor_of(keys: Seq<i32>, key: i32) -> Option<i32> {
    let c = below(keys, key) as int;
    if c < keys.len() && keys[c] == key {
        Some(key)
    } else if c > 0 {
        Some(keys[c - 1])
    } else {
        None
    }
}

/// Those of `keys` that are no less than `lo` and no greater than `hi`, in their order.
pub open spec fn within(keys: Seq<i32>, lo: i32, hi: i32) -> Seq<i32>
    decreases keys.len(),
{
    if keys.len() == 0 {
        Seq::empty()
    } else if lo <= keys.last() <= hi {
        within(keys.drop_last(), lo, hi).push(keys.last())
    } else {
        within(keys.drop_last(), lo, hi)
    }
}

/// The keys in a range of two sequences, one behind the other, are those of the first
/// and then those of the second.
pub proof fn lemma_within_concat(a: Seq<i32>, b: Seq<i32>, lo: i32, hi: i32)
    ensures
        within(a + b, lo, hi) == within(a, lo, hi) + within(b, lo, hi),
    decreases b.len(),
{
    if b.len() == 0 {
        assert(a + b =~= a);
        assert(within(a, lo, hi) + within(b, lo, hi) =~= within(a, lo, hi));
    } else {
        assert((a + b).drop_last() =~= a + b.drop_last());
        assert((a + b).last() == b.last());
        lemma_within_concat(a, b.drop_last(), lo, hi);
        if lo <= b.last() <= hi {
            assert((within(a, lo, hi) + within(b.drop_last(), lo, hi)).push(b.last()) =~= within(
                a,
                lo,
                hi,
            ) + within(b.drop_last(), lo, hi).push(b.last()));
        }
    }
}

/// Keys that all lie outside a range give nothing, and keys that all lie inside give
/// themselves.
pub proof fn lemma_within_all(a: Seq<i32>, lo: i32, hi: i32)
    ensures
        (forall|i: int| 0 <= i < a.len() ==> !(lo <= #[trigger] a[i] && a[i] <= hi)) ==> within(a, lo, hi)
            == Seq::<i32>::empty(),
        (forall|i: int| 0 <= i < a.len() ==> lo <= #[trigger] a[i] && a[i] <= hi) ==> within(a, lo, hi) == a,
    decreases a.len(),
{
    if a.len() > 0 {
        lemma_within_all(a.drop_last(), lo, hi);
        if forall|i: int| 0 <= i < a.len() ==> !(lo <= #[trigger] a[i] && a[i] <= hi) {
            assert forall|i: int| 0 <= i < a.drop_last().len() implies !(lo <= #[trigger] a.drop_last()[i]
                && a.drop_last()[i] <= hi) by {
                assert(a.drop_last()[i] == a[i]);
            }
        }
        if forall|i: int| 0 <= i < a.len() ==> lo <= #[trigger] a[i] && a[i] <= hi {
            assert forall|i: int| 0 <= i < a.drop_last().len() implies lo <= #[trigger] a.drop_last()[i]
                && a.drop_last()[i] <= hi by {
                assert(a.drop_last()[i] == a[i]);
            }
            assert(a.drop_last().push(a.last()) =~= a);
        }
    }
}

/// A tree has as many values as keys.
pub proof fn lemma_lengths(link: Option<Box<Node>>)
    ensures
        values_of(link).len() == keys_of(link).len(),
    decreases link,
{
    match link {
        None => {},
        Some(n) => {
            lemma_lengths(n.left);
            lemma_lengths(n.right);
        },
    }
}

/// The parts of ascending keys around one of them ascend, and lie below and above it.
pub proof fn lemma_parts(l: Seq<i32>, k: i32, r: Seq<i32>)
    requires
        ascending(l + seq![k] + r),
    ensures
        ascending(l),
        ascending(r),
        forall|i: int| 0 <= i < l.len() ==> l[i] < k,
        forall|j: int| 0 <= j < r.len() ==> r[j] > k,
{
    let all = l + seq![k] + r;
    assert(all[l.len() as int] == k);
    assert forall|i: int, j: int| 0 <= i < j < l.len() implies l[i] < l[j] by {
        assert(all[i] == l[i] && all[j] == l[j]);
    }
    assert forall|i: int, j: int| 0 <= i < j < r.len() implies r[i] < r[j] by {
        assert(all[l.len() + 1 + i] == r[i] && all[l.len() + 1 + j] == r[j]);
    }
    assert forall|i: int| 0 <= i < l.len() implies l[i] < k by {
        assert(all[i] == l[i]);
    }
    assert forall|j: int| 0 <= j < r.len() implies r[j] > k by {
        assert(all[l.len() + 1 + j] == r[j]);
    }
}

/// Ascending keys below a key, the key, and ascending keys above it ascend together.
pub proof fn lemma_whole(l: Seq<i32>, k: i32, r: Seq<i32>)
    requires
        ascending(l),
        ascending(r),
        forall|i: int| 0 <= i < l.len() ==> l[i] < k,
        forall|j: int| 0 <= j < r.len() ==> r[j] > k,
    ensures
        ascending(l + seq![k] + r),
{
    let all = l + seq![k] + r;
    assert forall|i: int, j: int| 0 <= i < j < all.len() implies all[i] < all[j] by {
        if j < l.len() {
            assert(l[i] < l[j]);
        } else if i > l.len() {
            assert(r[i - l.len() - 1] < r[j - l.len() - 1]);
        } else {
            if i < l.len() {
                assert(l[i] < k);
            }
            if j > l.len() {
                assert(r[j - l.len() - 1] > k);
            }
        }
    }
}

/// Among ascending keys, those before the place that `below` gives are less than `key`,
/// and the others are not.
pub proof fn lemma_below_facts(keys: Seq<i32>, key: i32)
    requires
        ascending(keys),
    ensures
        below(keys, key) <= keys.len(),
        forall|i: int| 0 <= i < below(keys, key) ==> keys[i] < key,
        forall|i: int| below(keys, key) <= i < keys.len() ==> keys[i] >= key,
        keys.contains(key) <==> (below(keys, key) < keys.len() && keys[below(keys, key) as int] == key),
    decreases keys.len(),
{
    if keys.len() > 0 {
        let rest = keys.drop_last();
        assert forall|i: int, j: int| 0 <= i < j < rest.len() implies rest[i] < rest[j] by {
            assert(keys[i] < keys[j]);
        }
        lemma_below_facts(rest, key);
        let b = below(keys, key) as int;
        assert forall|i: int| 0 <= i < b implies keys[i] < key by {
            if i < rest.len() {
                if keys.last() < key {
                    assert(keys[i] <= keys.last());
                } else {
                    assert(rest[i] == keys[i]);
                }
            }
        }
        assert forall|i: int| b <= i < keys.len() implies keys[i] >= key by {
            if i < rest.len() {
                assert(rest[i] == keys[i]);
                if keys.last() < key {
                    assert(below(rest, key) == rest.len()) by {
                        if below(rest, key) < rest.len() {
                            assert(rest[below(rest, key) as int] >= key);
                            assert(keys[below(rest, key) as int] < keys.last());
                        }
                    }
                }
            }
        }
        if keys.contains(key) {
            let i = choose|i: int| 0 <= i < keys.len() && keys[i] == key;
            if i < b {
                assert(keys[i] < key);
            }
            if i > b {
                assert(keys[b] < keys[i]);
            }
        }
    }
}

/// How many keys of a tree are less than `key`, in terms of the two subtrees, and
/// whether `key` is in it.
pub proof fn lemma_below_concat(l: Seq<i32>, k: i32, r: Seq<i32>, key: i32)
    requires
        ascending(l + seq![k] + r),
    ensures
        key < k ==> below(l + seq![k] + r, key) == below(l, key) && ((l + seq![k] + r).contains(key)
            <==> l.contains(key)),
        key == k ==> below(l + seq![k] + r, key) == l.len() && (l + seq![k] + r).contains(key),
        key > k ==> below(l + seq![k] + r, key) == l.len() + 1 + below(r, key) && ((l + seq![k]
            + r).contains(key) <==> r.contains(key)),
{
    let all = l + seq![k] + r;
    lemma_parts(l, k, r);
    lemma_below_facts(l, key);
    lemma_below_facts(r, key);
    lemma_below_facts(all, key);
    let idx: int = if key < k {
        below(l, key) as int
    } else if key == k {
        l.len() as int
    } else {
        (l.len() + 1 + below(r, key)) as int
    };
    assert forall|i: int| 0 <= i < idx implies all[i] < key by {
        if i < l.len() {
            assert(all[i] == l[i]);
        } else if i > l.len() {
            assert(all[i] == r[i - l.len() - 1]);
        }
    }
    assert forall|i: int| idx <= i < all.len() implies all[i] >= key by {
        if i < l.len() {
            assert(all[i] == l[i]);
        } else if i > l.len() {
            assert(all[i] == r[i - l.len() - 1]);
        }
    }
    lemma_below(all, key, idx);
    if idx < all.len() {
        if idx < l.len() {
            assert(all[idx] == l[idx]);
        } else if idx > l.len() {
            assert(all[idx] == r[idx - l.len() - 1]);
        }
    }
}

/// A tree that is not empty has a key.
pub proof fn lemma_some(link: Option<Box<Node>>)
    requires
        link.is_some(),
    ensures
        keys_of(link).len() > 0,
        values_of(link).len() > 0,
{
}

/// Putting a key into the keys of a tree is putting it into the part where it belongs.
pub proof fn lemma_put_concat(
    l: Seq<i32>,
    k: i32,
    r: Seq<i32>,
    lv: Seq<i32>,
    v: i32,
    rv: Seq<i32>,
    key: i32,
    value: i32,
)
    requires
        ascending(l + seq![k] + r),
        l.len() == lv.len(),
        r.len() == rv.len(),
    ensures
        key < k ==> put_keys(l + seq![k] + r, key) == put_keys(l, key) + seq![k] + r && put_values(
            l + seq![k] + r,
            lv + seq![v] + rv,
            key,
            value,
        ) == put_values(l, lv, key, value) + seq![v] + rv && ascending(
            put_keys(l, key) + seq![k] + r,
        ),
        key > k ==> put_keys(l + seq![k] + r, key) == l + seq![k] + put_keys(r, key) && put_values(
            l + seq![k] + r,
            lv + seq![v] + rv,
            key,
            value,
        ) == lv + seq![v] + put_values(r, rv, key, value) && ascending(
            l + seq![k] + put_keys(r, key),
        ),
        key == k ==> put_keys(l + seq![k] + r, key) == l + seq![k] + r && put_values(
            l + seq![k] + r,
            lv + seq![v] + rv,
            key,
            value,
        ) == lv + seq![value] + rv,
{
    let all = l + seq![k] + r;
    let allv = lv + seq![v] + rv;
    lemma_below_concat(l, k, r, key);
    lemma_parts(l, k, r);
    lemma_below_facts(l, key);
    lemma_below_facts(r, key);
    if key < k {
        let b = below(l, key) as int;
        let l2 = put_keys(l, key);
        if l.contains(key) {
            assert(allv.update(b, value) =~= lv.update(b, value) + seq![v] + rv);
        } else {
            assert(all.insert(b, key) =~= l.insert(b, key) + seq![k] + r);
            assert(allv.insert(b, value) =~= lv.insert(b, value) + seq![v] + rv);
            assert forall|i: int, j: int| 0 <= i < j < l2.len() implies l2[i] < l2[j] by {
                let i0 = if i < b { i } else { i - 1 };
                let j0 = if j < b { j } else { j - 1 };
                if i != b && j != b {
                    assert(l[i0] < l[j0]);
                }
            }
            assert forall|j: int| 0 <= j < l2.len() implies l2[j] < k by {
                if j < b {
                    assert(l2[j] == l[j]);
                } else if j > b {
                    assert(l2[j] == l[j - 1]);
                }
            }
        }
        lemma_whole(l2, k, r);
    } else if key > k {
        let b = below(r, key) as int;
        let r2 = put_keys(r, key);
        if r.contains(key) {
            assert(allv.update(l.len() + 1 + b, value) =~= lv + seq![v] + rv.update(b, value));
        } else {
            assert(all.insert(l.len() + 1 + b, key) =~= l + seq![k] + r.insert(b, key));
            assert(allv.insert(l.len() + 1 + b, value) =~= lv + seq![v] + rv.insert(b, value));
            assert forall|i: int, j: int| 0 <= i < j < r2.len() implies r2[i] < r2[j] by {
                let i0 = if i < b { i } else { i - 1 };
                let j0 = if j < b { j } else { j - 1 };
                if i != b && j != b {
                    assert(r[i0] < r[j0]);
                }
            }
            assert forall|j: int| 0 <= j < r2.len() implies r2[j] > k by {
                if j < b {
                    assert(r2[j] == r[j]);
                } else if j > b {
                    assert(r2[j] == r[j - 1]);
                }
            }
        }
        lemma_whole(l, k, r2);
    } else {
        assert(allv.update(l.len() as int, value) =~= lv + seq![value] + rv);
    }
}

/// Taking a key out of the keys of a tree is taking it out of the part where it is.
pub proof fn lemma_cut_concat(
    l: Seq<i32>,
    k: i32,
    r: Seq<i32>,
    lv: Seq<i32>,
    v: i32,
    rv: Seq<i32>,
    key: i32,
)
    requires
        ascending(l + seq![k] + r),
        l.len() == lv.len(),
        r.len() == rv.len(),
    ensures
        key < k ==> cut(l + seq![k] + r, l + seq![k] + r, key) == cut(l, l, key) + seq![k] + r && cut(
            l + seq![k] + r,
            lv + seq![v] + rv,
            key,
        ) == cut(l, lv, key) + seq![v] + rv && ascending(cut(l, l, key) + seq![k] + r),
        key > k ==> cut(l + seq![k] + r, l + seq![k] + r, key) == l + seq![k] + cut(r, r, key) && cut(
            l + seq![k] + r,
            lv + seq![v] + rv,
            key,
        ) == lv + seq![v] + cut(r, rv, key) && ascending(l + seq![k] + cut(r, r, key)),
        key == k ==> cut(l + seq![k] + r, l + seq![k] + r, key) == l + r && cut(
            l + seq![k] + r,
            lv + seq![v] + rv,
            key,
        ) == lv + rv,
        key == k && r.len() > 0 ==> l + r == l + seq![r[0]] + r.drop_first() && lv + rv == lv
            + seq![rv[0]] + rv.drop_first() && ascending(l + seq![r[0]] + r.drop_first()),
{
    let all = l + seq![k] + r;
    let allv = lv + seq![v] + rv;
    lemma_below_concat(l, k, r, key);
    lemma_parts(l, k, r);
    lemma_below_facts(l, key);
    lemma_below_facts(r, key);
    if key < k {
        let b = below(l, key) as int;
        let l2 = cut(l, l, key);
        if l.contains(key) {
            assert(all.remove(b) =~= l.remove(b) + seq![k] + r);
            assert(allv.remove(b) =~= lv.remove(b) + seq![v] + rv);
            assert forall|i: int, j: int| 0 <= i < j < l2.len() implies l2[i] < l2[j] by {
                assert(l[if i < b { i } else { i + 1 }] < l[if j < b { j } else { j + 1 }]);
            }
            assert forall|j: int| 0 <= j < l2.len() implies l2[j] < k by {
                assert(l2[j] == l[if j < b { j } else { j + 1 }]);
            }
        }
        lemma_whole(l2, k, r);
    } else if key > k {
        let b = below(r, key) as int;
        let r2 = cut(r, r, key);
        if r.contains(key) {
            assert(all.remove(l.len() + 1 + b) =~= l + seq![k] + r.remove(b));
            assert(allv.remove(l.len() + 1 + b) =~= lv + seq![v] + rv.remove(b));
            assert forall|i: int, j: int| 0 <= i < j < r2.len() implies r2[i] < r2[j] by {
                assert(r[if i < b { i } else { i + 1 }] < r[if j < b { j } else { j + 1 }]);
            }
            assert forall|j: int| 0 <= j < r2.len() implies r2[j] > k by {
                assert(r2[j] == r[if j < b { j } else { j + 1 }]);
            }
        }
        lemma_whole(l, k, r2);
    } else {
        assert(all.remove(l.len() as int) =~= l + r);
        assert(allv.remove(l.len() as int) =~= lv + rv);
        if r.len() > 0 {
            let rest = r.drop_first();
            assert(l + r =~= l + seq![r[0]] + rest);
            assert(lv + rv =~= lv + seq![rv[0]] + rv.drop_first());
            assert forall|i: int, j: int| 0 <= i < j < rest.len() implies rest[i] < rest[j] by {
                assert(r[i + 1] < r[j + 1]);
            }
            assert forall|j: int| 0 <= j < rest.len() implies rest[j] > r[0] by {
                assert(r[0] < r[j + 1]);
            }
            assert forall|i: int| 0 <= i < l.len() implies l[i] < r[0] by {
                assert(l[i] < k);
            }
            lemma_whole(l, r[0], rest);
        }
    }
}

/// Dropping the first key of a tree is dropping the first key of its left part, or the
/// key between the parts if there is no left part.
pub proof fn lemma_first_concat(
    l: Seq<i32>,
    k: i32,
    r: Seq<i32>,
    lv: Seq<i32>,
    v: i32,
    rv: Seq<i32>,
)
    requires
        ascending(l + seq![k] + r),
        l.len() == lv.len(),
        r.len() == rv.len(),
    ensures
        l.len() == 0 ==> (l + seq![k] + r).drop_first() == r && (lv + seq![v] + rv).drop_first()
            == rv,
        l.len() > 0 ==> (l + seq![k] + r).drop_first() == l.drop_first() + seq![k] + r && (lv
            + seq![v] + rv).drop_first() == lv.drop_first() + seq![v] + rv && ascending(
            l.drop_first() + seq![k] + r,
        ),
{
    lemma_parts(l, k, r);
    if l.len() == 0 {
        assert((l + seq![k] + r).drop_first() =~= r);
        assert((lv + seq![v] + rv).drop_first() =~= rv);
    } else {
        let rest = l.drop_first();
        assert((l + seq![k] + r).drop_first() =~= rest + seq![k] + r);
        assert((lv + seq![v] + rv).drop_first() =~= lv.drop_first() + seq![v] + rv);
        assert forall|i: int, j: int| 0 <= i < j < rest.len() implies rest[i] < rest[j] by {
            assert(l[i + 1] < l[j + 1]);
        }
        assert forall|j: int| 0 <= j < rest.len() implies rest[j] < k by {
            assert(rest[j] == l[j + 1]);
        }
        lemma_whole(rest, k, r);
    }
}

/// The number of pairs in a tree.
fn size_of(link: &Option<Box<Node>>) -> (r: usize)
    requires
        counted(*link),
    ensures
        r == keys_of(*link).len(),
{
    match link {
        None => 0,
        Some(n) => n.len,
    }
}

/// The value that a tree has for `key`.
fn get_from(link: &Option<Box<Node>>, key: i32) -> (r: Option<i32>)
    requires
        tree_ok(*link),
    ensures
        r == (if keys_of(*link).contains(key) {
            Some(values_of(*link)[below(keys_of(*link), key) as int])
        } else {
            None
        }),
    decreases *link,
{
    match link {
        None => None,
        Some(n) => {
            proof {
                lemma_below_concat(keys_of(n.left), n.key, keys_of(n.right), key);
                lemma_parts(keys_of(n.left), n.key, keys_of(n.right));
                lemma_lengths(n.left);
                lemma_lengths(n.right);
                lemma_below_facts(keys_of(n.left), key);
                lemma_below_facts(keys_of(n.right), key);
            }
            if n.key == key {
                Some(n.value)
            } else if n.key < key {
                get_from(&n.right, key)
            } else {
                get_from(&n.left, key)
            }
        },
    }
}

/// The tree after `key` is given `value`.
fn put_with(link: Option<Box<Node>>, key: i32, value: i32) -> (r: Option<Box<Node>>)
    requires
        tree_ok(link),
        keys_of(link).len() < usize::MAX,
    ensures
        tree_ok(r),
        keys_of(r) == put_keys(keys_of(link), key),
        values_of(r) == put_values(keys_of(link), values_of(link), key, value),
    decreases link,
{
    match link {
        None => {
            let n = Node::new(key, value, 1);
            proof {
                reveal_with_fuel(keys_of, 2);
                reveal_with_fuel(values_of, 2);
                reveal_with_fuel(counted, 2);
                assert(keys_of(Some(Box::new(n))) =~= seq![key]);
                assert(values_of(Some(Box::new(n))) =~= seq![value]);
                assert(Seq::<i32>::empty().insert(0, key) =~= seq![key]);
                assert(Seq::<i32>::empty().insert(0, value) =~= seq![value]);
            }
            Some(Box::new(n))
        },
        Some(node) => {
            let mut n = node;
            proof {
                lemma_lengths(n.left);
                lemma_lengths(n.right);
                lemma_parts(keys_of(n.left), n.key, keys_of(n.right));
                lemma_put_concat(
                    keys_of(n.left),
                    n.key,
                    keys_of(n.right),
                    values_of(n.left),
                    n.value,
                    values_of(n.right),
                    key,
                    value,
                );
            }
            let ghost before = keys_of(link);
            if key == n.key {
                n.value = value;
            } else if key > n.key {
                n.right = put_with(n.right, key, value);
            } else {
                n.left = put_with(n.left, key, value);
            }
            proof {
                let after = keys_of(n.left) + seq![n.key] + keys_of(n.right);
                assert(after == put_keys(before, key));
                lemma_below_facts(before, key);
                assert(after.len() <= before.len() + 1);
            }
            n.len = size_of(&n.left) + size_of(&n.right) + 1;
            Some(n)
        },
    }
}

/// The first pair of a tree that is not empty.
fn min_node(link: &Option<Box<Node>>) -> (r: (i32, i32))
    requires
        link.is_some(),
    ensures
        r.0 == keys_of(*link)[0],
        r.1 == values_of(*link)[0],
    decreases *link,
{
    let n = link.as_ref().unwrap();
    let ghost all = keys_of(n.left) + seq![n.key] + keys_of(n.right);
    let ghost allv = values_of(n.left) + seq![n.value] + values_of(n.right);
    proof {
        lemma_lengths(n.left);
    }
    if n.left.is_none() {
        proof {
            assert(keys_of(n.left).len() == 0);
            assert(all[0] == n.key && allv[0] == n.value);
        }
        (n.key, n.value)
    } else {
        proof {
            lemma_some(n.left);
            assert(all[0] == keys_of(n.left)[0] && allv[0] == values_of(n.left)[0]);
        }
        min_node(&n.left)
    }
}

/// The last key of a tree that is not empty.
fn max_node(link: &Option<Box<Node>>) -> (r: i32)
    requires
        link.is_some(),
    ensures
        r == keys_of(*link).last(),
    decreases *link,
{
    let n = link.as_ref().unwrap();
    let ghost all = keys_of(n.left) + seq![n.key] + keys_of(n.right);
    if n.right.is_none() {
        proof {
            assert(keys_of(n.right).len() == 0);
            assert(all[all.len() - 1] == n.key);
        }
        n.key
    } else {
        proof {
            lemma_some(n.right);
            assert(all[all.len() - 1] == keys_of(n.right)[keys_of(n.right).len() - 1]);
        }
        max_node(&n.right)
    }
}

/// The greatest key of a tree that is no greater than `key`.
fn floor_node(link: &Option<Box<Node>>, key: i32) -> (r: Option<i32>)
    requires
        tree_ok(*link),
    ensures
        r == floor_of(keys_of(*link), key),
    decreases *link,
{
    match link {
        None => None,
        Some(n) => {
            proof {
                lemma_below_concat(keys_of(n.left), n.key, keys_of(n.right), key);
                lemma_parts(keys_of(n.left), n.key, keys_of(n.right));
                lemma_below_facts(keys_of(n.left), key);
                lemma_below_facts(keys_of(n.right), key);
            }
            if key == n.key {
                Some(n.key)
            } else if key < n.key {
                floor_node(&n.left, key)
            } else {
                match floor_node(&n.right, key) {
                    Some(x) => Some(x),
                    None => Some(n.key),
                }
            }
        },
    }
}

/// The key of a tree that has `k` keys before it.
fn select_node(link: &Option<Box<Node>>, k: usize) -> (r: Option<i32>)
    requires
        tree_ok(*link),
    ensures
        r == (if k < keys_of(*link).len() {
            Some(keys_of(*link)[k as int])
        } else {
            None
        }),
    decreases *link,
{
    match link {
        None => None,
        Some(n) => {
            proof {
                lemma_parts(keys_of(n.left), n.key, keys_of(n.right));
            }
            let t = size_of(&n.left);
            if t == k {
                Some(n.key)
            } else if t > k {
                select_node(&n.left, k)
            } else {
                select_node(&n.right, k - t - 1)
            }
        },
    }
}

/// The number of keys of a tree that are less than `key`.
fn rank_from(link: &Option<Box<Node>>, key: i32) -> (r: usize)
    requires
        tree_ok(*link),
    ensures
        r == below(keys_of(*link), key),
    decreases *link,
{
    match link {
        None => 0,
        Some(n) => {
            proof {
                lemma_below_concat(keys_of(n.left), n.key, keys_of(n.right), key);
                lemma_parts(keys_of(n.left), n.key, keys_of(n.right));
                lemma_below_facts(keys_of(n.right), key);
            }
            if key == n.key {
                size_of(&n.left)
            } else if key < n.key {
                rank_from(&n.left, key)
            } else {
                1 + size_of(&n.left) + rank_from(&n.right, key)
            }
        },
    }
}

/// The tree without its first pair.
fn delete_min_node(link: Option<Box<Node>>) -> (r: Option<Box<Node>>)
    requires
        tree_ok(link),
    ensures
        tree_ok(r),
        keys_of(r) == (if keys_of(link).len() > 0 {
            keys_of(link).drop_first()
        } else {
            keys_of(link)
        }),
        values_of(r) == (if keys_of(link).len() > 0 {
            values_of(link).drop_first()
        } else {
            values_of(link)
        }),
    decreases link,
{
    match link {
        None => None,
        Some(node) => {
            let mut n = node;
            proof {
                lemma_lengths(n.left);
                lemma_lengths(n.right);
                lemma_parts(keys_of(n.left), n.key, keys_of(n.right));
                lemma_first_concat(
                    keys_of(n.left),
                    n.key,
                    keys_of(n.right),
                    values_of(n.left),
                    n.value,
                    values_of(n.right),
                );
            }
            if n.left.is_none() {
                n.right
            } else {
                proof {
                    lemma_some(n.left);
                    assert(counted(link));
                }
                n.left = delete_min_node(n.left);
                n.len = size_of(&n.left) + size_of(&n.right) + 1;
                Some(n)
            }
        },
    }
}

/// The tree without `key`. A node with two subtrees is replaced by the first node of its
/// right subtree.
fn delete_node(link: Option<Box<Node>>, key: i32) -> (r: Option<Box<Node>>)
    requires
        tree_ok(link),
    ensures
        tree_ok(r),
        keys_of(r) == cut(keys_of(link), keys_of(link), key),
        values_of(r) == cut(keys_of(link), values_of(link), key),
    decreases link,
{
    match link {
        None => None,
        Some(node) => {
            let mut n = node;
            proof {
                lemma_lengths(n.left);
                lemma_lengths(n.right);
                lemma_parts(keys_of(n.left), n.key, keys_of(n.right));
                lemma_cut_concat(
                    keys_of(n.left),
                    n.key,
                    keys_of(n.right),
                    values_of(n.left),
                    n.value,
                    values_of(n.right),
                    key,
                );
            }
            let ghost before = keys_of(link);
            if key < n.key {
                n.left = delete_node(n.left, key);
            } else if key > n.key {
                n.right = delete_node(n.right, key);
            } else {
                if n.left.is_none() {
                    proof {
                        assert(keys_of(n.left) + keys_of(n.right) =~= keys_of(n.right));
                        assert(values_of(n.left) + values_of(n.right) =~= values_of(n.right));
                    }
                    return n.right;
                }
                if n.right.is_none() {
                    proof {
                        assert(keys_of(n.left) + keys_of(n.right) =~= keys_of(n.left));
                        assert(values_of(n.left) + values_of(n.right) =~= values_of(n.left));
                    }
                    return n.left;
                }
                proof {
                    lemma_some(n.right);
                }
                let first = min_node(&n.right);
                n.right = delete_min_node(n.right);
                n.key = first.0;
                n.value = first.1;
            }
            proof {
                let after = keys_of(n.left) + seq![n.key] + keys_of(n.right);
                assert(after == cut(before, before, key));
                lemma_below_facts(before, key);
                assert(after.len() <= before.len());
                assert(before.len() <= usize::MAX) by {
                    assert(counted(link));
                }
            }
            n.len = size_of(&n.left) + size_of(&n.right) + 1;
            Some(n)
        },
    }
}

/// Puts the keys of a tree that lie in the range from `lo` to `hi` to the front of `q`,
/// one after the other in ascending order.
fn keys_from_impl(link: &Option<Box<Node>>, q: &mut VecDeque<i32>, lo: i32, hi: i32)
    requires
        tree_ok(*link),
    ensures
        final(q)@ == within(keys_of(*link), lo, hi).reverse() + old(q)@,
    decreases *link,
{
    match link {
        None => {
            proof {
                assert(Seq::<i32>::empty().reverse() + q@ =~= q@);
            }
        },
        Some(n) => {
            let ghost l = keys_of(n.left);
            let ghost r = keys_of(n.right);
            let ghost q0 = q@;
            proof {
                lemma_parts(l, n.key, r);
                lemma_within_concat(l + seq![n.key], r, lo, hi);
                lemma_within_concat(l, seq![n.key], lo, hi);
                lemma_within_all(l, lo, hi);
                lemma_within_all(r, lo, hi);
                lemma_within_all(seq![n.key], lo, hi);
            }
            if n.key > lo {
                keys_from_impl(&n.left, q, lo, hi);
            }
            if n.key >= lo && n.key <= hi {
                q.push_front(n.key);
            }
            if n.key < hi {
                keys_from_impl(&n.right, q, lo, hi);
            }
            proof {
                let a = within(l, lo, hi);
                let m = within(seq![n.key], lo, hi);
                let b = within(r, lo, hi);
                assert((a + m + b).reverse() =~= b.reverse() + m.reverse() + a.reverse());
                assert(m.reverse() =~= m);
                assert(q@ =~= (a + m + b).reverse() + q0);
            }
        },
    }
}

/// A symbol table that keeps its pairs in a binary search tree.
pub struct BST {
    root: Option<Box<Node>>,
}

impl View for BST {
    type V = Map<i32, i32>;

    closed spec fn view(&self) -> Map<i32, i32> {
        table(keys_of(self.root), values_of(self.root))
    }
}

impl BST {
    /// The keys in ascending order.
    pub closed spec fn keys_view(&self) -> Seq<i32> {
        keys_of(self.root)
    }

    /// The representation invariant: the keys ascend from left to right in the tree, and
    /// every node holds the number of pairs at and below it.
    pub closed spec fn wf(&self) -> bool {
        tree_ok(self.root)
    }

    /// The keys are in ascending order, and they are the keys of the table.
    pub proof fn lemma_keys(&self)
        requires
            self.wf(),
        ensures
            ascending(self.keys_view()),
            forall|k: i32| self@.contains_key(k) == self.keys_view().contains(k),
    {
    }

    /// An empty table.
    pub fn new() -> (t: BST)
        ensures
            t.wf(),
            t@ == Map::<i32, i32>::empty(),
            t.keys_view().len() == 0,
    {
        let t = BST { root: None };
        proof {
            assert(t@ =~= Map::<i32, i32>::empty());
        }
        t
    }

    /// Number of keys.
    pub fn size(&self) -> (r: usize)
        requires
            self.wf(),
        ensures
            r == self.keys_view().len(),
    {
        size_of(&self.root)
    }

    /// The value of `key`, if it has one.
    pub fn get(&self, key: i32) -> (r: Option<i32>)
        requires
            self.wf(),
        ensures
            r == lookup(self@, key),
    {
        proof {
            let keys = keys_of(self.root);
            lemma_ascending_distinct(keys);
            lemma_below_facts(keys, key);
            if keys.contains(key) {
                lemma_place(keys, below(keys, key) as int);
            }
        }
        get_from(&self.root, key)
    }

    /// Gives `key` the value `value`.
    pub fn put(&mut self, key: i32, value: i32)
        requires
            old(self).wf(),
            old(self).keys_view().len() < usize::MAX,
        ensures
            final(self).wf(),
            final(self)@ == old(self)@.insert(key, value),
            final(self).keys_view() == put_keys(old(self).keys_view(), key),
    {
        let root = self.root.take();
        self.root = put_with(root, key, value);
        proof {
            let keys = keys_of(old(self).root);
            let values = values_of(old(self).root);
            lemma_lengths(old(self).root);
            lemma_ascending_distinct(keys);
            lemma_below_facts(keys, key);
            if keys.contains(key) {
                lemma_table_update(keys, values, below(keys, key) as int, value);
            } else {
                lemma_table_insert(keys, values, below(keys, key) as int, key, value);
            }
        }
    }

    /// The least key.
    pub fn min(&self) -> (r: Option<i32>)
        requires
            self.wf(),
        ensures
            r == (if self.keys_view().len() > 0 {
                Some(self.keys_view()[0])
            } else {
                None
            }),
    {
        if self.root.is_none() {
            None
        } else {
            Some(min_node(&self.root).0)
        }
    }

    /// The greatest key.
    pub fn max(&self) -> (r: Option<i32>)
        requires
            self.wf(),
        ensures
            r == (if self.keys_view().len() > 0 {
                Some(self.keys_view().last())
            } else {
                None
            }),
    {
        if self.root.is_none() {
            None
        } else {
            Some(max_node(&self.root))
        }
    }

    /// The greatest key that is no greater than `key`.
    pub fn floor(&self, key: i32) -> (r: Option<i32>)
        requires
            self.wf(),
        ensures
            r == floor_of(self.keys_view(), key),
    {
        floor_node(&self.root, key)
    }

    /// The key that has `k` keys before it.
    pub fn select(&self, k: usize) -> (r: Option<i32>)
        requires
            self.wf(),
        ensures
            r == (if k < self.keys_view().len() {
                Some(self.keys_view()[k as int])
            } else {
                None
            }),
    {
        select_node(&self.root, k)
    }

    /// The number of keys less than `key`.
    pub fn rank(&self, key: i32) -> (r: usize)
        requires
            self.wf(),
        ensures
            r == below(self.keys_view(), key),
    {
        rank_from(&self.root, key)
    }

    /// All keys in descending order.
    pub fn keys(&self) -> (q: VecDeque<i32>)
        requires
            self.wf(),
        ensures
            q@ == self.keys_view().reverse(),
    {
        match (self.min(), self.max()) {
            (Some(lo), Some(hi)) => {
                proof {
                    let keys = keys_of(self.root);
                    assert forall|i: int| 0 <= i < keys.len() implies lo <= #[trigger] keys[i] && keys[i] <= hi by {
                        if i > 0 {
                            assert(keys[0] < keys[i]);
                        }
                        if i < keys.len() - 1 {
                            assert(keys[i] < keys[keys.len() - 1]);
                        }
                    }
                    lemma_within_all(keys, lo, hi);
                }
                self.keys_from((lo, hi))
            },
            _ => {
                proof {
                    assert(self.keys_view().reverse() =~= Seq::<i32>::empty());
                }
                VecDeque::new()
            },
        }
    }

    /// The keys from `scope.0` to `scope.1`, in descending order.
    pub fn keys_from(&self, scope: (i32, i32)) -> (q: VecDeque<i32>)
        requires
            self.wf(),
        ensures
            q@ == within(self.keys_view(), scope.0, scope.1).reverse(),
    {
        let mut q = VecDeque::new();
        keys_from_impl(&self.root, &mut q, scope.0, scope.1);
        proof {
            assert(within(self.keys_view(), scope.0, scope.1).reverse() + Seq::<i32>::empty()
                =~= within(self.keys_view(), scope.0, scope.1).reverse());
        }
        q
    }

    /// Takes the least key and its value out of the table.
    pub fn delete_min(&mut self)
        requires
            old(self).wf(),
        ensures
            final(self).wf(),
            final(self).keys_view() == (if old(self).keys_view().len() > 0 {
                old(self).keys_view().drop_first()
            } else {
                old(self).keys_view()
            }),
            final(self)@ == (if old(self).keys_view().len() > 0 {
                old(self)@.remove(old(self).keys_view()[0])
            } else {
                old(self)@
            }),
    {
        let root = self.root.take();
        self.root = delete_min_node(root);
        proof {
            let keys = keys_of(old(self).root);
            let values = values_of(old(self).root);
            lemma_lengths(old(self).root);
            lemma_ascending_distinct(keys);
            if keys.len() > 0 {
                lemma_table_remove(keys, values, 0);
                assert(keys.remove(0) =~= keys.drop_first());
                assert(values.remove(0) =~= values.drop_first());
            }
        }
    }

    /// Takes `key` and its value out of the table.
    pub fn delete(&mut self, key: i32)
        requires
            old(self).wf(),
        ensures
            final(self).wf(),
            final(self)@ == old(self)@.remove(key),
            final(self).keys_view() == cut(old(self).keys_view(), old(self).keys_view(), key),
    {
        let root = self.root.take();
        self.root = delete_node(root, key);
        proof {
            let keys = keys_of(old(self).root);
            let values = values_of(old(self).root);
            lemma_lengths(old(self).root);
            lemma_ascending_distinct(keys);
            lemma_below_facts(keys, key);
            if keys.contains(key) {
                lemma_table_remove(keys, values, below(keys, key) as int);
            } else {
                assert(old(self)@ =~= old(self)@.remove(key));
            }
        }
    }
}

} // verus!
