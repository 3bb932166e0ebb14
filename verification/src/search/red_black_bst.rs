//! A symbol table on a left-leaning red-black tree.

use vstd::prelude::*;
use crate::search::bst::{
    cut,
    lemma_below_concat,
    lemma_below_facts,
    lemma_cut_concat,
    lemma_first_concat,
    lemma_parts,
    lemma_put_concat,
    lemma_whole,
    put_keys,
    put_values,
};
use crate::search::{
    ascending,
    below,
    lemma_ascending_distinct,
    lemma_place,
    lemma_table_insert,
    lemma_table_remove,
    lemma_table_update,
    lookup,
    table,
};

verus! {

/// The colour of the link from a node to its parent.
pub enum Color {
    Red,
    Black,
}

/// A node of the tree: a pair, the two subtrees, the number of pairs at and below the
/// node, and the colour of the link to its parent.
pub struct Node {
    pub key: i32,
    pub value: i32,
    pub left: Option<Box<Node>>,
    pub right: Option<Box<Node>>,
    pub len: usize,
    pub color: Color,
}

impl Node {
    /// A node without subtrees.
    pub fn new(key: i32, value: i32, len: usize, color: Color) -> (n: Node)
        ensures
            n.key == key,
            n.value == value,
            n.len == len,
            n.color == color,
            n.left.is_none(),
            n.right.is_none(),
    {
        Node { key, value, left: None, right: None, len, color }
    }
}

/// The keys of a tree from left to right.
pub open spec fn keys_of(link: Option<Box<Node>>) -> Seq<i32>
    decreases link,
{
    match link {
        None => Seq::empty(),
        Some(n) => keys_of(n.left) + seq![n.key] + keys_of(n.right),
    }
}

/// The values of a tree from left to right.
pub open spec fn values_of(link: Option<Box<Node>>) -> Seq<i32>
    decreases link,
{
    match link {
        None => Seq::empty(),
        Some(n) => values_of(n.left) + seq![n.value] + values_of(n.right),
    }
}

/// Every node holds the number of pairs at and below it.
pub open spec fn counted(link: Option<Box<Node>>) -> bool
    decreases link,
{
    match link {
        None => true,
        Some(n) => n.len == keys_of(link).len() && counted(n.left) && counted(n.right),
    }
}

/// Every node below the root holds the number of pairs at and below it.
pub open spec fn kids_counted(link: Option<Box<Node>>) -> bool {
    match link {
        None => true,
        Some(n) => counted(n.left) && counted(n.right),
    }
}

/// Two trees hold the same pairs in the same order.
pub open spec fn same_pairs(a: Option<Box<Node>>, b: Option<Box<Node>>) -> bool {
    keys_of(a) == keys_of(b) && values_of(a) == values_of(b)
}

/// The keys ascend from left to right, and every node holds its count.
pub open spec fn tree_ok(link: Option<Box<Node>>) -> bool {
    ascending(keys_of(link)) && counted(link)
}

/// The key at the root of a tree that is not empty.
pub open spec fn top(link: Option<Box<Node>>) -> i32 {
    link.unwrap().key
}

/// A tree has as many values as keys.
pub proof fn lemma_lengths(link: Option<Box<Node>>)
    ensures
        values_of(link).len() == keys_of(link).len(),
    decreases link,
{
    match link {
        None => {},
        Some(n) => {
            lemma_lengths(n.left);
            lemma_lengths(n.right);
        },
    }
}

/// The key at the root is one of the keys, and a tree with a root has a key.
pub proof fn lemma_top(link: Option<Box<Node>>)
    requires
        link.is_some(),
    ensures
        keys_of(link).contains(top(link)),
        keys_of(link).len() > 0,
        values_of(link).len() > 0,
{
    let n = link.unwrap();
    let all = keys_of(n.left) + seq![n.key] + keys_of(n.right);
    assert(all[keys_of(n.left).len() as int] == n.key);
}

/// In a tree with ascending keys the key at the root of the left subtree is less than
/// the key at the root, and that of the right subtree is greater.
pub proof fn lemma_sides(link: Option<Box<Node>>)
    requires
        link.is_some(),
        ascending(keys_of(link)),
    ensures
        link.unwrap().left.is_some() ==> top(link.unwrap().left) < top(link),
        link.unwrap().right.is_some() ==> top(link.unwrap().right) > top(link),
{
    let n = link.unwrap();
    lemma_parts(keys_of(n.left), n.key, keys_of(n.right));
    if n.left.is_some() {
        lemma_top(n.left);
        let i = keys_of(n.left).index_of(top(n.left));
        assert(keys_of(n.left)[i] < n.key);
    }
    if n.right.is_some() {
        lemma_top(n.right);
        let i = keys_of(n.right).index_of(top(n.right));
        assert(keys_of(n.right)[i] > n.key);
    }
}

/// Whether the link to a tree is red. The link to an empty tree is black.
fn is_red(link: &Option<Box<Node>>) -> (r: bool)
    ensures
        r ==> link.is_some(),
{
    match link {
        None => false,
        Some(n) => match n.color {
            Color::Red => true,
            Color::Black => false,
        },
    }
}

/// Whether the link to the left subtree is red.
fn left_is_red(h: &Option<Box<Node>>) -> (r: bool)
    ensures
        r ==> h.is_some() && h.unwrap().left.is_some(),
{
    match h {
        None => false,
        Some(n) => is_red(&n.left),
    }
}

/// Whether the link to the right subtree is red.
fn right_is_red(h: &Option<Box<Node>>) -> (r: bool)
    ensures
        r ==> h.is_some() && h.unwrap().right.is_some(),
{
    match h {
        None => false,
        Some(n) => is_red(&n.right),
    }
}

/// Whether the left link of the left subtree is red.
fn left_left_is_red(h: &Option<Box<Node>>) -> (r: bool)
    ensures
        r ==> h.is_some() && h.unwrap().left.is_some(),
{
    match h {
        None => false,
        Some(n) => left_is_red(&n.left),
    }
}

/// Whether the left link of the right subtree is red.
fn right_left_is_red(h: &Option<Box<Node>>) -> (r: bool)
    ensures
        r ==> h.is_some() && h.unwrap().right.is_some() && h.unwrap().right.unwrap().left.is_some(),
{
    match h {
        None => false,
        Some(n) => left_is_red(&n.right),
    }
}

/// Whether a tree has a left subtree.
fn has_left(h: &Option<Box<Node>>) -> (r: bool)
    ensures
        r == (h.is_some() && h.unwrap().left.is_some()),
{
    match h {
        None => false,
        Some(n) => n.left.is_some(),
    }
}

/// The same colour once more.
fn color_of(c: &Color) -> (r: Color)
    ensures
        r == *c,
{
    match c {
        Color::Red => Color::Red,
        Color::Black => Color::Black,
    }
}

/// The tree with the link to it in the given colour.
fn set_color(link: Option<Box<Node>>, color: Color) -> (r: Option<Box<Node>>)
    ensures
        same_pairs(r, link),
        counted(link) ==> counted(r),
        kids_counted(link) ==> kids_counted(r),
        r.is_some() == link.is_some(),
        link.is_some() ==> r.unwrap().left == link.unwrap().left && r.unwrap().right == link.unwrap().right
            && r.unwrap().key == link.unwrap().key,
{
    match link {
        None => None,
        Some(node) => {
            let mut n = node;
            n.color = color;
            Some(n)
        },
    }
}

/// Number of pairs in a tree.
fn size_of(link: &Option<Box<Node>>) -> (r: usize)
    requires
        counted(*link),
    ensures
        r == keys_of(*link).len(),
{
    match link {
        None => 0,
        Some(n) => n.len,
    }
}

/// Two rows with one entry between them, in front of another entry and a third row, are
/// the first row and entry in front of the second row, the other entry and the third row.
pub proof fn lemma_turn(a: Seq<i32>, h: i32, b: Seq<i32>, x: i32, c: Seq<i32>)
    ensures
        (a + seq![h] + b) + seq![x] + c == a + seq![h] + (b + seq![x] + c),
        (a + seq![h] + b).len() == a.len() + 1 + b.len(),
        (a + seq![h] + (b + seq![x] + c)).len() == a.len() + b.len() + c.len() + 2,
        (b + seq![x] + c).len() == b.len() + 1 + c.len(),
{
    assert((a + seq![h] + b) + seq![x] + c =~= a + seq![h] + (b + seq![x] + c));
}

/// Turns a right link into a left one: the right subtree comes to the top, and the
/// tree that was at the top becomes its left subtree, under a red link.
fn rotate_left(h: Option<Box<Node>>) -> (r: Option<Box<Node>>)
    requires
        h.is_some(),
        h.unwrap().right.is_some(),
        kids_counted(h),
        keys_of(h).len() <= usize::MAX,
    ensures
        r.is_some(),
        same_pairs(r, h),
        kids_counted(r),
        counted(h) ==> counted(r),
        top(r) == top(h.unwrap().right),
        r.unwrap().left.is_some(),
{
    let ghost x0 = h.unwrap().right;
    let ghost a = keys_of(h.unwrap().left);
    let ghost b = keys_of(x0.unwrap().left);
    let ghost c = keys_of(x0.unwrap().right);
    let ghost av = values_of(h.unwrap().left);
    let ghost bv = values_of(x0.unwrap().left);
    let ghost cv = values_of(x0.unwrap().right);
    let ghost hk = h.unwrap().key;
    let ghost hv = h.unwrap().value;
    let ghost xk = x0.unwrap().key;
    let ghost xv = x0.unwrap().value;
    proof {
        assert(keys_of(x0) == b + seq![xk] + c);
        assert(values_of(x0) == bv + seq![xv] + cv);
        assert(keys_of(h) == a + seq![hk] + keys_of(x0));
        assert(values_of(h) == av + seq![hv] + values_of(x0));
        assert(counted(x0));
        assert(counted(x0.unwrap().left) && counted(x0.unwrap().right));
        lemma_turn(a, hk, b, xk, c);
        lemma_turn(av, hv, bv, xv, cv);
    }
    let mut ph = h.unwrap();
    let mut px = ph.right.take().unwrap();
    ph.right = px.left.take();
    px.color = color_of(&ph.color);
    ph.color = Color::Red;
    px.len = ph.len;
    ph.len = 1 + size_of(&ph.left) + size_of(&ph.right);
    proof {
        assert(keys_of(Some(ph)) == a + seq![hk] + b);
        assert(values_of(Some(ph)) == av + seq![hv] + bv);
        assert(counted(Some(ph)));
    }
    px.left = Some(ph);
    proof {
        assert(keys_of(Some(px)) == keys_of(px.left) + seq![xk] + c);
        assert(values_of(Some(px)) == values_of(px.left) + seq![xv] + cv);
    }
    Some(px)
}

/// Turns a left link into a right one: the left subtree comes to the top, and the tree
/// that was at the top becomes its right subtree, under a red link.
fn rotate_right(h: Option<Box<Node>>) -> (r: Option<Box<Node>>)
    requires
        h.is_some(),
        h.unwrap().left.is_some(),
        kids_counted(h),
        keys_of(h).len() <= usize::MAX,
    ensures
        r.is_some(),
        same_pairs(r, h),
        kids_counted(r),
        counted(h) ==> counted(r),
        top(r) == top(h.unwrap().left),
        r.unwrap().right.is_some(),
{
    let ghost x0 = h.unwrap().left;
    let ghost a = keys_of(x0.unwrap().left);
    let ghost b = keys_of(x0.unwrap().right);
    let ghost c = keys_of(h.unwrap().right);
    let ghost av = values_of(x0.unwrap().left);
    let ghost bv = values_of(x0.unwrap().right);
    let ghost cv = values_of(h.unwrap().right);
    let ghost hk = h.unwrap().key;
    let ghost hv = h.unwrap().value;
    let ghost xk = x0.unwrap().key;
    let ghost xv = x0.unwrap().value;
    proof {
        assert(keys_of(x0) == a + seq![xk] + b);
        assert(values_of(x0) == av + seq![xv] + bv);
        assert(keys_of(h) == keys_of(x0) + seq![hk] + c);
        assert(values_of(h) == values_of(x0) + seq![hv] + cv);
        assert(counted(x0));
        assert(counted(x0.unwrap().left) && counted(x0.unwrap().right));
        lemma_turn(a, xk, b, hk, c);
        lemma_turn(av, xv, bv, hv, cv);
    }
    let mut ph = h.unwrap();
    let mut px = ph.left.take().unwrap();
    ph.left = px.right.take();
    px.color = color_of(&ph.color);
    ph.color = Color::Red;
    px.len = ph.len;
    ph.len = 1 + size_of(&ph.left) + size_of(&ph.right);
    proof {
        assert(keys_of(Some(ph)) == b + seq![hk] + c);
        assert(values_of(Some(ph)) == bv + seq![hv] + cv);
        assert(counted(Some(ph)));
    }
    px.right = Some(ph);
    proof {
        assert(keys_of(Some(px)) == a + seq![xk] + keys_of(px.right));
        assert(values_of(Some(px)) == av + seq![xv] + values_of(px.right));
    }
    Some(px)
}

/// Gives the link to the tree the first colour and the links to its subtrees the second.
fn paint(h: Option<Box<Node>>, above: Color, under: Color) -> (r: Option<Box<Node>>)
    ensures
        same_pairs(r, h),
        counted(h) ==> counted(r),
        kids_counted(h) ==> kids_counted(r),
        r.is_some() == h.is_some(),
        h.is_some() ==> top(r) == top(h) && r.unwrap().left.is_some() == h.unwrap().left.is_some()
            && r.unwrap().right.is_some() == h.unwrap().right.is_some(),
{
    match h {
        None => None,
        Some(node) => {
            let mut n = node;
            n.color = above;
            let l = n.left.take();
            n.left = set_color(l, color_of(&under));
            let r = n.right.take();
            n.right = set_color(r, under);
            Some(n)
        },
    }
}

/// Passes a red link up: the link to the tree becomes red, the links to its subtrees
/// black.
fn flip_colors(h: Option<Box<Node>>) -> (r: Option<Box<Node>>)
    ensures
        same_pairs(r, h),
        counted(h) ==> counted(r),
        kids_counted(h) ==> kids_counted(r),
        r.is_some() == h.is_some(),
        h.is_some() ==> top(r) == top(h) && r.unwrap().left.is_some() == h.unwrap().left.is_some()
            && r.unwrap().right.is_some() == h.unwrap().right.is_some(),
{
    paint(h, Color::Red, Color::Black)
}

/// Passes a red link down: the link to the tree becomes black, the links to its
/// subtrees red.
fn flip_colors_for_del(h: Option<Box<Node>>) -> (r: Option<Box<Node>>)
    ensures
        same_pairs(r, h),
        counted(h) ==> counted(r),
        kids_counted(h) ==> kids_counted(r),
        r.is_some() == h.is_some(),
        h.is_some() ==> top(r) == top(h) && r.unwrap().left.is_some() == h.unwrap().left.is_some()
            && r.unwrap().right.is_some() == h.unwrap().right.is_some(),
{
    paint(h, Color::Black, Color::Red)
}

/// Sets the count at the root from the counts of the subtrees.
fn update_size(h: Option<Box<Node>>) -> (r: Option<Box<Node>>)
    requires
        kids_counted(h),
        keys_of(h).len() <= usize::MAX,
    ensures
        same_pairs(r, h),
        counted(r),
        r.is_some() == h.is_some(),
{
    match h {
        None => None,
        Some(node) => {
            let mut n = node;
            n.len = 1 + size_of(&n.left) + size_of(&n.right);
            Some(n)
        },
    }
}

/// What is left of two rows with an entry between them when the last entry goes.
pub proof fn lemma_last_concat(l: Seq<i32>, k: i32, r: Seq<i32>, lv: Seq<i32>, v: i32, rv: Seq<i32>)
    requires
        ascending(l + seq![k] + r),
        l.len() == lv.len(),
        r.len() == rv.len(),
    ensures
        r.len() == 0 ==> (l + seq![k] + r).drop_last() == l && (lv + seq![v] + rv).drop_last() == lv,
        r.len() > 0 ==> (l + seq![k] + r).drop_last() == l + seq![k] + r.drop_last() && (lv + seq![v]
            + rv).drop_last() == lv + seq![v] + rv.drop_last() && ascending(l + seq![k] + r.drop_last()),
{
    lemma_parts(l, k, r);
    if r.len() == 0 {
        assert((l + seq![k] + r).drop_last() =~= l);
        assert((lv + seq![v] + rv).drop_last() =~= lv);
    } else {
        let rest = r.drop_last();
        assert((l + seq![k] + r).drop_last() =~= l + seq![k] + rest);
        assert((lv + seq![v] + rv).drop_last() =~= lv + seq![v] + rv.drop_last());
        assert forall|i: int, j: int| 0 <= i < j < rest.len() implies rest[i] < rest[j] by {
            assert(r[i] < r[j]);
        }
        assert forall|j: int| 0 <= j < rest.len() implies rest[j] > k by {
            assert(rest[j] == r[j]);
        }
        lemma_whole(l, k, rest);
    }
}

/// Restores the shape on the way back up: right-leaning red links are turned, red
/// links in a row are split, and the count at the root is set.
fn balance(h: Option<Box<Node>>) -> (r: Option<Box<Node>>)
    requires
        kids_counted(h),
        keys_of(h).len() <= usize::MAX,
    ensures
        same_pairs(r, h),
        counted(r),
        r.is_some() == h.is_some(),
{
    let mut t = h;
    if right_is_red(&t) {
        t = rotate_left(t);
    }
    if right_is_red(&t) && !left_is_red(&t) {
        t = rotate_left(t);
    }
    if left_is_red(&t) && left_left_is_red(&t) {
        t = rotate_right(t);
    }
    if left_is_red(&t) && right_is_red(&t) {
        t = flip_colors(t);
    }
    update_size(t)
}

/// Makes the left link, or one below it, red before the search goes down to the left.
fn move_red_left(h: Option<Box<Node>>) -> (r: Option<Box<Node>>)
    requires
        h.is_some(),
        tree_ok(h),
    ensures
        r.is_some(),
        same_pairs(r, h),
        counted(r),
        top(r) >= top(h),
        h.unwrap().left.is_some() ==> r.unwrap().left.is_some(),
{
    let mut t = flip_colors_for_del(h);
    if right_left_is_red(&t) {
        let ghost t0 = t;
        let mut n = t.unwrap();
        proof {
            lemma_parts(keys_of(n.left), n.key, keys_of(n.right));
            assert(keys_of(t0) == keys_of(n.left) + seq![n.key] + keys_of(n.right));
            assert(counted(n.right));
        }
        let ghost right0 = n.right;
        n.right = rotate_right(n.right);
        proof {
            lemma_top(n.right);
            let i = keys_of(right0).index_of(top(n.right));
            assert(keys_of(right0)[i] > n.key);
            assert(keys_of(Some(n)) == keys_of(t0));
            assert(values_of(Some(n)) == values_of(t0));
        }
        t = rotate_left(Some(n));
    }
    t
}

/// Makes the right link, or one below it, red before the search goes down to the
/// right.
fn move_red_right(h: Option<Box<Node>>) -> (r: Option<Box<Node>>)
    requires
        h.is_some(),
        tree_ok(h),
    ensures
        r.is_some(),
        same_pairs(r, h),
        counted(r),
        top(r) <= top(h),
        r.unwrap().right.is_some() || (top(r) == top(h) && h.unwrap().right.is_none()),
{
    let mut t = flip_colors_for_del(h);
    if !left_left_is_red(&t) && has_left(&t) {
        proof {
            lemma_sides(t);
        }
        t = rotate_right(t);
    }
    t
}

/// The tree without its first pair. A node without a left subtree gives way to its
/// right subtree.
fn del_min_node(h: Option<Box<Node>>) -> (r: Option<Box<Node>>)
    requires
        tree_ok(h),
    ensures
        tree_ok(r),
        keys_of(r) == (if keys_of(h).len() > 0 {
            keys_of(h).drop_first()
        } else {
            keys_of(h)
        }),
        values_of(r) == (if keys_of(h).len() > 0 {
            values_of(h).drop_first()
        } else {
            values_of(h)
        }),
    decreases keys_of(h).len(),
{
    match h {
        None => None,
        Some(node) => {
            proof {
                lemma_lengths(node.left);
                lemma_lengths(node.right);
                lemma_parts(keys_of(node.left), node.key, keys_of(node.right));
                lemma_first_concat(
                    keys_of(node.left),
                    node.key,
                    keys_of(node.right),
                    values_of(node.left),
                    node.value,
                    values_of(node.right),
                );
            }
            if node.left.is_none() {
                return node.right;
            }
            let mut t = Some(node);
            if !left_is_red(&t) && !left_left_is_red(&t) {
                t = move_red_left(t);
            }
            let mut n = t.unwrap();
            proof {
                lemma_lengths(n.left);
                lemma_lengths(n.right);
                lemma_top(n.left);
                lemma_parts(keys_of(n.left), n.key, keys_of(n.right));
                lemma_first_concat(
                    keys_of(n.left),
                    n.key,
                    keys_of(n.right),
                    values_of(n.left),
                    n.value,
                    values_of(n.right),
                );
                lemma_turn(keys_of(n.left), n.key, keys_of(n.right), n.key, keys_of(n.right));
            }
            n.left = del_min_node(n.left);
            balance(Some(n))
        },
    }
}

/// The tree without its last pair. A node without a right subtree gives way to its
/// left subtree.
fn del_max_node(h: Option<Box<Node>>) -> (r: Option<Box<Node>>)
    requires
        tree_ok(h),
    ensures
        tree_ok(r),
        keys_of(r) == (if keys_of(h).len() > 0 {
            keys_of(h).drop_last()
        } else {
            keys_of(h)
        }),
        values_of(r) == (if keys_of(h).len() > 0 {
            values_of(h).drop_last()
        } else {
            values_of(h)
        }),
    decreases keys_of(h).len(),
{
    let mut t = h;
    if left_is_red(&t) {
        t = rotate_right(t);
    }
    match t {
        None => None,
        Some(node) => {
            proof {
                lemma_lengths(h);
                lemma_lengths(node.left);
                lemma_lengths(node.right);
                lemma_parts(keys_of(node.left), node.key, keys_of(node.right));
                lemma_last_concat(
                    keys_of(node.left),
                    node.key,
                    keys_of(node.right),
                    values_of(node.left),
                    node.value,
                    values_of(node.right),
                );
            }
            if node.right.is_none() {
                return node.left;
            }
            let mut t = Some(node);
            if !right_is_red(&t) && !right_left_is_red(&t) {
                t = move_red_right(t);
            }
            let mut n = t.unwrap();
            proof {
                lemma_lengths(n.left);
                lemma_lengths(n.right);
                lemma_top(n.right);
                lemma_parts(keys_of(n.left), n.key, keys_of(n.right));
                lemma_last_concat(
                    keys_of(n.left),
                    n.key,
                    keys_of(n.right),
                    values_of(n.left),
                    n.value,
                    values_of(n.right),
                );
                lemma_turn(keys_of(n.left), n.key, keys_of(n.right), n.key, keys_of(n.right));
            }
            n.right = del_max_node(n.right);
            balance(Some(n))
        },
    }
}

/// The tree without `key`. The pair of a node with a right subtree is replaced by the
/// first pair of that subtree; a node without one gives way to its left subtree.
#[verifier::rlimit(40)]
fn del_node(h: Option<Box<Node>>, key: i32) -> (r: Option<Box<Node>>)
    requires
        tree_ok(h),
    ensures
        tree_ok(r),
        keys_of(r) == cut(keys_of(h), keys_of(h), key),
        values_of(r) == cut(keys_of(h), values_of(h), key),
    decreases keys_of(h).len(),
{
    match h {
        None => None,
        Some(node) => {
            let ghost before = keys_of(h);
            let ghost before_v = values_of(h);
            proof {
                lemma_lengths(h);
            }
            if key < node.key {
                let mut t = Some(node);
                if !left_is_red(&t) && !left_left_is_red(&t) {
                    t = move_red_left(t);
                }
                let mut n = t.unwrap();
                proof {
                    lemma_lengths(n.left);
                    lemma_lengths(n.right);
                    lemma_parts(keys_of(n.left), n.key, keys_of(n.right));
                    lemma_cut_concat(
                        keys_of(n.left),
                        n.key,
                        keys_of(n.right),
                        values_of(n.left),
                        n.value,
                        values_of(n.right),
                        key,
                    );
                    lemma_below_facts(before, key);
                    lemma_turn(keys_of(n.left), n.key, keys_of(n.right), n.key, keys_of(n.right));
                }
                n.left = del_node(n.left, key);
                proof {
                    lemma_below_facts(keys_of(n.left), key);
                    assert(keys_of(Some(n)) == cut(before, before, key));
                    assert(keys_of(Some(n)).len() <= before.len());
                }
                balance(Some(n))
            } else {
                let mut t = Some(node);
                if left_is_red(&t) {
                    proof {
                        lemma_sides(t);
                    }
                    t = rotate_right(t);
                }
                let node = t.unwrap();
                proof {
                    lemma_lengths(node.left);
                    lemma_lengths(node.right);
                    lemma_parts(keys_of(node.left), node.key, keys_of(node.right));
                    lemma_cut_concat(
                        keys_of(node.left),
                        node.key,
                        keys_of(node.right),
                        values_of(node.left),
                        node.value,
                        values_of(node.right),
                        key,
                    );
                }
                if key == node.key && node.right.is_none() {
                    proof {
                        assert(keys_of(node.left) + keys_of(node.right) =~= keys_of(node.left));
                        assert(values_of(node.left) + values_of(node.right) =~= values_of(node.left));
                    }
                    return node.left;
                }
                let mut t = Some(node);
                if !right_is_red(&t) && !right_left_is_red(&t) {
                    t = move_red_right(t);
                }
                let mut n = t.unwrap();
                proof {
                    lemma_lengths(n.left);
                    lemma_lengths(n.right);
                    lemma_parts(keys_of(n.left), n.key, keys_of(n.right));
                    lemma_cut_concat(
                        keys_of(n.left),
                        n.key,
                        keys_of(n.right),
                        values_of(n.left),
                        n.value,
                        values_of(n.right),
                        key,
                    );
                    lemma_below_facts(before, key);
                    lemma_turn(keys_of(n.left), n.key, keys_of(n.right), n.key, keys_of(n.right));
                }
                if n.key != key {
                    n.right = del_node(n.right, key);
                } else {
                    proof {
                        lemma_top(n.right);
                    }
                    let first = min_node(&n.right);
                    n.right = del_min_node(n.right);
                    n.key = first.0;
                    n.value = first.1;
                }
                proof {
                    assert(keys_of(Some(n)) == cut(before, before, key));
                    assert(values_of(Some(n)) == cut(before, before_v, key));
                    assert(keys_of(Some(n)).len() <= before.len());
                }
                balance(Some(n))
            }
        },
    }
}

/// The tree after `key` is given `value`: the pair goes where it belongs, and on the
/// way back up right-leaning red links are turned and red links in a row are split.
fn put_with(h: Option<Box<Node>>, key: i32, value: i32) -> (r: Option<Box<Node>>)
    requires
        tree_ok(h),
        keys_of(h).len() < usize::MAX,
    ensures
        tree_ok(r),
        keys_of(r) == put_keys(keys_of(h), key),
        values_of(r) == put_values(keys_of(h), values_of(h), key, value),
    decreases h,
{
    match h {
        None => {
            let n = Node::new(key, value, 1, Color::Red);
            proof {
                reveal_with_fuel(keys_of, 2);
                reveal_with_fuel(values_of, 2);
                reveal_with_fuel(counted, 2);
                assert(keys_of(Some(Box::new(n))) =~= seq![key]);
                assert(values_of(Some(Box::new(n))) =~= seq![value]);
                assert(Seq::<i32>::empty().insert(0, key) =~= seq![key]);
                assert(Seq::<i32>::empty().insert(0, value) =~= seq![value]);
            }
            Some(Box::new(n))
        },
        Some(node) => {
            let mut n = node;
            proof {
                lemma_lengths(n.left);
                lemma_lengths(n.right);
                lemma_parts(keys_of(n.left), n.key, keys_of(n.right));
                lemma_put_concat(
                    keys_of(n.left),
                    n.key,
                    keys_of(n.right),
                    values_of(n.left),
                    n.value,
                    values_of(n.right),
                    key,
                    value,
                );
            }
            let ghost before = keys_of(h);
            if key == n.key {
                n.value = value;
            } else if key > n.key {
                n.right = put_with(n.right, key, value);
            } else {
                n.left = put_with(n.left, key, value);
            }
            proof {
                let after = keys_of(n.left) + seq![n.key] + keys_of(n.right);
                assert(after == put_keys(before, key));
                lemma_below_facts(before, key);
                assert(after.len() <= before.len() + 1);
            }
            let mut t = Some(n);
            if right_is_red(&t) && !left_is_red(&t) {
                t = rotate_left(t);
            }
            if left_is_red(&t) && left_left_is_red(&t) {
                t = rotate_right(t);
            }
            if left_is_red(&t) && right_is_red(&t) {
                t = flip_colors(t);
            }
            update_size(t)
        },
    }
}

/// The value that a tree has for `key`.
fn get_from(link: &Option<Box<Node>>, key: i32) -> (r: Option<i32>)
    requires
        tree_ok(*link),
    ensures
        r == (if keys_of(*link).contains(key) {
            Some(values_of(*link)[below(keys_of(*link), key) as int])
        } else {
            None
        }),
    decreases *link,
{
    match link {
        None => None,
        Some(n) => {
            proof {
                lemma_below_concat(keys_of(n.left), n.key, keys_of(n.right), key);
                lemma_parts(keys_of(n.left), n.key, keys_of(n.right));
                lemma_lengths(n.left);
                lemma_lengths(n.right);
                lemma_below_facts(keys_of(n.left), key);
                lemma_below_facts(keys_of(n.right), key);
            }
            if key == n.key {
                Some(n.value)
            } else if key < n.key {
                get_from(&n.left, key)
            } else {
                get_from(&n.right, key)
            }
        },
    }
}

/// The first pair of a tree that is not empty.
fn min_node(link: &Option<Box<Node>>) -> (r: (i32, i32))
    requires
        link.is_some(),
    ensures
        r.0 == keys_of(*link)[0],
        r.1 == values_of(*link)[0],
    decreases *link,
{
    let n = link.as_ref().unwrap();
    let ghost all = keys_of(n.left) + seq![n.key] + keys_of(n.right);
    let ghost allv = values_of(n.left) + seq![n.value] + values_of(n.right);
    proof {
        lemma_lengths(n.left);
    }
    if n.left.is_none() {
        proof {
            assert(keys_of(n.left).len() == 0);
            assert(all[0] == n.key && allv[0] == n.value);
        }
        (n.key, n.value)
    } else {
        proof {
            lemma_top(n.left);
            assert(all[0] == keys_of(n.left)[0] && allv[0] == values_of(n.left)[0]);
        }
        min_node(&n.left)
    }
}

/// Puts the pairs of a tree behind those of `out`, in ascending order of the keys.
fn pairs_from(link: &Option<Box<Node>>, out: &mut Vec<(i32, i32)>)
    ensures
        final(out)@ == old(out)@ + keys_of(*link).zip_with(values_of(*link)),
    decreases *link,
{
    match link {
        None => {
            assert(out@ + keys_of(*link).zip_with(values_of(*link)) =~= out@);
        },
        Some(n) => {
            let ghost out0 = out@;
            pairs_from(&n.left, out);
            out.push((n.key, n.value));
            pairs_from(&n.right, out);
            proof {
                lemma_lengths(n.left);
                lemma_lengths(n.right);
                let l = keys_of(n.left).zip_with(values_of(n.left));
                let r = keys_of(n.right).zip_with(values_of(n.right));
                assert(out@ =~= out0 + keys_of(*link).zip_with(values_of(*link)));
            }
        },
    }
}

/// A symbol table that keeps its pairs in a left-leaning red-black tree.
pub struct RedBlackBST {
    root: Option<Box<Node>>,
}

impl View for RedBlackBST {
    type V = Map<i32, i32>;

    closed spec fn view(&self) -> Map<i32, i32> {
        table(keys_of(self.root), values_of(self.root))
    }
}

impl RedBlackBST {
    /// The keys in ascending order.
    pub closed spec fn keys_view(&self) -> Seq<i32> {
        keys_of(self.root)
    }

    /// The values in the order of their keys.
    pub closed spec fn values_view(&self) -> Seq<i32> {
        values_of(self.root)
    }

    /// The representation invariant: the keys ascend from left to right in the tree, and
    /// every node holds the number of pairs at and below it.
    pub closed spec fn wf(&self) -> bool {
        tree_ok(self.root)
    }

    /// The keys are in ascending order, they are the keys of the table, and each has
    /// the value at its place.
    pub proof fn lemma_keys(&self)
        requires
            self.wf(),
        ensures
            ascending(self.keys_view()),
            self.values_view().len() == self.keys_view().len(),
            self@ == table(self.keys_view(), self.values_view()),
    {
        lemma_lengths(self.root);
    }

    /// An empty table.
    pub fn new() -> (t: RedBlackBST)
        ensures
            t.wf(),
            t@ == Map::<i32, i32>::empty(),
            t.keys_view().len() == 0,
    {
        let t = RedBlackBST { root: None };
        proof {
            assert(t@ =~= Map::<i32, i32>::empty());
        }
        t
    }

    /// Number of keys.
    pub fn size(&self) -> (r: usize)
        requires
            self.wf(),
        ensures
            r == self.keys_view().len(),
    {
        size_of(&self.root)
    }

    /// The value of `key`, if it has one.
    pub fn get(&self, key: i32) -> (r: Option<i32>)
        requires
            self.wf(),
        ensures
            r == lookup(self@, key),
    {
        proof {
            let keys = keys_of(self.root);
            lemma_ascending_distinct(keys);
            lemma_below_facts(keys, key);
            if keys.contains(key) {
                lemma_place(keys, below(keys, key) as int);
            }
        }
        get_from(&self.root, key)
    }

    /// Gives `key` the value `value`. The link to the root is black afterwards.
    pub fn put(&mut self, key: i32, value: i32)
        requires
            old(self).wf(),
            old(self).keys_view().len() < usize::MAX,
        ensures
            final(self).wf(),
            final(self)@ == old(self)@.insert(key, value),
            final(self).keys_view() == put_keys(old(self).keys_view(), key),
    {
        let root = self.root.take();
        let root = put_with(root, key, value);
        self.root = set_color(root, Color::Black);
        proof {
            let keys = keys_of(old(self).root);
            let values = values_of(old(self).root);
            lemma_lengths(old(self).root);
            lemma_ascending_distinct(keys);
            lemma_below_facts(keys, key);
            if keys.contains(key) {
                lemma_table_update(keys, values, below(keys, key) as int, value);
            } else {
                lemma_table_insert(keys, values, below(keys, key) as int, key, value);
            }
        }
    }

    /// Makes the link to the root black where neither link below it is red.
    fn set_parent_red_if_child_black(&mut self)
        requires
            old(self).wf(),
        ensures
            final(self).wf(),
            same_pairs(final(self).root, old(self).root),
    {
        if !left_is_red(&self.root) && !right_is_red(&self.root) {
            let root = self.root.take();
            self.root = set_color(root, Color::Black);
        }
    }

    /// Takes the least key and its value out of the table.
    pub fn delete_min(&mut self)
        requires
            old(self).wf(),
        ensures
            final(self).wf(),
            final(self).keys_view() == (if old(self).keys_view().len() > 0 {
                old(self).keys_view().drop_first()
            } else {
                old(self).keys_view()
            }),
            final(self)@ == (if old(self).keys_view().len() > 0 {
                old(self)@.remove(old(self).keys_view()[0])
            } else {
                old(self)@
            }),
    {
        self.set_parent_red_if_child_black();
        let root = self.root.take();
        let root = del_min_node(root);
        self.root = set_color(root, Color::Black);
        proof {
            let keys = keys_of(old(self).root);
            let values = values_of(old(self).root);
            lemma_lengths(old(self).root);
            lemma_ascending_distinct(keys);
            if keys.len() > 0 {
                lemma_table_remove(keys, values, 0);
                assert(keys.remove(0) =~= keys.drop_first());
                assert(values.remove(0) =~= values.drop_first());
            }
        }
    }

    /// Takes the greatest key and its value out of the table.
    pub fn delete_max(&mut self)
        requires
            old(self).wf(),
        ensures
            final(self).wf(),
            final(self).keys_view() == (if old(self).keys_view().len() > 0 {
                old(self).keys_view().drop_last()
            } else {
                old(self).keys_view()
            }),
            final(self)@ == (if old(self).keys_view().len() > 0 {
                old(self)@.remove(old(self).keys_view().last())
            } else {
                old(self)@
            }),
    {
        self.set_parent_red_if_child_black();
        let root = self.root.take();
        let root = del_max_node(root);
        self.root = set_color(root, Color::Black);
        proof {
            let keys = keys_of(old(self).root);
            let values = values_of(old(self).root);
            lemma_lengths(old(self).root);
            lemma_ascending_distinct(keys);
            if keys.len() > 0 {
                lemma_table_remove(keys, values, keys.len() - 1);
                assert(keys.remove(keys.len() - 1) =~= keys.drop_last());
                assert(values.remove(keys.len() - 1) =~= values.drop_last());
            }
        }
    }

    /// Takes `key` and its value out of the table.
    pub fn delete(&mut self, key: i32)
        requires
            old(self).wf(),
        ensures
            final(self).wf(),
            final(self)@ == old(self)@.remove(key),
            final(self).keys_view() == cut(old(self).keys_view(), old(self).keys_view(), key),
    {
        if !left_is_red(&self.root) && !right_is_red(&self.root) {
            let root = self.root.take();
            self.root = set_color(root, Color::Red);
        }
        let root = self.root.take();
        let root = del_node(root, key);
        self.root = set_color(root, Color::Black);
        proof {
            let keys = keys_of(old(self).root);
            let values = values_of(old(self).root);
            lemma_lengths(old(self).root);
            lemma_ascending_distinct(keys);
            lemma_below_facts(keys, key);
            if keys.contains(key) {
                lemma_table_remove(keys, values, below(keys, key) as int);
            } else {
                assert(old(self)@ =~= old(self)@.remove(key));
            }
        }
    }

    /// The least key.
    pub fn min(&self) -> (r: Option<i32>)
        requires
            self.wf(),
        ensures
            r == (if self.keys_view().len() > 0 {
                Some(self.keys_view()[0])
            } else {
                None
            }),
    {
        if self.root.is_none() {
            None
        } else {
            proof {
                lemma_top(self.root);
            }
            Some(min_node(&self.root).0)
        }
    }

    /// The pairs one at a time, in ascending order of the keys.
    pub fn iter(&self) -> (it: Iter)
        requires
            self.wf(),
        ensures
            it.wf(),
            it.rest() == self.keys_view().zip_with(self.values_view()),
    {
        Iter::new(self)
    }

    /// The pairs in ascending order of the keys.
    pub fn pairs(&self) -> (r: Vec<(i32, i32)>)
        requires
            self.wf(),
        ensures
            r@ == self.keys_view().zip_with(self.values_view()),
    {
        let mut out: Vec<(i32, i32)> = Vec::new();
        pairs_from(&self.root, &mut out);
        proof {
            assert(Seq::<(i32, i32)>::empty() + keys_of(self.root).zip_with(values_of(self.root)) =~= keys_of(
                self.root,
            ).zip_with(values_of(self.root)));
        }
        out
    }
}

/// The pairs of a tree, handed out one at a time in ascending order of the keys.
pub struct Iter {
    pairs: Vec<(i32, i32)>,
    at: usize,
}

impl Iter {
    /// The pairs that are still to come.
    pub closed spec fn rest(&self) -> Seq<(i32, i32)> {
        self.pairs@.skip(self.at as int)
    }

    /// The representation invariant: the place of the next pair is within the list or
    /// at its end.
    pub closed spec fn wf(&self) -> bool {
        self.at <= self.pairs@.len()
    }

    /// All pairs of `t` are still to come.
    pub fn new(t: &RedBlackBST) -> (it: Iter)
        requires
            t.wf(),
        ensures
            it.wf(),
            it.rest() == t.keys_view().zip_with(t.values_view()),
    {
        let it = Iter { pairs: t.pairs(), at: 0 };
        proof {
            assert(it.pairs@.skip(0) =~= it.pairs@);
        }
        it
    }

    /// The next pair, if one is left.
    pub fn next(&mut self) -> (r: Option<(i32, i32)>)
        requires
            old(self).wf(),
        ensures
            final(self).wf(),
            old(self).rest().len() == 0 ==> r.is_none() && final(self).rest() == old(self).rest(),
            old(self).rest().len() > 0 ==> r == Some(old(self).rest()[0]) && final(self).rest() == old(
                self,
            ).rest().drop_first(),
    {
        if self.at < self.pairs.len() {
            let pair = self.pairs[self.at];
            self.at += 1;
            proof {
                assert(self.pairs@.skip(self.at as int) =~= old(self).pairs@.skip(old(self).at as int).drop_first());
            }
            Some(pair)
        } else {
            None
        }
    }
}

} // verus!
