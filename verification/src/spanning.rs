//! Sets of weighted edges: what they connect, what they weigh, and when a set that is
//! grown edge by edge stays part of a lightest connecting set.

use vstd::prelude::*;
use crate::edge::Edge;

verus! {

/// Some edge of `edges` joins `x` and `y`.
pub open spec fn adjacent(edges: Seq<Edge>, x: usize, y: usize) -> bool {
    exists|i: int| 0 <= i < edges.len() && #[trigger] edges[i].joins(x, y)
}

/// Some edge joins entry `i` of `p` and the entry after it.
pub open spec fn linked_at(edges: Seq<Edge>, p: Seq<usize>, i: int) -> bool {
    adjacent(edges, p[i], p[i + 1])
}

/// `p` is a non-empty sequence of vertices, each joined to the next by an edge.
pub open spec fn is_chain(edges: Seq<Edge>, p: Seq<usize>) -> bool {
    &&& p.len() >= 1
    &&& forall|i: int| 0 <= i < p.len() - 1 ==> #[trigger] linked_at(edges, p, i)
}

/// The edges connect `x` and `y`.
pub open spec fn joined(edges: Seq<Edge>, x: usize, y: usize) -> bool {
    exists|p: Seq<usize>| #[trigger] is_chain(edges, p) && p[0] == x && p.last() == y
}

/// Every edge of `s` is an edge of `e`.
pub open spec fn within(s: Seq<Edge>, e: Seq<Edge>) -> bool {
    forall|i: int| 0 <= i < s.len() ==> e.contains(#[trigger] s[i])
}

/// The sum of the weights.
pub open spec fn total(edges: Seq<Edge>) -> nat
    decreases edges.len(),
{
    if edges.len() == 0 {
        0
    } else {
        total(edges.drop_last()) + edges.last().weight as nat
    }
}

/// `s` consists of edges of `e` and connects what `e` connects among the vertices of
/// `scope`.
pub open spec fn covers(s: Seq<Edge>, e: Seq<Edge>, scope: Set<usize>) -> bool {
    &&& within(s, e)
    &&& forall|x: usize, y: usize|
        scope.contains(x) && scope.contains(y) && joined(e, x, y) ==> #[trigger] joined(s, x, y)
}

/// No edge joins two vertices that the edges before it connect already.
pub open spec fn is_forest(k: Seq<Edge>) -> bool {
    forall|i: int| 0 <= i < k.len() ==> !joined(k.take(i), (#[trigger] k[i]).v, k[i].w)
}

/// The weights never fall along the sequence.
pub open spec fn ascending(k: Seq<Edge>) -> bool {
    forall|i: int, j: int| 0 <= i <= j < k.len() ==> (#[trigger] k[i]).weight
        <= (#[trigger] k[j]).weight
}

/// No covering set weighs less than `k`.
pub open spec fn lightest(k: Seq<Edge>, e: Seq<Edge>, scope: Set<usize>) -> bool {
    forall|s: Seq<Edge>| #[trigger] covers(s, e, scope) ==> total(k) <= total(s)
}

/// The vertices that the edges connect with `root`.
pub open spec fn component(e: Seq<Edge>, root: usize) -> Set<usize> {
    Set::new(|x: usize| joined(e, root, x))
}

/// For each of `n` vertices, whether the edges connect it with vertex 0.
pub open spec fn reach_marks(e: Seq<Edge>, n: nat) -> Seq<bool> {
    Seq::new(n, |x: int| joined(e, 0, x as usize))
}

/// The edges connect every one of `n` vertices with vertex 0.
pub open spec fn connected(e: Seq<Edge>, n: nat) -> bool {
    forall|x: usize| x < n ==> #[trigger] joined(e, 0, x)
}

/// The vertices below the length of `marked` that are marked.
pub open spec fn marked_set(marked: Seq<bool>) -> Set<usize> {
    Set::new(|x: usize| x < marked.len() && marked[x as int])
}

/// Both ends of every edge are marked.
pub open spec fn inside(k: Seq<Edge>, marked: Seq<bool>) -> bool {
    forall|i: int|
        0 <= i < k.len() ==> (#[trigger] k[i]).v < marked.len() && k[i].w < marked.len()
            && marked[k[i].v as int] && marked[k[i].w as int]
}

/// If `s` covers, some covering set that holds every edge of `k` weighs no more.
pub open spec fn improvable(k: Seq<Edge>, e: Seq<Edge>, scope: Set<usize>, s: Seq<Edge>) -> bool {
    covers(s, e, scope) ==> exists|s2: Seq<Edge>|
        #[trigger] covers(s2, e, scope) && within(k, s2) && total(s2) <= total(s)
}

/// Whatever covering set is given, one that holds every edge of `k` weighs no more.
pub open spec fn promising(k: Seq<Edge>, e: Seq<Edge>, scope: Set<usize>) -> bool {
    forall|s: Seq<Edge>| #[trigger] improvable(k, e, scope, s)
}

/// No edge of `k` has exactly one end in `cut`.
pub open spec fn respects(k: Seq<Edge>, cut: Set<usize>) -> bool {
    forall|i: int| 0 <= i < k.len() ==> cut.contains((#[trigger] k[i]).v) == cut.contains(k[i].w)
}

/// No edge of `e` with exactly one end in `cut` weighs less than `f`.
pub open spec fn lightest_across(e: Seq<Edge>, cut: Set<usize>, f: Edge) -> bool {
    forall|i: int|
        0 <= i < e.len() && cut.contains((#[trigger] e[i]).v) != cut.contains(e[i].w) ==> f.weight
            <= e[i].weight
}

/// No vertex before `v` is connected with `v`.
pub open spec fn leads(e: Seq<Edge>, v: usize) -> bool {
    forall|u: usize| u < v ==> !#[trigger] joined(e, u, v)
}

/// Of `n` vertices, the first of each set of vertices that the edges connect.
pub open spec fn firsts(e: Seq<Edge>, n: nat) -> Set<int> {
    Set::new(|v: int| 0 <= v < n && v <= usize::MAX && leads(e, v as usize))
}

/// Into how many sets of connected vertices the edges divide `n` vertices.
pub open spec fn parts(e: Seq<Edge>, n: nat) -> nat {
    firsts(e, n).len()
}

/// Every vertex is connected with the first vertex of its part.
pub proof fn lemma_first(e: Seq<Edge>, x: usize) -> (v: usize)
    ensures
        v <= x,
        joined(e, v, x),
        leads(e, v),
    decreases x,
{
    if leads(e, x) {
        lemma_joined_self(e, x);
        x
    } else {
        let u = choose|u: usize| u < x && joined(e, u, x);
        let v = lemma_first(e, u);
        lemma_joined_trans(e, v, u, x);
        v
    }
}

/// Every vertex is connected with itself.
pub proof fn lemma_joined_self(edges: Seq<Edge>, x: usize)
    ensures
        joined(edges, x, x),
{
    let p = seq![x];
    assert(is_chain(edges, p));
    assert(p[0] == x && p.last() == x);
}

/// The two ends of an edge are connected.
pub proof fn lemma_adjacent_joined(edges: Seq<Edge>, x: usize, y: usize)
    requires
        adjacent(edges, x, y),
    ensures
        joined(edges, x, y),
{
    let p = seq![x, y];
    assert forall|i: int| 0 <= i < p.len() - 1 implies #[trigger] linked_at(edges, p, i) by {}
    assert(is_chain(edges, p));
    assert(p[0] == x && p.last() == y);
}

/// An edge joins its ends in both directions.
pub proof fn lemma_adjacent_symmetric(edges: Seq<Edge>, x: usize, y: usize)
    requires
        adjacent(edges, x, y),
    ensures
        adjacent(edges, y, x),
{
    let i = choose|i: int| 0 <= i < edges.len() && #[trigger] edges[i].joins(x, y);
    assert(edges[i].joins(y, x));
}

/// Read backwards, a chain is a chain.
pub proof fn lemma_chain_reverse(edges: Seq<Edge>, p: Seq<usize>)
    requires
        is_chain(edges, p),
    ensures
        is_chain(edges, p.reverse()),
{
    let r = p.reverse();
    assert forall|i: int| 0 <= i < r.len() - 1 implies #[trigger] linked_at(edges, r, i) by {
        let k = p.len() - 2 - i;
        assert(linked_at(edges, p, k));
        assert(r[i] == p[k + 1] && r[i + 1] == p[k]);
        lemma_adjacent_symmetric(edges, p[k], p[k + 1]);
    }
}

/// Being connected is symmetric.
pub proof fn lemma_joined_symmetric(edges: Seq<Edge>, x: usize, y: usize)
    requires
        joined(edges, x, y),
    ensures
        joined(edges, y, x),
{
    let p = choose|p: Seq<usize>| #[trigger] is_chain(edges, p) && p[0] == x && p.last() == y;
    lemma_chain_reverse(edges, p);
    assert(p.reverse()[0] == y && p.reverse().last() == x);
}

/// Two chains, the second starting where the first ends, make one chain.
pub proof fn lemma_chain_concat(edges: Seq<Edge>, p: Seq<usize>, q: Seq<usize>)
    requires
        is_chain(edges, p),
        is_chain(edges, q),
        p.last() == q[0],
    ensures
        is_chain(edges, p + q.skip(1)),
        (p + q.skip(1))[0] == p[0],
        (p + q.skip(1)).last() == q.last(),
{
    let r = p + q.skip(1);
    assert forall|i: int| 0 <= i < r.len() - 1 implies #[trigger] linked_at(edges, r, i) by {
        if i < p.len() - 1 {
            assert(linked_at(edges, p, i));
        } else {
            let k = i - (p.len() - 1);
            assert(linked_at(edges, q, k));
        }
    }
}

/// Being connected is transitive.
pub proof fn lemma_joined_trans(edges: Seq<Edge>, x: usize, y: usize, z: usize)
    requires
        joined(edges, x, y),
        joined(edges, y, z),
    ensures
        joined(edges, x, z),
{
    let p = choose|p: Seq<usize>| #[trigger] is_chain(edges, p) && p[0] == x && p.last() == y;
    let q = choose|q: Seq<usize>| #[trigger] is_chain(edges, q) && q[0] == y && q.last() == z;
    lemma_chain_concat(edges, p, q);
    assert(is_chain(edges, p + q.skip(1)));
}

/// A chain that starts in a set which no edge leaves stays in it.
pub proof fn lemma_chain_stays(edges: Seq<Edge>, inside: Set<usize>, p: Seq<usize>, i: int)
    requires
        is_chain(edges, p),
        inside.contains(p[0]),
        forall|x: usize, y: usize|
            inside.contains(x) && #[trigger] adjacent(edges, x, y) ==> inside.contains(y),
        0 <= i < p.len(),
    ensures
        inside.contains(p[i]),
    decreases i,
{
    if i > 0 {
        lemma_chain_stays(edges, inside, p, i - 1);
        assert(linked_at(edges, p, i - 1));
    }
}

/// What is connected stays connected when every edge is replaced by a connection.
pub proof fn lemma_joined_lift(s: Seq<Edge>, t: Seq<Edge>, x: usize, y: usize)
    requires
        forall|a: usize, b: usize| #[trigger] adjacent(s, a, b) ==> joined(t, a, b),
        joined(s, x, y),
    ensures
        joined(t, x, y),
{
    let p = choose|p: Seq<usize>| #[trigger] is_chain(s, p) && p[0] == x && p.last() == y;
    let inside = Set::new(|z: usize| joined(t, x, z));
    lemma_joined_self(t, x);
    assert forall|a: usize, b: usize| inside.contains(a) && #[trigger] adjacent(s, a, b) implies
        inside.contains(
        b,
    ) by {
        lemma_joined_trans(t, x, a, b);
    }
    lemma_chain_stays(s, inside, p, p.len() - 1);
}

/// More edges connect no less.
pub proof fn lemma_joined_within(s: Seq<Edge>, t: Seq<Edge>, x: usize, y: usize)
    requires
        within(s, t),
        joined(s, x, y),
    ensures
        joined(t, x, y),
{
    assert forall|a: usize, b: usize| #[trigger] adjacent(s, a, b) implies joined(t, a, b) by {
        let i = choose|i: int| 0 <= i < s.len() && #[trigger] s[i].joins(a, b);
        let j = choose|j: int| 0 <= j < t.len() && t[j] == s[i];
        assert(t[j].joins(a, b));
        lemma_adjacent_joined(t, a, b);
    }
    lemma_joined_lift(s, t, x, y);
}

/// What a set with one more edge connects.
pub proof fn lemma_joined_push(k: Seq<Edge>, f: Edge, x: usize, y: usize)
    ensures
        joined(k.push(f), x, y) <==> (joined(k, x, y) || (joined(k, x, f.v) && joined(k, f.w, y))
            || (
        joined(k, x, f.w) && joined(k, f.v, y))),
{
    let k2 = k.push(f);
    assert(within(k, k2)) by {
        assert forall|i: int| 0 <= i < k.len() implies k2.contains(#[trigger] k[i]) by {
            assert(k2[i] == k[i]);
        }
    }
    assert(adjacent(k2, f.v, f.w)) by {
        assert(k2[k.len() as int].joins(f.v, f.w));
    }
    lemma_adjacent_joined(k2, f.v, f.w);
    lemma_joined_symmetric(k2, f.v, f.w);
    if joined(k, x, y) {
        lemma_joined_within(k, k2, x, y);
    }
    if joined(k, x, f.v) && joined(k, f.w, y) {
        lemma_joined_within(k, k2, x, f.v);
        lemma_joined_within(k, k2, f.w, y);
        lemma_joined_trans(k2, x, f.v, f.w);
        lemma_joined_trans(k2, x, f.w, y);
    }
    if joined(k, x, f.w) && joined(k, f.v, y) {
        lemma_joined_within(k, k2, x, f.w);
        lemma_joined_within(k, k2, f.v, y);
        lemma_joined_trans(k2, x, f.w, f.v);
        lemma_joined_trans(k2, x, f.v, y);
    }
    if joined(k2, x, y) {
        let p = choose|p: Seq<usize>| #[trigger] is_chain(k2, p) && p[0] == x && p.last() == y;
        let inside = Set::new(
            |z: usize|
                joined(k, x, z) || (joined(k, x, f.v) && joined(k, f.w, z)) || (joined(k, x, f.w)
                    && joined(k, f.v, z)),
        );
        lemma_joined_self(k, x);
        lemma_joined_self(k, f.v);
        lemma_joined_self(k, f.w);
        assert forall|a: usize, b: usize| inside.contains(a) && #[trigger] adjacent(k2, a,
            b) implies inside.contains(
            b,
        ) by {
            let i = choose|i: int| 0 <= i < k2.len() && #[trigger] k2[i].joins(a, b);
            if i < k.len() {
                assert(k[i].joins(a, b));
                lemma_adjacent_joined(k, a, b);
                if joined(k, x, a) {
                    lemma_joined_trans(k, x, a, b);
                } else if joined(k, x, f.v) && joined(k, f.w, a) {
                    lemma_joined_trans(k, f.w, a, b);
                } else {
                    lemma_joined_trans(k, f.v, a, b);
                }
            } else {
                assert(k2[i] == f);
                if joined(k, x, a) {
                } else if joined(k, x, f.v) && joined(k, f.w, a) {
                    if a == f.v {
                        lemma_joined_trans(k, x, f.v, f.v);
                    }
                } else {
                    if a == f.w {
                        lemma_joined_trans(k, x, f.w, f.w);
                    }
                }
            }
        }
        lemma_chain_stays(k2, inside, p, p.len() - 1);
    }
}

/// A vertex that no edge touches is connected with itself only.
pub proof fn lemma_untouched(k: Seq<Edge>, x: usize, y: usize)
    requires
        forall|i: int| 0 <= i < k.len() ==> !(#[trigger] k[i]).touches(x),
        joined(k, x, y),
    ensures
        x == y,
{
    let p = choose|p: Seq<usize>| #[trigger] is_chain(k, p) && p[0] == x && p.last() == y;
    let only = Set::new(|z: usize| z == x);
    assert forall|a: usize, b: usize| only.contains(a) && #[trigger] adjacent(k, a, b) implies
        only.contains(
        b,
    ) by {
        let i = choose|i: int| 0 <= i < k.len() && #[trigger] k[i].joins(a, b);
        assert(k[i].touches(x));
    }
    lemma_chain_stays(k, only, p, p.len() - 1);
}

/// When no edge has exactly one marked end, the tree reaches all that the graph
/// connects with vertex 0.
pub proof fn lemma_tree_covers(e: Seq<Edge>, n: nat, marked: Seq<bool>, k: Seq<Edge>)
    requires
        n > 0,
        marked.len() == n,
        forall|i: int| 0 <= i < e.len() ==> (#[trigger] e[i]).v < n && e[i].w < n,
        within(k, e),
        marked[0],
        forall|x: usize| x < n ==> #[trigger] marked[x as int] == joined(k, 0, x),
        forall|i: int| 0 <= i < e.len() ==> marked[(#[trigger] e[i]).v as int]
            == marked[e[i].w as int],
    ensures
        covers(k, e, component(e, 0)),
{
    let tree = marked_set(marked);
    assert forall|a: usize, b: usize| tree.contains(a) && #[trigger] adjacent(e, a, b) implies
        tree.contains(
        b,
    ) by {
        let i = choose|i: int| 0 <= i < e.len() && #[trigger] e[i].joins(a, b);
        assert(marked[e[i].v as int] == marked[e[i].w as int]);
    }
    assert forall|x: usize, y: usize|
        component(e, 0).contains(x) && component(e, 0).contains(y) && joined(e, x, y) implies
            #[trigger] joined(
        k,
        x,
        y,
    ) by {
        let p = choose|p: Seq<usize>| #[trigger] is_chain(e, p) && p[0] == 0 && p.last() == x;
        lemma_chain_stays(e, tree, p, p.len() - 1);
        let q = choose|q: Seq<usize>| #[trigger] is_chain(e, q) && q[0] == 0 && q.last() == y;
        lemma_chain_stays(e, tree, q, q.len() - 1);
        assert(marked[x as int] == joined(k, 0, x));
        assert(marked[y as int] == joined(k, 0, y));
        lemma_joined_symmetric(k, 0, x);
        lemma_joined_trans(k, x, 0, y);
    }
}

/// A chain between two vertices in which no vertex occurs twice.
pub proof fn lemma_simple_chain(edges: Seq<Edge>, p: Seq<usize>) -> (q: Seq<usize>)
    requires
        is_chain(edges, p),
    ensures
        is_chain(edges, q),
        q[0] == p[0],
        q.last() == p.last(),
        q.no_duplicates(),
    decreases p.len(),
{
    if p.no_duplicates() {
        p
    } else {
        let (i, j) = choose|i: int, j: int|
            0 <= i < p.len() && 0 <= j < p.len() && i != j && p[i] == p[j];
        let (lo, hi) = if i < j {
            (i, j)
        } else {
            (j, i)
        };
        let r = p.take(lo) + p.skip(hi);
        assert forall|t: int| 0 <= t < r.len() - 1 implies #[trigger] linked_at(edges, r, t) by {
            if t < lo - 1 {
                assert(linked_at(edges, p, t));
            } else if t == lo - 1 {
                assert(linked_at(edges, p, t));
                assert(r[t + 1] == p[hi]);
            } else {
                assert(linked_at(edges, p, t - lo + hi));
            }
        }
        assert(r[0] == p[0]);
        assert(r.last() == p.last());
        lemma_simple_chain(edges, r)
    }
}

/// A place where a chain that starts inside a set and ends outside leaves the set.
pub proof fn lemma_crossing(cut: Set<usize>, p: Seq<usize>, from: int) -> (i: int)
    requires
        0 <= from < p.len(),
        cut.contains(p[from]),
        !cut.contains(p.last()),
    ensures
        from <= i < p.len() - 1,
        cut.contains(p[i]),
        !cut.contains(p[i + 1]),
    decreases p.len() - from,
{
    if cut.contains(p[from + 1]) {
        lemma_crossing(cut, p, from + 1)
    } else {
        from
    }
}

/// One more edge adds its weight.
pub proof fn lemma_total_push(s: Seq<Edge>, f: Edge)
    ensures
        total(s.push(f)) == total(s) + f.weight,
{
    assert(s.push(f).drop_last() =~= s);
}

/// Taking an edge out takes its weight off.
pub proof fn lemma_total_remove(s: Seq<Edge>, m: int)
    requires
        0 <= m < s.len(),
    ensures
        total(s.remove(m)) + s[m].weight == total(s),
    decreases s.len(),
{
    if m == s.len() - 1 {
        assert(s.remove(m) =~= s.drop_last());
    } else {
        assert(s.remove(m).drop_last() =~= s.drop_last().remove(m));
        assert(s.remove(m).last() == s.last());
        lemma_total_remove(s.drop_last(), m);
    }
}

/// A set without repeated edges weighs no more than a set that holds all its edges.
pub proof fn lemma_within_total(k: Seq<Edge>, s: Seq<Edge>)
    requires
        k.no_duplicates(),
        within(k, s),
    ensures
        total(k) <= total(s),
    decreases k.len(),
{
    if k.len() > 0 {
        let g = k.last();
        let k0 = k.drop_last();
        let m = choose|m: int| 0 <= m < s.len() && s[m] == g;
        let s0 = s.remove(m);
        assert forall|i: int| 0 <= i < k0.len() implies s0.contains(#[trigger] k0[i]) by {
            assert(k0[i] == k[i]);
            assert(k[i] != k[k.len() - 1]);
            let t = choose|t: int| 0 <= t < s.len() && s[t] == k[i];
            if t < m {
                assert(s0[t] == k0[i]);
            } else {
                assert(s0[t - 1] == k0[i]);
            }
        }
        lemma_within_total(k0, s0);
        lemma_total_remove(s, m);
    }
}

/// Nothing is lost by starting with no edge at all.
pub proof fn lemma_promising_empty(e: Seq<Edge>, scope: Set<usize>)
    ensures
        promising(Seq::<Edge>::empty(), e, scope),
{
    assert forall|s: Seq<Edge>| #[trigger] improvable(Seq::<Edge>::empty(), e, scope, s) by {
        if covers(s, e, scope) {
            assert(within(Seq::<Edge>::empty(), s));
        }
    }
}

/// A promising set without repeated edges weighs no more than any covering set.
pub proof fn lemma_promising_minimal(k: Seq<Edge>, e: Seq<Edge>, scope: Set<usize>, s: Seq<Edge>)
    requires
        promising(k, e, scope),
        k.no_duplicates(),
        covers(s, e, scope),
    ensures
        total(k) <= total(s),
{
    assert(improvable(k, e, scope, s));
    let s2 = choose|s2: Seq<Edge>|
        #[trigger] covers(s2, e, scope) && within(k, s2) && total(s2) <= total(s);
    lemma_within_total(k, s2);
}

/// A promising set without repeated edges is a lightest one among the covering sets.
pub proof fn lemma_promising_lightest(k: Seq<Edge>, e: Seq<Edge>, scope: Set<usize>)
    requires
        promising(k, e, scope),
        k.no_duplicates(),
    ensures
        lightest(k, e, scope),
{
    assert forall|s: Seq<Edge>| #[trigger] covers(s, e, scope) implies total(k) <= total(s) by {
        lemma_promising_minimal(k, e, scope, s);
    }
}

/// The cut property: a promising set stays promising when it takes a lightest edge
/// across a cut that none of its own edges crosses.
pub proof fn lemma_cut(k: Seq<Edge>, e: Seq<Edge>, scope: Set<usize>, cut: Set<usize>, f: Edge)
    requires
        promising(k, e, scope),
        e.contains(f),
        scope.contains(f.v),
        scope.contains(f.w),
        cut.contains(f.v) != cut.contains(f.w),
        respects(k, cut),
        lightest_across(e, cut, f),
    ensures
        promising(k.push(f), e, scope),
        !k.contains(f),
{
    if k.contains(f) {
        let i = choose|i: int| 0 <= i < k.len() && k[i] == f;
        assert(cut.contains(k[i].v) == cut.contains(k[i].w));
    }
    let k2 = k.push(f);
    assert forall|s: Seq<Edge>| #[trigger] improvable(k2, e, scope, s) by {
        if covers(s, e, scope) {
            assert(improvable(k, e, scope, s));
            let s2 = choose|s2: Seq<Edge>|
                #[trigger] covers(s2, e, scope) && within(k, s2) && total(s2) <= total(s);
            if s2.contains(f) {
                assert(within(k2, s2)) by {
                    assert forall|i: int| 0 <= i < k2.len() implies s2.contains(#[trigger] k2[i])
                        by {
                        if i < k.len() {
                            assert(k2[i] == k[i]);
                        }
                    }
                }
            } else {
                let s3 = lemma_exchange(k, e, scope, cut, f, s2);
                assert(covers(s3, e, scope) && within(k2, s3) && total(s3) <= total(s));
            }
        }
    }
}

/// The exchange behind the cut property: a covering set that lacks `f` gives up an edge
/// across the cut for `f` and still covers.
proof fn lemma_exchange(
    k: Seq<Edge>,
    e: Seq<Edge>,
    scope: Set<usize>,
    cut: Set<usize>,
    f: Edge,
    s2: Seq<Edge>,
) -> (s3: Seq<Edge>)
    requires
        e.contains(f),
        scope.contains(f.v),
        scope.contains(f.w),
        cut.contains(f.v) != cut.contains(f.w),
        respects(k, cut),
        lightest_across(e, cut, f),
        covers(s2, e, scope),
        within(k, s2),
        !s2.contains(f),
    ensures
        covers(s3, e, scope),
        within(k.push(f), s3),
        total(s3) <= total(s2),
{
    let (a, b) = if cut.contains(f.v) {
        (f.v, f.w)
    } else {
        (f.w, f.v)
    };
    assert(adjacent(e, f.v, f.w)) by {
        let i = choose|i: int| 0 <= i < e.len() && e[i] == f;
        assert(e[i].joins(f.v, f.w));
    }
    lemma_adjacent_joined(e, f.v, f.w);
    assert(joined(s2, f.v, f.w));
    lemma_joined_symmetric(s2, f.v, f.w);
    assert(joined(s2, a, b));
    let p0 = choose|p: Seq<usize>| #[trigger] is_chain(s2, p) && p[0] == a && p.last() == b;
    let p = lemma_simple_chain(s2, p0);
    let i = lemma_crossing(cut, p, 0);
    assert(linked_at(s2, p, i));
    let m = choose|m: int| 0 <= m < s2.len() && #[trigger] s2[m].joins(p[i], p[i + 1]);
    let g = s2[m];
    assert(cut.contains(g.v) != cut.contains(g.w));
    // `g` is an edge of the graph, so it weighs no less than `f`
    let ge = choose|ge: int| 0 <= ge < e.len() && e[ge] == s2[m];
    assert(f.weight <= e[ge].weight);
    let rest = s2.remove(m);
    let s3 = rest.push(f);
    lemma_total_remove(s2, m);
    lemma_total_push(rest, f);
    assert(within(s3, e)) by {
        assert forall|t: int| 0 <= t < s3.len() implies e.contains(#[trigger] s3[t]) by {
            if t < rest.len() {
                if t < m {
                    assert(s3[t] == s2[t]);
                } else {
                    assert(s3[t] == s2[t + 1]);
                }
            }
        }
    }
    assert(within(k.push(f), s3)) by {
        assert forall|t: int| 0 <= t < k.push(f).len() implies s3.contains(#[trigger] k.push(f)[t])
            by {
            if t < k.len() {
                assert(k.push(f)[t] == k[t]);
                assert(cut.contains(k[t].v) == cut.contains(k[t].w));
                let u = choose|u: int| 0 <= u < s2.len() && s2[u] == k[t];
                if u < m {
                    assert(s3[u] == k[t]);
                } else {
                    assert(s3[u - 1] == k[t]);
                }
            } else {
                assert(s3[rest.len() as int] == f);
            }
        }
    }
    // every link of the chain but the one across the cut survives the exchange
    assert forall|t: int| 0 <= t < p.len() - 1 && t != i implies #[trigger] linked_at(s3, p, t) by {
        assert(linked_at(s2, p, t));
        let u = choose|u: int| 0 <= u < s2.len() && #[trigger] s2[u].joins(p[t], p[t + 1]);
        assert(u != m) by {
            // an edge joins one pair of vertices, and no vertex occurs twice in the chain
            if u == m {
                assert(p[t] != p[t + 1]);
                assert(p[i] != p[i + 1]);
            }
        }
        if u < m {
            assert(s3[u].joins(p[t], p[t + 1]));
        } else {
            assert(s3[u - 1].joins(p[t], p[t + 1]));
        }
    }
    let head = p.take(i + 1);
    let tail = p.skip(i + 1);
    assert(is_chain(s3, head)) by {
        assert forall|t: int| 0 <= t < head.len() - 1 implies #[trigger] linked_at(s3, head, t) by {
            assert(linked_at(s3, p, t));
        }
    }
    assert(is_chain(s3, tail)) by {
        assert forall|t: int| 0 <= t < tail.len() - 1 implies #[trigger] linked_at(s3, tail, t) by {
            assert(linked_at(s3, p, t + i + 1));
        }
    }
    assert(head[0] == a && head.last() == p[i]);
    assert(tail[0] == p[i + 1] && tail.last() == b);
    assert(joined(s3, a, p[i]));
    assert(joined(s3, p[i + 1], b));
    assert(adjacent(s3, a, b)) by {
        assert(s3[rest.len() as int].joins(a, b));
    }
    lemma_adjacent_joined(s3, a, b);
    lemma_joined_symmetric(s3, a, p[i]);
    lemma_joined_trans(s3, p[i], a, b);
    lemma_joined_symmetric(s3, p[i + 1], b);
    lemma_joined_trans(s3, p[i], b, p[i + 1]);
    lemma_joined_symmetric(s3, p[i], p[i + 1]);
    assert forall|x: usize, y: usize| #[trigger] adjacent(s2, x, y) implies joined(s3, x, y) by {
        let u = choose|u: int| 0 <= u < s2.len() && #[trigger] s2[u].joins(x, y);
        if u == m {
        } else {
            if u < m {
                assert(s3[u].joins(x, y));
            } else {
                assert(s3[u - 1].joins(x, y));
            }
            lemma_adjacent_joined(s3, x, y);
        }
    }
    assert forall|x: usize, y: usize|
        scope.contains(x) && scope.contains(y) && joined(e, x, y) implies #[trigger] joined(s3, x,
            y) by {
        assert(joined(s2, x, y));
        lemma_joined_lift(s2, s3, x, y);
    }
    s3
}

} // verus!
