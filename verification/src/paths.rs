//! Walks and reachability over adjacency lists.
//!
//! An adjacency structure is a sequence with one entry per vertex; entry `v` lists the
//! vertices that `v` has an edge to, in insertion order and with repetitions.

use vstd::prelude::*;

verus! {

/// The adjacency structure that a vector of neighbour lists stands for.
pub open spec fn lists_view(lists: &Vec<Vec<usize>>) -> Seq<Seq<usize>> {
    lists@.map_values(|row: Vec<usize>| row@)
}

/// Every listed neighbour is itself a vertex.
pub open spec fn in_bounds(a: Seq<Seq<usize>>) -> bool {
    forall|v: int, j: int|
        0 <= v < a.len() && 0 <= j < a[v].len() ==> (#[trigger] a[v][j]) < a.len()
}

/// There is an edge from `v` to `w`.
pub open spec fn has_edge(a: Seq<Seq<usize>>, v: usize, w: usize) -> bool {
    v < a.len() && w < a.len() && a[v as int].contains(w)
}

/// `p` is a non-empty sequence of vertices in which each one has an edge to the next.
pub open spec fn is_walk(a: Seq<Seq<usize>>, p: Seq<usize>) -> bool {
    &&& p.len() >= 1
    &&& p[0] < a.len()
    &&& forall|i: int| 0 <= i < p.len() - 1 ==> has_edge(a, #[trigger] p[i], p[i + 1])
}

/// Some walk leads from `s` to `t`.
pub open spec fn reachable(a: Seq<Seq<usize>>, s: usize, t: usize) -> bool {
    exists|p: Seq<usize>| #[trigger] is_walk(a, p) && p[0] == s && p.last() == t
}

/// How many times `w` is listed as a neighbour of `v`.
pub open spec fn multiplicity(a: Seq<Seq<usize>>, v: usize, w: usize) -> nat {
    a[v as int].to_multiset().count(w)
}

/// Each of the two vertices can be reached from the other.
pub open spec fn mutual(a: Seq<Seq<usize>>, v: usize, w: usize) -> bool {
    reachable(a, v, w) && reachable(a, w, v)
}

/// Some edge leads to a vertex from which its own start can be reached.
pub open spec fn has_directed_cycle(a: Seq<Seq<usize>>) -> bool {
    exists|v: usize, w: usize| #[trigger] has_edge(a, v, w) && reachable(a, w, v)
}

/// `c` is a walk of at least one edge that ends where it starts and passes no other
/// vertex twice.
pub open spec fn is_cycle(a: Seq<Seq<usize>>, c: Seq<usize>) -> bool {
    &&& c.len() >= 2
    &&& is_walk(a, c)
    &&& c[0] == c.last()
    &&& c.drop_last().no_duplicates()
}

/// Every edge is matched by as many edges in the opposite direction.
pub open spec fn symmetric(a: Seq<Seq<usize>>) -> bool {
    forall|v: usize, w: usize|
        v < a.len() && w < a.len() ==> #[trigger] multiplicity(a, v, w) == multiplicity(a, w, v)
}

/// The adjacency structure after `w` is appended to the neighbours of `v`.
pub open spec fn push_neighbor(a: Seq<Seq<usize>>, v: usize, w: usize) -> Seq<Seq<usize>> {
    a.update(v as int, a[v as int].push(w))
}

/// Total number of neighbour entries over all vertices.
pub open spec fn degree_sum(a: Seq<Seq<usize>>) -> nat
    decreases a.len(),
{
    if a.len() == 0 {
        0
    } else {
        degree_sum(a.drop_last()) + a.last().len()
    }
}

/// The set of marked vertices has no edge leaving it.
pub open spec fn closed(a: Seq<Seq<usize>>, m: Seq<bool>) -> bool {
    &&& m.len() == a.len()
    &&& forall|v: int, j: int|
        0 <= v < a.len() && 0 <= j < a[v].len() && m[v] ==> m[#[trigger] a[v][j] as int]
}

/// One more neighbour makes one more entry.
pub proof fn lemma_degree_sum_push(a: Seq<Seq<usize>>, v: usize, w: usize)
    requires
        v < a.len(),
    ensures
        degree_sum(push_neighbor(a, v, w)) == degree_sum(a) + 1,
    decreases a.len(),
{
    let b = push_neighbor(a, v, w);
    if v == a.len() - 1 {
        assert(b.drop_last() =~= a.drop_last());
    } else {
        assert(b.drop_last() =~= push_neighbor(a.drop_last(), v, w));
        lemma_degree_sum_push(a.drop_last(), v, w);
    }
}

/// Empty lists have no entries.
pub proof fn lemma_degree_sum_empty(a: Seq<Seq<usize>>)
    requires
        forall|i: int| 0 <= i < a.len() ==> (#[trigger] a[i]).len() == 0,
    ensures
        degree_sum(a) == 0,
    decreases a.len(),
{
    if a.len() > 0 {
        lemma_degree_sum_empty(a.drop_last());
    }
}

/// One more neighbour is listed once more, and nothing else changes.
pub proof fn lemma_push_neighbor_multiplicity(a: Seq<Seq<usize>>, v: usize, w: usize, x: usize,
    y: usize)
    requires
        v < a.len(),
        x < a.len(),
    ensures
        multiplicity(push_neighbor(a, v, w), x, y) == multiplicity(a, x, y) + if x == v && y == w {
            1nat
        } else {
            0nat
        },
{
    broadcast use vstd::seq_lib::group_to_multiset_ensures;
}

/// A new neighbour that is a vertex keeps every listed neighbour a vertex.
pub proof fn lemma_push_neighbor_in_bounds(a: Seq<Seq<usize>>, v: usize, w: usize)
    requires
        in_bounds(a),
        v < a.len(),
        w < a.len(),
    ensures
        in_bounds(push_neighbor(a, v, w)),
{
    let b = push_neighbor(a, v, w);
    assert forall|x: int, j: int| 0 <= x < b.len() && 0 <= j < b[x].len() implies
        (#[trigger] b[x][j])
        < b.len() by {
        if x == v && j == a[x].len() {
        } else {
            assert(b[x][j] == a[x][j]);
        }
    }
}

/// A walk passes vertices only.
pub proof fn lemma_walk_vertices(a: Seq<Seq<usize>>, p: Seq<usize>)
    requires
        is_walk(a, p),
    ensures
        forall|i: int| 0 <= i < p.len() ==> (#[trigger] p[i]) < a.len(),
{
    assert forall|i: int| 0 <= i < p.len() implies (#[trigger] p[i]) < a.len() by {
        if i > 0 {
            assert(has_edge(a, p[i - 1], p[i - 1 + 1]));
        }
    }
}

/// Every vertex reaches itself.
pub proof fn lemma_reachable_self(a: Seq<Seq<usize>>, s: usize)
    requires
        s < a.len(),
    ensures
        reachable(a, s, s),
{
    let p = seq![s];
    assert(is_walk(a, p));
    assert(p[0] == s && p.last() == s);
}

/// A walk can be continued over an edge that leaves its end.
pub proof fn lemma_walk_push(a: Seq<Seq<usize>>, p: Seq<usize>, w: usize)
    requires
        is_walk(a, p),
        has_edge(a, p.last(), w),
    ensures
        is_walk(a, p.push(w)),
        p.push(w)[0] == p[0],
        p.push(w).last() == w,
{
    let q = p.push(w);
    assert forall|i: int| 0 <= i < q.len() - 1 implies has_edge(a, #[trigger] q[i], q[i + 1]) by {
        if i < p.len() - 1 {
            assert(has_edge(a, p[i], p[i + 1]));
        }
    }
}

/// What reaches the start of an edge reaches its end.
pub proof fn lemma_reachable_step(a: Seq<Seq<usize>>, s: usize, u: usize, w: usize)
    requires
        reachable(a, s, u),
        has_edge(a, u, w),
    ensures
        reachable(a, s, w),
{
    let p = choose|p: Seq<usize>| #[trigger] is_walk(a, p) && p[0] == s && p.last() == u;
    lemma_walk_push(a, p, w);
    assert(is_walk(a, p.push(w)));
}

/// Two walks, the second starting where the first ends, make one walk.
pub proof fn lemma_walk_concat(a: Seq<Seq<usize>>, p: Seq<usize>, q: Seq<usize>)
    requires
        is_walk(a, p),
        is_walk(a, q),
        p.last() == q[0],
    ensures
        is_walk(a, p + q.subrange(1, q.len() as int)),
        (p + q.subrange(1, q.len() as int))[0] == p[0],
        (p + q.subrange(1, q.len() as int)).last() == q.last(),
{
    let r = p + q.subrange(1, q.len() as int);
    assert forall|i: int| 0 <= i < r.len() - 1 implies has_edge(a, #[trigger] r[i], r[i + 1]) by {
        if i < p.len() - 1 {
            assert(has_edge(a, p[i], p[i + 1]));
        } else {
            let k = i - (p.len() - 1);
            assert(has_edge(a, q[k], q[k + 1]));
        }
    }
}

/// Reaching is transitive.
pub proof fn lemma_reachable_trans(a: Seq<Seq<usize>>, s: usize, u: usize, t: usize)
    requires
        reachable(a, s, u),
        reachable(a, u, t),
    ensures
        reachable(a, s, t),
{
    let p = choose|p: Seq<usize>| #[trigger] is_walk(a, p) && p[0] == s && p.last() == u;
    let q = choose|q: Seq<usize>| #[trigger] is_walk(a, q) && q[0] == u && q.last() == t;
    lemma_walk_concat(a, p, q);
    assert(is_walk(a, p + q.subrange(1, q.len() as int)));
}

/// The rest of a walk is a walk.
pub proof fn lemma_walk_skip(a: Seq<Seq<usize>>, p: Seq<usize>, k: int)
    requires
        is_walk(a, p),
        0 <= k < p.len(),
    ensures
        is_walk(a, p.skip(k)),
        p.skip(k)[0] == p[k],
        p.skip(k).last() == p.last(),
{
    lemma_walk_vertices(a, p);
    let q = p.skip(k);
    assert forall|i: int| 0 <= i < q.len() - 1 implies has_edge(a, #[trigger] q[i], q[i + 1]) by {
        assert(has_edge(a, p[i + k], p[i + k + 1]));
    }
}

/// The beginning of a walk is a walk.
pub proof fn lemma_walk_take(a: Seq<Seq<usize>>, p: Seq<usize>, k: int)
    requires
        is_walk(a, p),
        0 <= k < p.len(),
    ensures
        is_walk(a, p.take(k + 1)),
        p.take(k + 1)[0] == p[0],
        p.take(k + 1).last() == p[k],
{
    let q = p.take(k + 1);
    assert forall|i: int| 0 <= i < q.len() - 1 implies has_edge(a, #[trigger] q[i], q[i + 1]) by {
        assert(has_edge(a, p[i], p[i + 1]));
    }
}

/// A cycle shows that the graph has a directed cycle.
pub proof fn lemma_cycle_witness(a: Seq<Seq<usize>>, c: Seq<usize>)
    requires
        is_cycle(a, c),
    ensures
        has_directed_cycle(a),
{
    assert(has_edge(a, c[0int], c[0int + 1]));
    lemma_walk_skip(a, c, 1);
    assert(is_walk(a, c.skip(1)));
    assert(reachable(a, c[1], c[0]));
}

/// A walk that starts inside a closed set never leaves it.
pub proof fn lemma_closed_walk(a: Seq<Seq<usize>>, m: Seq<bool>, p: Seq<usize>, i: int)
    requires
        closed(a, m),
        is_walk(a, p),
        m[p[0] as int],
        0 <= i < p.len(),
    ensures
        m[p[i] as int],
    decreases i,
{
    if i > 0 {
        lemma_closed_walk(a, m, p, i - 1);
        assert(has_edge(a, p[i - 1], p[i - 1 + 1]));
        let v = p[i - 1];
        let j = choose|j: int| 0 <= j < a[v as int].len() && a[v as int][j] == p[i];
        assert(m[a[v as int][j] as int]);
    }
}

/// Whatever is reached from inside a closed set lies inside it.
pub proof fn lemma_closed_reachable(a: Seq<Seq<usize>>, m: Seq<bool>, s: usize, t: usize)
    requires
        closed(a, m),
        s < a.len(),
        m[s as int],
        reachable(a, s, t),
    ensures
        m[t as int],
{
    let p = choose|p: Seq<usize>| #[trigger] is_walk(a, p) && p[0] == s && p.last() == t;
    lemma_closed_walk(a, m, p, p.len() - 1);
}

/// The reverse of a walk is a walk when every edge has its opposite.
pub proof fn lemma_walk_reverse(a: Seq<Seq<usize>>, p: Seq<usize>)
    requires
        symmetric(a),
        is_walk(a, p),
    ensures
        is_walk(a, p.reverse()),
        p.reverse()[0] == p.last(),
        p.reverse().last() == p[0],
{
    lemma_walk_vertices(a, p);
    let r = p.reverse();
    assert forall|i: int| 0 <= i < r.len() - 1 implies has_edge(a, #[trigger] r[i], r[i + 1]) by {
        let k = p.len() - 2 - i;
        assert(r[i] == p[k + 1]);
        assert(r[i + 1] == p[k]);
        assert(has_edge(a, p[k], p[k + 1]));
        lemma_edge_opposite(a, p[k], p[k + 1]);
    }
}

/// Where every edge has its opposite, an edge can be taken backwards.
pub proof fn lemma_edge_opposite(a: Seq<Seq<usize>>, v: usize, w: usize)
    requires
        symmetric(a),
        has_edge(a, v, w),
    ensures
        has_edge(a, w, v),
{
    broadcast use vstd::seq_lib::group_to_multiset_ensures;
    assert(multiplicity(a, v, w) > 0);
    assert(multiplicity(a, w, v) > 0);
}

/// Where every edge has its opposite, reaching is symmetric.
pub proof fn lemma_reachable_symmetric(a: Seq<Seq<usize>>, s: usize, t: usize)
    requires
        symmetric(a),
        reachable(a, s, t),
    ensures
        reachable(a, t, s),
{
    let p = choose|p: Seq<usize>| #[trigger] is_walk(a, p) && p[0] == s && p.last() == t;
    lemma_walk_reverse(a, p);
    assert(is_walk(a, p.reverse()));
}

} // verus!
