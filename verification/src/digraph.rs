//! Directed graphs stored as adjacency lists.

use vstd::prelude::*;
use crate::paths::{
    is_walk, lemma_walk_vertices, lists_view, reachable,
    degree_sum, has_edge, in_bounds, lemma_degree_sum_empty, lemma_degree_sum_push,
    lemma_push_neighbor_in_bounds, multiplicity, push_neighbor,
};

verus! {

/// A directed graph over the vertices `0..v`.
///
/// The view is the adjacency structure: for each vertex the heads of its outgoing edges,
/// in insertion order.
#[derive(Debug)]
pub struct Digraph {
    v: usize,
    e: usize,
    adj: Vec<Vec<usize>>,
}

impl View for Digraph {
    type V = Seq<Seq<usize>>;

    closed spec fn view(&self) -> Seq<Seq<usize>> {
        lists_view(&self.adj)
    }
}

/// `n` copies of `x`.
pub open spec fn repeat(x: usize, n: nat) -> Seq<usize> {
    Seq::new(n, |i: int| x)
}

/// The vertices below `n` that have an edge to `w`, in ascending order, each as many times
/// as it lists `w`.
pub open spec fn sources(a: Seq<Seq<usize>>, w: usize, n: nat) -> Seq<usize>
    decreases n,
{
    if n == 0 {
        Seq::empty()
    } else {
        sources(a, w, (n - 1) as nat) + repeat((n - 1) as usize, multiplicity(a, (n - 1) as usize,
            w))
    }
}

/// The adjacency structure with every edge turned around.
pub open spec fn reversed(a: Seq<Seq<usize>>) -> Seq<Seq<usize>> {
    Seq::new(a.len(), |w: int| sources(a, w as usize, a.len()))
}

/// A vertex is listed among the sources of `w` exactly when it has an edge to `w`.
pub proof fn lemma_sources_contains(a: Seq<Seq<usize>>, w: usize, n: nat, v: usize)
    requires
        n <= a.len() <= usize::MAX,
    ensures
        sources(a, w, n).contains(v) <==> v < n && multiplicity(a, v, w) > 0,
    decreases n,
{
    if n > 0 {
        let m = (n - 1) as nat;
        lemma_sources_contains(a, w, m, v);
        let head = sources(a, w, m);
        let tail = repeat(m as usize, multiplicity(a, m as usize, w));
        if head.contains(v) {
            let i = choose|i: int| 0 <= i < head.len() && head[i] == v;
            assert((head + tail)[i] == v);
        }
        if v == m && multiplicity(a, v, w) > 0 {
            assert((head + tail)[head.len() as int] == v);
        }
        if (head + tail).contains(v) {
            let i = choose|i: int| 0 <= i < (head + tail).len() && (head + tail)[i] == v;
            if i < head.len() {
                assert(head[i] == v);
            } else {
                assert(tail[i - head.len()] == v);
            }
        }
    }
}

/// Turning the edges around swaps the two ends of every edge and nothing else.
pub proof fn lemma_reversed_edge(a: Seq<Seq<usize>>, v: usize, w: usize)
    requires
        in_bounds(a),
        a.len() <= usize::MAX,
    ensures
        has_edge(reversed(a), w, v) <==> has_edge(a, v, w),
{
    broadcast use vstd::seq_lib::group_to_multiset_ensures;
    if w < a.len() {
        lemma_sources_contains(a, w, a.len(), v);
        if v < a.len() && a[v as int].contains(w) {
            assert(multiplicity(a, v, w) > 0);
        }
        if v < a.len() && multiplicity(a, v, w) > 0 {
            assert(a[v as int].contains(w));
        }
    }
}

/// Turning the edges around keeps the vertices.
pub proof fn lemma_reversed_in_bounds(a: Seq<Seq<usize>>)
    requires
        in_bounds(a),
        a.len() <= usize::MAX,
    ensures
        in_bounds(reversed(a)),
        reversed(a).len() == a.len(),
{
    let r = reversed(a);
    assert forall|w: int, j: int| 0 <= w < r.len() && 0 <= j < r[w].len() implies
        (#[trigger] r[w][j])
        < r.len() by {
        let v = r[w][j];
        assert(r[w].contains(v));
        lemma_sources_contains(a, w as usize, a.len(), v);
    }
}

/// Read backwards, a walk is a walk in the graph with every edge turned around.
pub proof fn lemma_reversed_walk(a: Seq<Seq<usize>>, p: Seq<usize>)
    requires
        in_bounds(a),
        a.len() <= usize::MAX,
    ensures
        is_walk(a, p) <==> is_walk(reversed(a), p.reverse()),
{
    let r = reversed(a);
    let q = p.reverse();
    lemma_reversed_in_bounds(a);
    if is_walk(a, p) {
        lemma_walk_vertices(a, p);
        assert forall|i: int| 0 <= i < q.len() - 1 implies has_edge(r, #[trigger] q[i], q[i + 1])
            by {
            let k = p.len() - 2 - i;
            assert(q[i] == p[k + 1] && q[i + 1] == p[k]);
            assert(has_edge(a, p[k], p[k + 1]));
            lemma_reversed_edge(a, p[k], p[k + 1]);
        }
    }
    if is_walk(r, q) {
        lemma_walk_vertices(r, q);
        assert(p[0] == q[q.len() - 1]);
        assert forall|i: int| 0 <= i < p.len() - 1 implies has_edge(a, #[trigger] p[i], p[i + 1])
            by {
            let k = q.len() - 2 - i;
            assert(p[i] == q[k + 1] && p[i + 1] == q[k]);
            assert(has_edge(r, q[k], q[k + 1]));
            lemma_reversed_edge(a, p[i], p[i + 1]);
        }
    }
}

/// Turning the edges around turns reachability around.
pub proof fn lemma_reversed_reachable(a: Seq<Seq<usize>>, s: usize, t: usize)
    requires
        in_bounds(a),
        a.len() <= usize::MAX,
    ensures
        reachable(reversed(a), t, s) <==> reachable(a, s, t),
{
    let r = reversed(a);
    if reachable(a, s, t) {
        let p = choose|p: Seq<usize>| #[trigger] is_walk(a, p) && p[0] == s && p.last() == t;
        lemma_reversed_walk(a, p);
        assert(is_walk(r, p.reverse()) && p.reverse()[0] == t && p.reverse().last() == s);
    }
    if reachable(r, t, s) {
        let q = choose|q: Seq<usize>| #[trigger] is_walk(r, q) && q[0] == t && q.last() == s;
        let p = q.reverse();
        assert(p.reverse() =~= q);
        lemma_reversed_walk(a, p);
        assert(is_walk(a, p) && p[0] == s && p.last() == t);
    }
}

/// The entries of the first `n + 1` lists are those of the first `n` and those of list `n`.
proof fn lemma_degree_sum_take(a: Seq<Seq<usize>>, n: int)
    requires
        0 <= n < a.len(),
    ensures
        degree_sum(a.take(n + 1)) == degree_sum(a.take(n)) + a[n].len(),
        degree_sum(a.take(n + 1)) <= degree_sum(a),
    decreases a.len(),
{
    assert(a.take(n + 1).drop_last() =~= a.take(n));
    if n + 1 == a.len() {
        assert(a.take(n + 1) =~= a);
    } else {
        assert(a.drop_last().take(n + 1) =~= a.take(n + 1));
        assert(a.drop_last().take(n) =~= a.take(n));
        lemma_degree_sum_take(a.drop_last(), n);
    }
}

impl Digraph {
    /// The representation invariant: every head is a vertex and the edge counter is the
    /// number of stored entries.
    pub closed spec fn wf(&self) -> bool {
        &&& self.adj@.len() == self.v
        &&& in_bounds(self@)
        &&& degree_sum(self@) == self.e
    }

    /// Number of edges.
    pub closed spec fn edge_count(&self) -> nat {
        self.e as nat
    }

    /// What the representation invariant says about the view.
    pub proof fn lemma_wf(&self)
        requires
            self.wf(),
        ensures
            in_bounds(self@),
            degree_sum(self@) == self.edge_count(),
            self.edge_count() <= usize::MAX,
            self@.len() <= usize::MAX,
    {
    }

    /// A digraph with `v` vertices and no edges.
    pub fn new(v: usize) -> (g: Digraph)
        ensures
            g.wf(),
            g@.len() == v,
            forall|i: int| 0 <= i < v ==> (#[trigger] g@[i]).len() == 0,
            g.edge_count() == 0,
    {
        let mut adj: Vec<Vec<usize>> = Vec::new();
        let mut i: usize = 0;
        while i < v
            invariant
                i <= v,
                adj@.len() == i,
                forall|k: int| 0 <= k < i ==> (#[trigger] adj@[k])@.len() == 0,
            decreases v - i,
        {
            adj.push(Vec::new());
            i += 1;
        }
        let g = Digraph { v, e: 0, adj };
        proof {
            lemma_degree_sum_empty(g@);
        }
        g
    }

    /// Adds the edge `v -> w`: `w` becomes the last entry in the list of `v`.
    pub fn add_edge(&mut self, v: usize, w: usize)
        requires
            old(self).wf(),
            v < old(self)@.len(),
            w < old(self)@.len(),
            old(self).edge_count() < usize::MAX,
        ensures
            final(self).wf(),
            final(self).edge_count() == old(self).edge_count() + 1,
            final(self)@ == push_neighbor(old(self)@, v, w),
    {
        self.adj[v].push(w);
        self.e += 1;
        proof {
            let a = old(self)@;
            assert(self@ =~= push_neighbor(a, v, w));
            lemma_push_neighbor_in_bounds(a, v, w);
            lemma_degree_sum_push(a, v, w);
        }
    }

    /// The heads of the edges that leave `v`, in insertion order.
    pub fn adj(&self, v: usize) -> (r: &[usize])
        requires
            self.wf(),
            v < self@.len(),
        ensures
            r@ == self@[v as int],
    {
        self.adj[v].as_slice()
    }

    /// All neighbour lists at once, for the algorithms of this crate.
    pub(crate) fn lists(&self) -> (r: &Vec<Vec<usize>>)
        requires
            self.wf(),
        ensures
            lists_view(r) == self@,
            in_bounds(self@),
    {
        &self.adj
    }

    /// Number of vertices.
    pub fn v(&self) -> (r: usize)
        requires
            self.wf(),
        ensures
            r == self@.len(),
    {
        self.v
    }

    /// Number of edges.
    pub fn e(&self) -> (r: usize)
        ensures
            r == self.edge_count(),
    {
        self.e
    }

    /// A new digraph on the same vertices in which every edge points the other way.
    pub fn reverse(&self) -> (r: Digraph)
        requires
            self.wf(),
        ensures
            r.wf(),
            r@ == reversed(self@),
            r.edge_count() == self.edge_count(),
    {
        let n = self.v;
        let mut r = Digraph::new(n);
        let ghost a = self@;
        let mut v: usize = 0;
        assert forall|w: int| 0 <= w < n implies #[trigger] r@[w] == sources(a, w as usize, 0) by {
            assert(r@[w] =~= Seq::<usize>::empty());
        }
        assert(a.take(0) =~= Seq::<Seq<usize>>::empty());
        while v < n
            invariant
                self.wf(),
                a == self@,
                n == a.len(),
                v <= n,
                r.wf(),
                r@.len() == n,
                r.edge_count() == degree_sum(a.take(v as int)),
                forall|w: int| 0 <= w < n ==> #[trigger] r@[w] == sources(a, w as usize, v as nat),
            decreases n - v,
        {
            let row = self.adj(v);
            let mut j: usize = 0;
            proof {
                lemma_degree_sum_take(a, v as int);
                broadcast use vstd::seq_lib::group_to_multiset_ensures;
                assert(a[v as int].take(0) =~= Seq::<usize>::empty());
                assert forall|w: int| 0 <= w < n implies #[trigger] r@[w] == sources(
                    a,
                    w as usize,
                    v as nat,
                ) + repeat(v, a[v as int].take(0).to_multiset().count(w as usize)) by {
                    assert(repeat(v, 0) =~= Seq::<usize>::empty());
                    assert(r@[w] + Seq::<usize>::empty() =~= r@[w]);
                }
            }
            while j < row.len()
                invariant
                    self.wf(),
                    a == self@,
                    n == a.len(),
                    v < n,
                    row@ == a[v as int],
                    j <= row@.len(),
                    r.wf(),
                    r@.len() == n,
                    r.edge_count() == degree_sum(a.take(v as int)) + j,
                    degree_sum(a.take(v as int)) + row@.len() <= degree_sum(a),
                    degree_sum(a.take(v as int + 1)) == degree_sum(a.take(v as int)) + row@.len(),
                    forall|w: int|
                        0 <= w < n ==> #[trigger] r@[w] == sources(a, w as usize,
                            v as nat) + repeat(
                            v,
                            a[v as int].take(j as int).to_multiset().count(w as usize),
                        ),
                decreases row@.len() - j,
            {
                let x = row[j];
                let ghost before = r@;
                r.add_edge(x, v);
                proof {
                    broadcast use vstd::seq_lib::group_to_multiset_ensures;
                    let pre = a[v as int].take(j as int);
                    let post = a[v as int].take(j as int + 1);
                    assert(post =~= pre.push(x));
                    assert forall|w: int| 0 <= w < n implies #[trigger] r@[w] == sources(
                        a,
                        w as usize,
                        v as nat,
                    ) + repeat(v, post.to_multiset().count(w as usize)) by {
                        if w == x {
                            assert(repeat(v, pre.to_multiset().count(x)).push(v) =~= repeat(
                                v,
                                post.to_multiset().count(x),
                            ));
                            assert(r@[w] =~= sources(a, w as usize, v as nat) + repeat(
                                v,
                                post.to_multiset().count(w as usize),
                            ));
                        } else {
                            assert(r@[w] == before[w]);
                        }
                    }
                }
                j += 1;
            }
            proof {
                assert(a[v as int].take(j as int) =~= a[v as int]);
            }
            v += 1;
        }
        proof {
            assert(a.take(n as int) =~= a);
            assert(r@ =~= reversed(a));
        }
        r
    }
}

} // verus!
