//! Undirected graphs stored as adjacency lists.

use vstd::prelude::*;
use crate::paths::{
    lists_view,
    degree_sum, in_bounds, lemma_degree_sum_empty, lemma_degree_sum_push,
    lemma_push_neighbor_in_bounds, lemma_push_neighbor_multiplicity, multiplicity, push_neighbor,
    symmetric,
};

verus! {

/// An undirected graph over the vertices `0..v`.
///
/// Self-loops and parallel edges are allowed. The view is the adjacency structure: one
/// sequence of neighbours per vertex, in insertion order.
#[derive(Debug)]
pub struct Graph {
    v: usize,
    e: usize,
    adj: Vec<Vec<usize>>,
}

impl View for Graph {
    type V = Seq<Seq<usize>>;

    closed spec fn view(&self) -> Seq<Seq<usize>> {
        lists_view(&self.adj)
    }
}

/// The adjacency structure after the undirected edge `v`-`w` is added.
pub open spec fn with_edge(a: Seq<Seq<usize>>, v: usize, w: usize) -> Seq<Seq<usize>> {
    push_neighbor(push_neighbor(a, v, w), w, v)
}

impl Graph {
    /// The representation invariant: every neighbour is a vertex, every edge is stored at
    /// both of its ends, and the edge counter is half the number of stored entries.
    pub closed spec fn wf(&self) -> bool {
        &&& self.adj@.len() == self.v
        &&& in_bounds(self@)
        &&& symmetric(self@)
        &&& degree_sum(self@) == 2 * self.e
    }

    /// Number of edges.
    pub closed spec fn edge_count(&self) -> nat {
        self.e as nat
    }

    /// What the representation invariant says about the view.
    pub proof fn lemma_wf(&self)
        requires
            self.wf(),
        ensures
            in_bounds(self@),
            symmetric(self@),
            degree_sum(self@) == 2 * self.edge_count(),
            self.edge_count() <= usize::MAX,
            self@.len() <= usize::MAX,
    {
    }

    /// A graph with `v` vertices and no edges.
    pub fn new(v: usize) -> (g: Graph)
        ensures
            g.wf(),
            g@.len() == v,
            forall|i: int| 0 <= i < v ==> (#[trigger] g@[i]).len() == 0,
            g.edge_count() == 0,
    {
        let mut adj: Vec<Vec<usize>> = Vec::new();
        let mut i: usize = 0;
        while i < v
            invariant
                i <= v,
                adj@.len() == i,
                forall|k: int| 0 <= k < i ==> (#[trigger] adj@[k])@.len() == 0,
            decreases v - i,
        {
            adj.push(Vec::new());
            i += 1;
        }
        let g = Graph { v, e: 0, adj };
        proof {
            lemma_degree_sum_empty(g@);
            assert forall|x: usize, y: usize| x < g@.len() && y < g@.len() implies
                #[trigger] multiplicity(
                g@,
                x,
                y,
            ) == multiplicity(g@, y, x) by {
                broadcast use vstd::seq_lib::group_to_multiset_ensures;
                assert(g@[x as int] =~= Seq::<usize>::empty());
                assert(g@[y as int] =~= Seq::<usize>::empty());
            }
        }
        g
    }

    /// Adds the edge `v`-`w`: `w` becomes the last neighbour of `v`, then `v` the last
    /// neighbour of `w`.
    pub fn add_edge(&mut self, v: usize, w: usize)
        requires
            old(self).wf(),
            v < old(self)@.len(),
            w < old(self)@.len(),
            old(self).edge_count() < usize::MAX,
        ensures
            final(self).wf(),
            final(self).edge_count() == old(self).edge_count() + 1,
            final(self)@ == with_edge(old(self)@, v, w),
    {
        self.adj[v].push(w);
        self.adj[w].push(v);
        self.e += 1;
        proof {
            let a = old(self)@;
            let b = push_neighbor(a, v, w);
            let c = with_edge(a, v, w);
            assert(self@ =~= c);
            lemma_push_neighbor_in_bounds(a, v, w);
            lemma_push_neighbor_in_bounds(b, w, v);
            lemma_degree_sum_push(a, v, w);
            lemma_degree_sum_push(b, w, v);
            assert forall|x: usize, y: usize| x < c.len() && y < c.len() implies
                #[trigger] multiplicity(
                c,
                x,
                y,
            ) == multiplicity(c, y, x) by {
                lemma_push_neighbor_multiplicity(a, v, w, x, y);
                lemma_push_neighbor_multiplicity(b, w, v, x, y);
                lemma_push_neighbor_multiplicity(a, v, w, y, x);
                lemma_push_neighbor_multiplicity(b, w, v, y, x);
                assert(multiplicity(a, x, y) == multiplicity(a, y, x));
            }
        }
    }

    /// The neighbours of `v`, in insertion order.
    pub fn adj(&self, v: usize) -> (r: &[usize])
        requires
            self.wf(),
            v < self@.len(),
        ensures
            r@ == self@[v as int],
    {
        self.adj[v].as_slice()
    }

    /// All neighbour lists at once, for the algorithms of this crate.
    pub(crate) fn lists(&self) -> (r: &Vec<Vec<usize>>)
        requires
            self.wf(),
        ensures
            lists_view(r) == self@,
            in_bounds(self@),
    {
        &self.adj
    }

    /// Number of vertices.
    pub fn v(&self) -> (r: usize)
        requires
            self.wf(),
        ensures
            r == self@.len(),
    {
        self.v
    }

    /// Number of edges.
    pub fn e(&self) -> (r: usize)
        ensures
            r == self.edge_count(),
    {
        self.e
    }
}

} // verus!
