//! Edge-weighted directed graphs.

use vstd::prelude::*;
use crate::directed_edge::DirectedEdge;

verus! {

/// The rows of `rows` below `n`, one after the other.
pub open spec fn flattened(rows: Seq<Seq<DirectedEdge>>, n: nat) -> Seq<DirectedEdge>
    decreases n,
{
    if n == 0 {
        Seq::empty()
    } else {
        flattened(rows, (n - 1) as nat) + rows[n - 1]
    }
}

/// Rows without edges give no edges.
pub proof fn lemma_flattened_empty(rows: Seq<Seq<DirectedEdge>>, n: nat)
    requires
        n <= rows.len(),
        forall|i: int| 0 <= i < rows.len() ==> (#[trigger] rows[i]).len() == 0,
    ensures
        flattened(rows, n).len() == 0,
    decreases n,
{
    if n > 0 {
        lemma_flattened_empty(rows, (n - 1) as nat);
    }
}

/// One more edge in a row makes the list of all edges longer by one.
pub proof fn lemma_flattened_push(rows: Seq<Seq<DirectedEdge>>, n: nat, v: int, e: DirectedEdge)
    requires
        n <= rows.len(),
        0 <= v < rows.len(),
    ensures
        flattened(rows.update(v, rows[v].push(e)), n).len() == flattened(rows, n).len() + if v < n {
            1nat
        } else {
            0nat
        },
    decreases n,
{
    if n > 0 {
        lemma_flattened_push(rows, (n - 1) as nat, v, e);
    }
}

/// A directed graph over the vertices `0..v` whose edges carry weights.
///
/// The view gives for each vertex the edges that leave it, in insertion order.
pub struct EdgeWeightedDigraph {
    v: usize,
    e: usize,
    adj: Vec<Vec<DirectedEdge>>,
}

impl View for EdgeWeightedDigraph {
    type V = Seq<Seq<DirectedEdge>>;

    closed spec fn view(&self) -> Seq<Seq<DirectedEdge>> {
        self.adj@.map_values(|row: Vec<DirectedEdge>| row@)
    }
}

impl EdgeWeightedDigraph {
    /// The representation invariant: every edge is stored with the vertex it leaves and
    /// leads to a vertex of the graph, and the edge counter is the number of stored edges.
    pub closed spec fn wf(&self) -> bool {
        &&& self.adj@.len() == self.v
        &&& self.e == flattened(self@, self@.len()).len()
        &&& forall|v: int, j: int|
            0 <= v < self@.len() && 0 <= j < self@[v].len() ==> (#[trigger] self@[v][j]).v == v
                && self@[v][j].w < self@.len()
    }

    /// Number of edges.
    pub closed spec fn edge_count(&self) -> nat {
        self.e as nat
    }

    /// What the representation invariant says about the view.
    pub proof fn lemma_wf(&self)
        requires
            self.wf(),
        ensures
            forall|v: int, j: int|
                0 <= v < self@.len() && 0 <= j < self@[v].len() ==> (#[trigger] self@[v][j]).v == v
                    && self@[v][j].w < self@.len(),
            self.edge_count() == flattened(self@, self@.len()).len(),
    {
    }

    /// A graph with `v` vertices and no edges.
    pub fn new(v: usize) -> (g: EdgeWeightedDigraph)
        ensures
            g.wf(),
            g@.len() == v,
            forall|i: int| 0 <= i < v ==> (#[trigger] g@[i]).len() == 0,
            g.edge_count() == 0,
    {
        let mut adj: Vec<Vec<DirectedEdge>> = Vec::new();
        let mut i: usize = 0;
        while i < v
            invariant
                i <= v,
                adj@.len() == i,
                forall|k: int| 0 <= k < i ==> (#[trigger] adj@[k])@.len() == 0,
            decreases v - i,
        {
            adj.push(Vec::new());
            i += 1;
        }
        let g = EdgeWeightedDigraph { v, e: 0, adj };
        proof {
            lemma_flattened_empty(g@, v as nat);
        }
        g
    }

    /// Number of vertices.
    pub fn v(&self) -> (r: usize)
        requires
            self.wf(),
        ensures
            r == self@.len(),
    {
        self.v
    }

    /// Number of edges.
    pub fn e(&self) -> (r: usize)
        ensures
            r == self.edge_count(),
    {
        self.e
    }

    /// Adds `e` as the last edge that leaves its start.
    pub fn add_edge(&mut self, e: DirectedEdge)
        requires
            old(self).wf(),
            e.v < old(self)@.len(),
            e.w < old(self)@.len(),
            old(self).edge_count() < usize::MAX,
        ensures
            final(self).wf(),
            final(self).edge_count() == old(self).edge_count() + 1,
            final(self)@ == old(self)@.update(e.v as int, old(self)@[e.v as int].push(e)),
    {
        let v = e.from();
        self.adj[v].push(e);
        self.e += 1;
        proof {
            let a = old(self)@;
            let b = a.update(e.v as int, a[e.v as int].push(e));
            assert(self@ =~= b);
            lemma_flattened_push(a, a.len(), e.v as int, e);
            assert forall|x: int, j: int| 0 <= x < b.len() && 0 <= j < b[x].len() implies
                (#[trigger] b[x][j]).v
                == x && b[x][j].w < b.len() by {
                if x == e.v && j == a[x].len() {
                } else {
                    assert(b[x][j] == a[x][j]);
                }
            }
        }
    }

    /// The edges that leave `v`, in insertion order.
    pub fn adj(&self, v: usize) -> (r: &[DirectedEdge])
        requires
            self.wf(),
            v < self@.len(),
        ensures
            r@ == self@[v as int],
    {
        self.adj[v].as_slice()
    }

    /// All edges, ordered by the vertex they leave and then by insertion.
    pub fn edges(&self) -> (r: Vec<DirectedEdge>)
        requires
            self.wf(),
        ensures
            r@ == flattened(self@, self@.len()),
    {
        let mut r: Vec<DirectedEdge> = Vec::new();
        let mut v: usize = 0;
        while v < self.v
            invariant
                self.wf(),
                v <= self.v,
                self.v == self@.len(),
                r@ == flattened(self@, v as nat),
            decreases self.v - v,
        {
            let row = self.adj(v);
            let mut j: usize = 0;
            let ghost head = r@;
            while j < row.len()
                invariant
                    j <= row@.len(),
                    r@ == head + row@.take(j as int),
                decreases row@.len() - j,
            {
                r.push(row[j]);
                proof {
                    assert(row@.take(j as int + 1) =~= row@.take(j as int).push(row@[j as int]));
                    assert(r@ =~= head + row@.take(j as int + 1));
                }
                j += 1;
            }
            proof {
                assert(row@.take(j as int) =~= row@);
            }
            v += 1;
        }
        r
    }
}

} // verus!
