//! Edge-weighted undirected graphs.

use vstd::prelude::*;
use crate::edge::Edge;
use crate::spanning::within;

verus! {

/// The positions in `edges` of the edges that touch `x`, in ascending order; an edge
/// from `x` to itself is listed twice.
pub open spec fn incident(edges: Seq<Edge>, x: usize) -> Seq<usize>
    decreases edges.len(),
{
    if edges.len() == 0 {
        Seq::empty()
    } else {
        let rest = incident(edges.drop_last(), x);
        let i = (edges.len() - 1) as usize;
        let first = if edges.last().v == x {
            rest.push(i)
        } else {
            rest
        };
        if edges.last().w == x {
            first.push(i)
        } else {
            first
        }
    }
}

/// The edges that touch `x`, in the order in which they were added.
pub open spec fn incident_edges(edges: Seq<Edge>, x: usize) -> Seq<Edge> {
    incident(edges, x).map_values(|h: usize| edges[h as int])
}

/// Whether `e` leads from `x` to a vertex with a greater number.
pub open spec fn leads_up(e: Edge, x: usize) -> bool {
    match e.spec_other(x) {
        Some(y) => y > x,
        None => false,
    }
}

/// The edges of `row` that lead from `x` to a vertex with a greater number.
pub open spec fn upward(row: Seq<Edge>, x: usize) -> Seq<Edge>
    decreases row.len(),
{
    if row.len() == 0 {
        Seq::empty()
    } else if leads_up(row.last(), x) {
        upward(row.drop_last(), x).push(row.last())
    } else {
        upward(row.drop_last(), x)
    }
}

/// Every edge between two distinct vertices once: for each of the vertices below `n` in
/// turn, the edges that lead from it to a vertex with a greater number.
pub open spec fn listed(edges: Seq<Edge>, n: nat) -> Seq<Edge>
    decreases n,
{
    if n == 0 {
        Seq::empty()
    } else {
        listed(edges, (n - 1) as nat) + upward(incident_edges(edges, (n - 1) as usize),
            (n - 1) as usize)
    }
}

/// Both ends of every edge are below `n`.
pub open spec fn ends_below(edges: Seq<Edge>, n: nat) -> bool {
    forall|i: int| 0 <= i < edges.len() ==> (#[trigger] edges[i]).v < n && edges[i].w < n
}

/// The entries of an incidence list are positions of edges that touch the vertex.
pub proof fn lemma_incident_touches(edges: Seq<Edge>, x: usize, j: int)
    requires
        edges.len() <= usize::MAX,
        0 <= j < incident(edges, x).len(),
    ensures
        incident(edges, x)[j] < edges.len(),
        edges[incident(edges, x)[j] as int].touches(x),
    decreases edges.len(),
{
    if edges.len() > 0 {
        let rest = incident(edges.drop_last(), x);
        if j < rest.len() {
            lemma_incident_touches(edges.drop_last(), x, j);
            assert(incident(edges, x)[j] == rest[j]);
        }
    }
}

/// Every edge that touches a vertex has its position in the incidence list.
pub proof fn lemma_incident_complete(edges: Seq<Edge>, x: usize, i: int)
    requires
        edges.len() <= usize::MAX,
        0 <= i < edges.len(),
        edges[i].touches(x),
    ensures
        incident(edges, x).contains(i as usize),
    decreases edges.len(),
{
    let rest = incident(edges.drop_last(), x);
    let all = incident(edges, x);
    if i < edges.len() - 1 {
        lemma_incident_complete(edges.drop_last(), x, i);
        let j = choose|j: int| 0 <= j < rest.len() && rest[j] == i as usize;
        assert(all[j] == rest[j]);
    } else {
        if edges.last().w == x {
            assert(all[all.len() - 1] == i as usize);
        } else {
            assert(all[all.len() - 1] == i as usize);
        }
    }
}

/// Every edge that is kept is an edge of the row and leads up.
pub proof fn lemma_upward_of(row: Seq<Edge>, x: usize, k: int)
    requires
        0 <= k < upward(row, x).len(),
    ensures
        row.contains(upward(row, x)[k]),
        leads_up(upward(row, x)[k], x),
    decreases row.len(),
{
    if row.len() > 0 {
        let rest = upward(row.drop_last(), x);
        if k < rest.len() {
            lemma_upward_of(row.drop_last(), x, k);
            let j = choose|j: int| 0 <= j < row.drop_last().len() && row.drop_last()[j] == rest[k];
            assert(row[j] == rest[k]);
        } else {
            assert(row[row.len() - 1] == row.last());
        }
    }
}

/// Every edge of the row that leads up is kept.
pub proof fn lemma_upward_keeps(row: Seq<Edge>, x: usize, j: int)
    requires
        0 <= j < row.len(),
        leads_up(row[j], x),
    ensures
        upward(row, x).contains(row[j]),
    decreases row.len(),
{
    let rest = upward(row.drop_last(), x);
    let all = upward(row, x);
    if j < row.len() - 1 {
        lemma_upward_keeps(row.drop_last(), x, j);
        let k = choose|k: int| 0 <= k < rest.len() && rest[k] == row.drop_last()[j];
        assert(all[k] == rest[k]);
    } else {
        assert(all[all.len() - 1] == row[j]);
    }
}

/// The list of all edges holds edges of the graph only.
pub proof fn lemma_listed_within(edges: Seq<Edge>, n: nat)
    requires
        edges.len() <= usize::MAX,
    ensures
        within(listed(edges, n), edges),
        forall|k: int|
            0 <= k < listed(edges, n).len() ==> (#[trigger] listed(edges, n)[k]).v != listed(
                edges,
                n,
            )[k].w,
    decreases n,
{
    if n > 0 {
        let x = (n - 1) as usize;
        lemma_listed_within(edges, (n - 1) as nat);
        let head = listed(edges, (n - 1) as nat);
        let row = incident_edges(edges, x);
        let tail = upward(row, x);
        let all = listed(edges, n);
        assert forall|k: int| 0 <= k < all.len() implies edges.contains(#[trigger] all[k])
            && all[k].v
            != all[k].w by {
            if k < head.len() {
                assert(all[k] == head[k]);
            } else {
                assert(all[k] == tail[k - head.len()]);
                lemma_upward_of(row, x, k - head.len());
                let j = choose|j: int| 0 <= j < row.len() && row[j] == tail[k - head.len()];
                lemma_incident_touches(edges, x, j);
                assert(row[j] == edges[incident(edges, x)[j] as int]);
            }
        }
    }
}

/// The list of all edges holds every edge between two distinct vertices.
pub proof fn lemma_listed_complete(edges: Seq<Edge>, n: nat, i: int)
    requires
        edges.len() <= usize::MAX,
        n <= usize::MAX,
        0 <= i < edges.len(),
        edges[i].v < n || edges[i].w < n,
        edges[i].v != edges[i].w,
    ensures
        listed(edges, n).contains(edges[i]),
    decreases n,
{
    let g = edges[i];
    let low = if g.v < g.w {
        g.v
    } else {
        g.w
    };
    let x = (n - 1) as usize;
    let head = listed(edges, (n - 1) as nat);
    let row = incident_edges(edges, x);
    let tail = upward(row, x);
    let all = listed(edges, n);
    if low < x {
        lemma_listed_complete(edges, (n - 1) as nat, i);
        let k = choose|k: int| 0 <= k < head.len() && head[k] == g;
        assert(all[k] == g);
    } else {
        lemma_incident_complete(edges, x, i);
        let j = choose|j: int| 0 <= j < incident(edges, x).len() && incident(edges, x)[j]
            == i as usize;
        assert(row[j] == g);
        lemma_upward_keeps(row, x, j);
        let k = choose|k: int| 0 <= k < tail.len() && tail[k] == g;
        assert(all[head.len() + k] == g);
    }
}

/// An undirected graph over the vertices `0..v` whose edges carry weights.
///
/// Edges live in one table; the incidence list of a vertex holds positions in it. The
/// view is the table of edges in the order in which they were added.
pub struct EdgeWeightedGraph {
    v: usize,
    e: usize,
    edges: Vec<Edge>,
    adj: Vec<Vec<usize>>,
}

impl View for EdgeWeightedGraph {
    type V = Seq<Edge>;

    closed spec fn view(&self) -> Seq<Edge> {
        self.edges@
    }
}

impl EdgeWeightedGraph {
    /// Number of vertices.
    pub closed spec fn vertices(&self) -> nat {
        self.v as nat
    }

    /// The representation invariant: the ends of every edge are vertices, and the
    /// incidence lists are those of the table.
    pub closed spec fn wf(&self) -> bool {
        &&& self.adj@.len() == self.v
        &&& self.e == self.edges@.len()
        &&& ends_below(self.edges@, self.v as nat)
        &&& forall|x: int| 0 <= x < self.v ==> (#[trigger] self.adj@[x])@ == incident(self.edges@,
            x as usize)
    }

    /// What the representation invariant says about the view.
    pub proof fn lemma_wf(&self)
        requires
            self.wf(),
        ensures
            ends_below(self@, self.vertices()),
            self@.len() <= usize::MAX,
            self.vertices() <= usize::MAX,
    {
    }

    /// A graph with `v` vertices and no edges.
    pub fn new(v: usize) -> (g: EdgeWeightedGraph)
        ensures
            g.wf(),
            g.vertices() == v,
            g@.len() == 0,
    {
        let mut adj: Vec<Vec<usize>> = Vec::new();
        let mut i: usize = 0;
        while i < v
            invariant
                i <= v,
                adj@.len() == i,
                forall|k: int| 0 <= k < i ==> (#[trigger] adj@[k])@ == Seq::<usize>::empty(),
            decreases v - i,
        {
            adj.push(Vec::new());
            i += 1;
        }
        EdgeWeightedGraph { v, e: 0, edges: Vec::new(), adj }
    }

    /// Number of vertices.
    pub fn v(&self) -> (r: usize)
        ensures
            r == self.vertices(),
    {
        self.v
    }

    /// Number of edges.
    pub fn e(&self) -> (r: usize)
        requires
            self.wf(),
        ensures
            r == self@.len(),
    {
        self.e
    }

    /// Adds `e` at the end of the table and of the incidence lists of its two ends.
    pub fn add_edge(&mut self, e: Edge)
        requires
            old(self).wf(),
            e.v < old(self).vertices(),
            e.w < old(self).vertices(),
        ensures
            final(self).wf(),
            final(self).vertices() == old(self).vertices(),
            final(self)@ == old(self)@.push(e),
    {
        let v = e.either();
        let handle = self.edges.len();
        self.edges.push(e);
        self.adj[v].push(handle);
        match e.other(v) {
            Some(w) => {
                self.adj[w].push(handle);
            },
            None => {},
        }
        self.e = self.edges.len();
        proof {
            assert(self.edges@.drop_last() =~= old(self).edges@);
            assert forall|x: int| 0 <= x < self.v implies (#[trigger] self.adj@[x])@ == incident(
                self.edges@,
                x as usize,
            ) by {
                assert(old(self).adj@[x]@ == incident(old(self).edges@, x as usize));
            }
        }
    }

    /// The edges that touch `v`, in the order in which they were added.
    pub fn adj(&self, v: usize) -> (r: Vec<Edge>)
        requires
            self.wf(),
            v < self.vertices(),
        ensures
            r@ == incident_edges(self@, v),
    {
        let row = &self.adj[v];
        let mut r: Vec<Edge> = Vec::with_capacity(row.len());
        let mut j: usize = 0;
        while j < row.len()
            invariant
                self.wf(),
                v < self.v,
                row@ == incident(self.edges@, v),
                j <= row@.len(),
                r@.len() == j,
                forall|k: int| 0 <= k < j ==> r@[k] == self.edges@[row@[k] as int],
            decreases row@.len() - j,
        {
            proof {
                lemma_incident_touches(self.edges@, v, j as int);
            }
            r.push(self.edges[row[j]]);
            j += 1;
        }
        assert(r@ =~= incident_edges(self@, v));
        r
    }

    /// Every edge between two distinct vertices once, as [`listed`] orders them.
    pub fn edges(&self) -> (r: Vec<Edge>)
        requires
            self.wf(),
        ensures
            r@ == listed(self@, self.vertices()),
    {
        let mut b: Vec<Edge> = Vec::new();
        let mut v: usize = 0;
        while v < self.v
            invariant
                self.wf(),
                v <= self.v,
                b@ == listed(self@, v as nat),
            decreases self.v - v,
        {
            let row = self.adj(v);
            let ghost head = b@;
            let mut j: usize = 0;
            proof {
                assert(row@.take(0) =~= Seq::<Edge>::empty());
                assert(head + Seq::<Edge>::empty() =~= head);
            }
            while j < row.len()
                invariant
                    j <= row@.len(),
                    b@ == head + upward(row@.take(j as int), v),
                decreases row@.len() - j,
            {
                let e = row[j];
                proof {
                    assert(row@.take(j as int + 1).drop_last() =~= row@.take(j as int));
                    assert(row@.take(j as int + 1).last() == e);
                }
                let up = match e.other(v) {
                    Some(w) => w > v,
                    None => false,
                };
                if up {
                    b.push(e);
                    proof {
                        assert(b@ =~= head + upward(row@.take(j as int + 1), v));
                    }
                }
                j += 1;
            }
            proof {
                assert(row@.take(j as int) =~= row@);
            }
            v += 1;
        }
        b
    }
}

} // verus!
