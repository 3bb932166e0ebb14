//! Minimum spanning trees by the eager version of Prim's algorithm.

use vstd::prelude::*;
use crate::dfs::{lemma_unmarked_all, lemma_unmarked_none, lemma_unmarked_set, unmarked};
use crate::edge::Edge;
use crate::edge_weighted_graph::{
    ends_below, incident, incident_edges, lemma_incident_complete, lemma_incident_touches,
    EdgeWeightedGraph,
};
use crate::kruskal_mst::KruskalMST;
use crate::min_pq::{MinPQ, Slotted, Weighted};
use crate::spanning::{
    component, connected, covers, inside, is_chain, is_forest, joined, lemma_adjacent_joined,
    lemma_cut, lemma_joined_push, lemma_joined_self, lemma_joined_symmetric, lemma_joined_trans,
    lemma_joined_within, lemma_promising_empty, lemma_promising_lightest, lemma_tree_covers,
    lemma_untouched, lightest, lightest_across, linked_at, marked_set, promising, reach_marks,
    respects, total, within,
};

verus! {

/// A vertex outside the tree together with the weight of the lightest edge that joins it
/// to the tree.
#[derive(Clone, Copy, Debug, PartialEq, Eq, Structural)]
pub struct EdgeIndex {
    pub v: usize,
    pub weight: u64,
}

impl Weighted for EdgeIndex {
    open spec fn key(&self) -> u64 {
        self.weight
    }

    fn priority(&self) -> (k: u64) {
        self.weight
    }
}

impl Slotted for EdgeIndex {
    open spec fn slot(&self) -> usize {
        self.v
    }

    fn place(&self) -> (s: usize) {
        self.v
    }
}

/// `f` joins `y` with a marked vertex.
pub open spec fn near(marked: Seq<bool>, y: usize, f: Edge) -> bool {
    ||| f.v == y && f.w < marked.len() && marked[f.w as int]
    ||| f.w == y && f.v < marked.len() && marked[f.v as int]
}

/// The recorded edge, if any, weighs no more than `f`.
pub open spec fn no_better(best: Option<Edge>, f: Edge) -> bool {
    match best {
        Some(b) => b.weight <= f.weight,
        None => false,
    }
}

/// A minimum spanning tree of the part of an edge-weighted graph that is connected with
/// vertex 0.
pub struct PrimMST {
    marked: Vec<bool>,
    edge_to: Vec<Option<Edge>>,
    dist_to: Vec<u64>,
    pq: MinPQ<EdgeIndex>,
    mst: Vec<Edge>,
    graph: Ghost<Seq<Edge>>,
}

impl PrimMST {
    /// The edges of the graph that was searched.
    pub closed spec fn graph(&self) -> Seq<Edge> {
        self.graph@
    }

    /// The edges of the tree in the order in which they were chosen.
    pub closed spec fn tree(&self) -> Seq<Edge> {
        self.mst@
    }

    /// Number of vertices of the graph that was searched.
    pub closed spec fn vertices(&self) -> nat {
        self.marked@.len()
    }

    /// The tree consists of edges of the graph, none of them closing a cycle; it
    /// connects whatever the graph connects with vertex 0, with one edge for every such
    /// vertex but vertex 0 itself, and no set of edges of the graph that connects as
    /// much weighs less.
    pub closed spec fn wf(&self) -> bool {
        &&& covers(self.mst@, self.graph@, component(self.graph@, 0))
        &&& is_forest(self.mst@)
        &&& lightest(self.mst@, self.graph@, component(self.graph@, 0))
        &&& ends_below(self.graph@, self.marked@.len())
        &&& self.marked@ == reach_marks(self.graph@, self.marked@.len())
        &&& self.mst@.len() + 1 + unmarked(self.marked@) == self.marked@.len()
    }

    /// What the invariant says, in terms of the public view.
    pub proof fn lemma_wf(&self)
        requires
            self.wf(),
        ensures
            covers(self.tree(), self.graph(), component(self.graph(), 0)),
            is_forest(self.tree()),
            lightest(self.tree(), self.graph(), component(self.graph(), 0)),
            ends_below(self.graph(), self.vertices()),
            self.tree().len() + 1 + unmarked(reach_marks(self.graph(), self.vertices()))
                == self.vertices(),
            connected(self.graph(), self.vertices()) ==> self.tree().len() + 1 == self.vertices(),
    {
        if connected(self.graph(), self.vertices()) {
            assert forall|i: int| 0 <= i < self.marked@.len() implies self.marked@[i] by {
                assert(joined(self.graph@, 0, i as usize));
            }
            lemma_unmarked_none(self.marked@);
        }
    }

    /// What the queue holds: for each vertex outside the tree that has a recorded edge,
    /// one entry with the weight of that edge, and nothing else.
    spec fn queue_ok(&self, n: nat) -> bool {
        &&& forall|x: EdgeIndex| #[trigger]
            self.pq.items().count(x) > 0 ==> x.v < n && !self.marked@[x.v as int]
                && self.edge_to@[x.v as int].is_some() && x.weight == self.dist_to@[x.v as int]
        &&& forall|x: EdgeIndex| #[trigger] self.pq.items().count(x) <= 1
        &&& forall|y: int|
            0 <= y < n && !self.marked@[y] && (#[trigger] self.edge_to@[y]).is_some()
                ==> self.pq.items().count(
                EdgeIndex { v: y as usize, weight: self.dist_to@[y] },
            ) > 0
    }

    /// What is recorded for the vertices outside the tree: an edge of the graph that
    /// joins the vertex to the tree, and its weight.
    spec fn records_ok(&self, n: nat) -> bool {
        forall|y: int|
            0 <= y < n && !self.marked@[y] ==> match #[trigger] self.edge_to@[y] {
                Some(b) => self.graph@.contains(b) && near(self.marked@, y as usize, b)
                    && self.dist_to@[y] == b.weight,
                None => true,
            }
    }

    /// The recorded edge of a vertex outside the tree is a lightest one among the edges
    /// of the graph that join it to a vertex marked in `marked`.
    spec fn best_ok(&self, n: nat, marked: Seq<bool>) -> bool {
        forall|y: int, i: int|
            0 <= y < n && !self.marked@[y] && 0 <= i < self.graph@.len() && near(
                marked,
                y as usize,
                #[trigger] self.graph@[i],
            ) ==> no_better(#[trigger] self.edge_to@[y], self.graph@[i])
    }

    /// The state while the tree grows.
    spec fn growing(&self, n: nat) -> bool {
        let e = self.graph@;
        let k = self.mst@;
        &&& n > 0
        &&& n <= usize::MAX
        &&& e.len() <= usize::MAX
        &&& ends_below(e, n)
        &&& self.marked@.len() == n
        &&& self.edge_to@.len() == n
        &&& self.dist_to@.len() == n
        &&& self.pq.wf()
        &&& within(k, e)
        &&& k.no_duplicates()
        &&& is_forest(k)
        &&& promising(k, e, component(e, 0))
    }

    /// Grows a minimum spanning tree from vertex 0: again and again the vertex outside
    /// the tree that is joined to it by the lightest edge is taken into the tree, with
    /// that edge.
    pub fn new(g: &EdgeWeightedGraph) -> (r: PrimMST)
        requires
            g.wf(),
            g.vertices() > 0,
        ensures
            r.wf(),
            r.graph() == g@,
            r.vertices() == g.vertices(),
    {
        let n = g.v();
        let ghost e = g@;
        let mut marked: Vec<bool> = Vec::with_capacity(n);
        let mut edge_to: Vec<Option<Edge>> = Vec::with_capacity(n);
        let mut dist_to: Vec<u64> = Vec::with_capacity(n);
        let mut i: usize = 0;
        while i < n
            invariant
                i <= n,
                marked@.len() == i,
                edge_to@.len() == i,
                dist_to@.len() == i,
                forall|k: int| 0 <= k < i ==> !(#[trigger] marked@[k]),
                forall|k: int| 0 <= k < i ==> (#[trigger] edge_to@[k]).is_none(),
            decreases n - i,
        {
            marked.push(false);
            edge_to.push(None);
            dist_to.push(u64::MAX);
            i += 1;
        }
        let mut l = PrimMST { marked, edge_to, dist_to, pq: MinPQ::new(n), mst: Vec::new(),
            graph: Ghost(e) };
        l.dist_to[0] = 0;
        proof {
            g.lemma_wf();
            lemma_promising_empty(e, component(e, 0));
            broadcast use vstd::seq_lib::to_multiset_contains;
            assert forall|x: EdgeIndex| l.pq.items().count(x) == 0 by {
                assert(!l.pq@.contains(x));
            }
        }
        proof {
            lemma_unmarked_all(l.marked@);
            lemma_unmarked_set(l.marked@, 0);
        }
        l.visit(g, 0);
        proof {
            assert forall|x: usize| x < n implies #[trigger] l.marked@[x as int] == joined(l.mst@,
                0, x) by {
                lemma_joined_self(l.mst@, 0);
                if joined(l.mst@, 0, x) {
                    lemma_untouched(l.mst@, 0, x);
                }
            }
        }
        loop
            invariant
                g.wf(),
                e == g@,
                e == l.graph@,
                n == g.vertices(),
                l.growing(n as nat),
                l.queue_ok(n as nat),
                l.records_ok(n as nat),
                l.best_ok(n as nat, l.marked@),
                inside(l.mst@, l.marked@),
                l.marked@[0],
                l.mst@.len() + 1 + unmarked(l.marked@) == n,
                forall|x: usize| x < n ==> #[trigger] l.marked@[x as int] == joined(l.mst@, 0, x),
            ensures
                e == l.graph@,
                covers(l.mst@, e, component(e, 0)),
                is_forest(l.mst@),
                promising(l.mst@, e, component(e, 0)),
                l.mst@.no_duplicates(),
                l.marked@.len() == n,
                ends_below(e, n as nat),
                l.mst@.len() + 1 + unmarked(l.marked@) == n,
                l.marked@ == reach_marks(e, n as nat),
            decreases unmarked(l.marked@),
        {
            let ghost before = l;
            let ghost k = l.mst@;
            let popped = l.pq.delete_min();
            if popped.is_none() {
                proof {
                    broadcast use vstd::seq_lib::to_multiset_contains;
                    assert forall|i: int| 0 <= i < e.len() implies
                        l.marked@[(#[trigger] e[i]).v as int]
                        == l.marked@[e[i].w as int] by {
                        let f = e[i];
                        if l.marked@[f.v as int] != l.marked@[f.w as int] {
                            let y = if l.marked@[f.v as int] {
                                f.w
                            } else {
                                f.v
                            };
                            assert(near(l.marked@, y, f));
                            assert(no_better(l.edge_to@[y as int], e[i]));
                            let x = EdgeIndex { v: y, weight: l.dist_to@[y as int] };
                            assert(before.pq.items().count(x) > 0);
                            assert(before.pq@.contains(x));
                        }
                    }
                    lemma_tree_covers(e, n as nat, l.marked@, k);
                    lemma_joined_self(e, 0);
                    assert forall|x: int| 0 <= x < n implies l.marked@[x] == reach_marks(e,
                        n as nat)[x] by {
                        assert(l.marked@[x] == joined(k, 0, x as usize));
                        if joined(k, 0, x as usize) {
                            lemma_joined_within(k, e, 0, x as usize);
                        }
                        if joined(e, 0, x as usize) {
                            assert(component(e, 0).contains(0) && component(e,
                                0).contains(x as usize));
                            assert(joined(k, 0, x as usize));
                        }
                    }
                    assert(l.marked@ =~= reach_marks(e, n as nat));
                }
                break;
            }
            let entry = popped.unwrap();
            let w = entry.v;
            proof {
                assert(before.pq.items().count(entry) > 0);
            }
            let f = l.edge_to[w].unwrap();
            proof {
                let cut = marked_set(l.marked@);
                assert(near(l.marked@, w, f));
                assert(cut.contains(f.v) != cut.contains(f.w));
                assert(respects(k, cut)) by {
                    assert forall|t: int| 0 <= t < k.len() implies cut.contains((#[trigger] k[t]).v)
                        == cut.contains(k[t].w) by {}
                }
                assert(lightest_across(e, cut, f)) by {
                    assert forall|t: int|
                        0 <= t < e.len() && cut.contains((#[trigger] e[t]).v)
                            != cut.contains(e[t].w) implies f.weight
                        <= e[t].weight by {
                        let h = e[t];
                        let y = if l.marked@[h.v as int] {
                            h.w
                        } else {
                            h.v
                        };
                        assert(near(l.marked@, y, h));
                        assert(no_better(l.edge_to@[y as int], e[t]));
                        let x = EdgeIndex { v: y, weight: l.dist_to@[y as int] };
                        assert(before.pq.items().count(x) > 0);
                        assert(entry.key() <= x.key());
                    }
                }
                let a = if f.v == w {
                    f.w
                } else {
                    f.v
                };
                assert(joined(k, 0, a));
                lemma_joined_within(k, e, 0, a);
                assert(e[choose|te: int| 0 <= te < e.len() && e[te] == f].joins(a, w));
                lemma_adjacent_joined(e, a, w);
                lemma_joined_trans(e, 0, a, w);
                lemma_cut(k, e, component(e, 0), cut, f);
                assert forall|t: int| 0 <= t < k.len() implies !(#[trigger] k[t]).touches(w) by {}
                if joined(k, f.v, f.w) {
                    if w == f.v {
                        lemma_untouched(k, w, a);
                    } else {
                        lemma_joined_symmetric(k, f.v, f.w);
                        lemma_untouched(k, w, a);
                    }
                }
            }
            l.mst.push(f);
            let ghost marked0 = l.marked@;
            proof {
                let k2 = l.mst@;
                assert(k2 == k.push(f));
                assert(k2.no_duplicates()) by {
                    assert forall|a: int, b: int|
                        0 <= a < k2.len() && 0 <= b < k2.len() && a != b implies k2[a] != k2[b] by {
                        if a < k.len() && b < k.len() {
                            assert(k[a] != k[b]);
                        } else if a < k.len() {
                            assert(k.contains(k[a]));
                        } else {
                            assert(k.contains(k[b]));
                        }
                    }
                }
                assert(is_forest(k2)) by {
                    assert forall|t: int| 0 <= t < k2.len() implies !joined(
                        k2.take(t),
                        (#[trigger] k2[t]).v,
                        k2[t].w,
                    ) by {
                        if t < k.len() {
                            assert(k2.take(t) =~= k.take(t));
                            assert(k2[t] == k[t]);
                        } else {
                            assert(k2.take(t) =~= k);
                        }
                    }
                }
                assert(within(k2, e)) by {
                    assert forall|t: int| 0 <= t < k2.len() implies e.contains(#[trigger] k2[t])
                        by {
                        if t < k.len() {
                            assert(k2[t] == k[t]);
                        }
                    }
                }
                assert forall|t: int| 0 <= t < k2.len() implies (#[trigger] k2[t]).v < n && k2[t].w
                    < n
                    && marked0.update(w as int, true)[k2[t].v as int] && marked0.update(
                    w as int,
                    true,
                )[k2[t].w as int] by {
                    if t < k.len() {
                        assert(k2[t] == k[t]);
                    }
                }
                lemma_unmarked_set(marked0, w as int);
                // the entry of `w` has left the queue; the others are still there
                assert forall|x: EdgeIndex| #[trigger] l.pq.items().count(x) > 0 implies x.v < n
                    && x.v
                    != w && !l.marked@[x.v as int] && l.edge_to@[x.v as int].is_some() && x.weight
                    == l.dist_to@[x.v as int] by {
                    assert(before.pq.items().count(x) > 0);
                    if x.v == w {
                        assert(x == entry);
                        assert(before.pq.items().count(entry) <= 1);
                    }
                }
                assert forall|x: EdgeIndex| #[trigger] l.pq.items().count(x) <= 1 by {
                    assert(before.pq.items().count(x) <= 1);
                }
                assert forall|y: int|
                    0 <= y < n && !l.marked@[y] && y != w
                        && (#[trigger] l.edge_to@[y]).is_some() implies l.pq.items().count(
                    EdgeIndex { v: y as usize, weight: l.dist_to@[y] },
                ) > 0 by {
                    let x = EdgeIndex { v: y as usize, weight: l.dist_to@[y] };
                    assert(before.pq.items().count(x) > 0);
                }
            }
            l.visit(g, w);
            proof {
                let k2 = l.mst@;
                let a = if f.v == w {
                    f.w
                } else {
                    f.v
                };
                assert forall|x: usize| x < n implies #[trigger] l.marked@[x as int] == joined(k2,
                    0, x) by {
                    lemma_joined_push(k, f, 0, x);
                    assert(marked0[x as int] == joined(k, 0, x));
                    assert forall|t: int| 0 <= t < k.len() implies !(#[trigger] k[t]).touches(w)
                        by {}
                    lemma_joined_self(k, w);
                    assert(marked0[a as int] == joined(k, 0, a));
                    assert(marked0[w as int] == joined(k, 0, w));
                    if joined(k, w, x) {
                        lemma_untouched(k, w, x);
                    }
                }
            }
        }
        proof {
            lemma_promising_lightest(l.mst@, e, component(e, 0));
        }
        l
    }

    /// Takes `v` into the tree and records for every neighbour outside the tree the
    /// edge from `v`, if it is lighter than what was recorded before.
    fn visit(&mut self, g: &EdgeWeightedGraph, v: usize)
        requires
            g.wf(),
            g@ == old(self).graph@,
            old(self).growing(g.vertices()),
            v < g.vertices(),
            !old(self).marked@[v as int],
            inside(old(self).mst@, old(self).marked@.update(v as int, true)),
            old(self).records_ok(g.vertices()),
            old(self).best_ok(g.vertices(), old(self).marked@),
            forall|x: EdgeIndex| #[trigger]
                old(self).pq.items().count(x) > 0 ==> x.v < g.vertices() && x.v != v && !old(
                    self,
                ).marked@[x.v as int] && old(self).edge_to@[x.v as int].is_some() && x.weight
                    == old(
                    self,
                ).dist_to@[x.v as int],
            forall|x: EdgeIndex| #[trigger] old(self).pq.items().count(x) <= 1,
            forall|y: int|
                0 <= y < g.vertices() && !old(self).marked@[y] && y != v && (#[trigger] old(
                    self,
                ).edge_to@[y]).is_some() ==> old(self).pq.items().count(
                    EdgeIndex { v: y as usize, weight: old(self).dist_to@[y] },
                ) > 0,
        ensures
            final(self).graph@ == old(self).graph@,
            final(self).mst@ == old(self).mst@,
            final(self).marked@ == old(self).marked@.update(v as int, true),
            final(self).growing(g.vertices()),
            inside(final(self).mst@, final(self).marked@),
            final(self).queue_ok(g.vertices()),
            final(self).records_ok(g.vertices()),
            final(self).best_ok(g.vertices(), final(self).marked@),
    {
        let ghost e = self.graph@;
        let ghost n = g.vertices();
        let ghost marked0 = self.marked@;
        self.marked[v] = true;
        let row = g.adj(v);
        let ghost handles = incident(e, v);
        let ghost marked1 = self.marked@;
        proof {
            assert forall|y: int|
                0 <= y < n && !self.marked@[y] implies match #[trigger] self.edge_to@[y] {
                Some(b) => e.contains(b) && near(self.marked@, y as usize, b) && self.dist_to@[y]
                    == b.weight,
                None => true,
            } by {
                assert(!marked0[y]);
                match old(self).edge_to@[y] {
                    Some(b) => {
                        assert(near(marked0, y as usize, b));
                    },
                    None => {},
                }
            }
        }
        let mut j: usize = 0;
        while j < row.len()
            invariant
                e == self.graph@,
                n == g.vertices(),
                self.mst@ == old(self).mst@,
                self.marked@ == marked1,
                marked1 == marked0.update(v as int, true),
                marked0.len() == n,
                !marked0[v as int],
                v < n,
                self.growing(n),
                inside(self.mst@, self.marked@),
                row@ == incident_edges(e, v),
                handles == incident(e, v),
                j <= row@.len(),
                self.queue_ok(n),
                self.records_ok(n),
                self.best_ok(n, marked0),
                forall|y: int, t: int|
                    0 <= y < n && !marked1[y] && 0 <= t < j
                        && (#[trigger] row@[t]).joins(y as usize, v)
                        ==> no_better(#[trigger] self.edge_to@[y], row@[t]),
            decreases row@.len() - j,
        {
            let f = row[j];
            proof {
                lemma_incident_touches(e, v, j as int);
                assert(f == e[handles[j as int] as int]);
                assert(f.v < n && f.w < n);
                assert(e.contains(e[handles[j as int] as int]));
            }
            match f.other(v) {
                Some(y) => {
                    let worse = self.marked[y] || match self.edge_to[y] {
                        Some(b) => f.weight() >= self.dist_to[y],
                        None => false,
                    };
                    if !worse {
                        let ghost state = *self;
                        let item = EdgeIndex { v: y, weight: f.weight() };
                        self.edge_to[y] = Some(f);
                        self.dist_to[y] = f.weight();
                        let found = self.pq.update(item);
                        proof {
                            broadcast use vstd::seq_lib::to_multiset_contains;
                            let old_entry = EdgeIndex { v: y, weight: state.dist_to@[y as int] };
                            if found {
                                let at = choose|at: int|
                                    0 <= at < state.pq@.len() && (#[trigger] state.pq@[at]).slot()
                                        == item.slot()
                                        && self.pq.items()
                                            == state.pq.items().remove(state.pq@[at]).insert(
                                        item,
                                    ) && forall|k: int|
                                        0 <= k < at ==> (#[trigger] state.pq@[k]).slot()
                                            != item.slot();
                                let gone = state.pq@[at];
                                assert(state.pq@.contains(gone));
                                assert(state.pq.items().count(gone) > 0);
                                assert(gone == old_entry);
                                assert(state.pq.items().count(item) == 0) by {
                                    if state.pq.items().count(item) > 0 {
                                        assert(item.weight == state.dist_to@[y as int]);
                                    }
                                }
                                assert(state.pq.items().count(gone) <= 1);
                            } else {
                                assert(state.edge_to@[y as int].is_none()) by {
                                    if state.edge_to@[y as int].is_some() {
                                        assert(state.pq.items().count(old_entry) > 0);
                                        assert(state.pq@.contains(old_entry));
                                        let at = choose|at: int|
                                            0 <= at < state.pq@.len() && state.pq@[at] == old_entry;
                                        assert(state.pq@[at].slot() == item.slot());
                                    }
                                }
                                assert(state.pq.items().count(item) == 0) by {
                                    if state.pq.items().count(item) > 0 {
                                        assert(state.edge_to@[item.v as int].is_some());
                                    }
                                }
                            }
                        }
                        if !found {
                            self.pq.insert(item);
                        }
                        proof {
                            let old_entry = EdgeIndex { v: y, weight: state.dist_to@[y as int] };
                            // the queue holds the new entry of `y` in place of the old one
                            assert forall|x: EdgeIndex| #[trigger]
                                self.pq.items().count(x) == (if x == item {
                                    1nat
                                } else if x.v == y {
                                    0nat
                                } else {
                                    state.pq.items().count(x)
                                }) by {
                                if x.v == y && x != item {
                                    if state.pq.items().count(x) > 0 {
                                        assert(x == old_entry);
                                    }
                                }
                            }
                            assert forall|x: EdgeIndex| #[trigger]
                                self.pq.items().count(x) > 0 implies x.v < n
                                    && !self.marked@[x.v as int]
                                && self.edge_to@[x.v as int].is_some() && x.weight
                                == self.dist_to@[x.v as int] by {
                                if x != item {
                                    assert(state.pq.items().count(x) > 0);
                                }
                            }
                            assert forall|x: EdgeIndex| #[trigger] self.pq.items().count(x) <= 1
                                by {
                                assert(state.pq.items().count(x) <= 1);
                            }
                            assert forall|z: int|
                                0 <= z < n && !self.marked@[z]
                                    && (#[trigger] self.edge_to@[z]).is_some() implies
                                        self.pq.items().count(
                                EdgeIndex { v: z as usize, weight: self.dist_to@[z] },
                            ) > 0 by {
                                if z != y {
                                    let x = EdgeIndex { v: z as usize, weight: state.dist_to@[z] };
                                    assert(state.edge_to@[z].is_some());
                                    assert(state.pq.items().count(x) > 0);
                                }
                            }
                            assert forall|z: int|
                                0 <= z < n && !self.marked@[z] implies
                                    match #[trigger] self.edge_to@[z] {
                                Some(b) => e.contains(b) && near(self.marked@, z as usize, b)
                                    && self.dist_to@[z] == b.weight,
                                None => true,
                            } by {
                                if z != y {
                                    assert(self.edge_to@[z] == state.edge_to@[z]);
                                }
                            }
                            assert forall|z: int, i: int|
                                0 <= z < n && !self.marked@[z] && 0 <= i < e.len() && near(
                                    marked0,
                                    z as usize,
                                    #[trigger] e[i],
                                ) implies no_better(#[trigger] self.edge_to@[z], e[i]) by {
                                assert(no_better(state.edge_to@[z], e[i]));
                            }
                            assert forall|z: int, t: int|
                                0 <= z < n && !marked1[z] && 0 <= t < j + 1
                                    && (#[trigger] row@[t]).joins(
                                    z as usize,
                                    v,
                                ) implies no_better(#[trigger] self.edge_to@[z], row@[t]) by {
                                if t < j {
                                    assert(no_better(state.edge_to@[z], row@[t]));
                                }
                            }
                        }
                    } else {
                        proof {
                            assert forall|z: int, t: int|
                                0 <= z < n && !marked1[z] && 0 <= t < j + 1
                                    && (#[trigger] row@[t]).joins(
                                    z as usize,
                                    v,
                                ) implies no_better(#[trigger] self.edge_to@[z], row@[t]) by {
                                if t == j {
                                    assert(z == y);
                                }
                            }
                        }
                    }
                },
                None => {},
            }
            j += 1;
        }
        proof {
            assert forall|y: int, i: int|
                0 <= y < n && !self.marked@[y] && 0 <= i < e.len() && near(
                    self.marked@,
                    y as usize,
                    #[trigger] e[i],
                ) implies no_better(#[trigger] self.edge_to@[y], e[i]) by {
                if near(marked0, y as usize, e[i]) {
                } else {
                    assert(e[i].joins(y as usize, v));
                    lemma_incident_complete(e, v, i);
                    let t = choose|t: int| 0 <= t < handles.len() && handles[t] == i as usize;
                    assert(row@[t] == e[i]);
                }
            }
        }
    }

    /// The edges of the tree in the order in which they were chosen.
    pub fn edges(&self) -> (r: Vec<Edge>)
        requires
            self.wf(),
        ensures
            r@ == self.tree(),
            covers(r@, self.graph(), component(self.graph(), 0)),
            is_forest(r@),
            lightest(r@, self.graph(), component(self.graph(), 0)),
            r@.len() + 1 + unmarked(reach_marks(self.graph(), self.vertices())) == self.vertices(),
            connected(self.graph(), self.vertices()) ==> r@.len() + 1 == self.vertices(),
    {
        proof {
            self.lemma_wf();
        }
        let mut r: Vec<Edge> = Vec::with_capacity(self.mst.len());
        let mut i: usize = 0;
        while i < self.mst.len()
            invariant
                i <= self.mst@.len(),
                r@ == self.mst@.take(i as int),
            decreases self.mst@.len() - i,
        {
            r.push(self.mst[i]);
            proof {
                assert(r@ =~= self.mst@.take(i as int + 1));
            }
            i += 1;
        }
        assert(self.mst@.take(i as int) =~= self.mst@);
        r
    }
}

/// On a connected graph, the forest of Kruskal's algorithm and the tree of Prim's
/// algorithm are spanning trees of the same total weight.
pub proof fn lemma_same_weight(kruskal: &KruskalMST, prim: &PrimMST)
    requires
        kruskal.wf(),
        prim.wf(),
        kruskal.graph() == prim.graph(),
        kruskal.vertices() == prim.vertices(),
        connected(prim.graph(), prim.vertices()),
    ensures
        total(kruskal.forest()) == total(prim.tree()),
        kruskal.forest().len() + 1 == prim.vertices(),
        prim.tree().len() + 1 == prim.vertices(),
{
    let e = prim.graph();
    let n = prim.vertices();
    let k = kruskal.forest();
    let p = prim.tree();
    kruskal.lemma_wf();
    prim.lemma_wf();
    // whatever covers the part connected with vertex 0 covers everything, and the other
    // way round
    assert(covers(k, e, component(e, 0)));
    assert(covers(p, e, Set::full())) by {
        assert forall|x: usize, y: usize| joined(e, x, y) implies #[trigger] joined(p, x, y) by {
            if x == y {
                lemma_joined_self(p, x);
            } else {
                lemma_ends_are_vertices(e, n, x, y);
                assert(joined(e, 0, x) && joined(e, 0, y));
                assert(component(e, 0).contains(x) && component(e, 0).contains(y));
            }
        }
    }
}

/// Two distinct vertices that the edges connect are ends of edges.
pub proof fn lemma_ends_are_vertices(e: Seq<Edge>, n: nat, x: usize, y: usize)
    requires
        ends_below(e, n),
        joined(e, x, y),
        x != y,
    ensures
        x < n,
        y < n,
{
    let p = choose|p: Seq<usize>| #[trigger] is_chain(e, p) && p[0] == x && p.last() == y;
    assert(linked_at(e, p, 0));
    let i = choose|i: int| 0 <= i < e.len() && #[trigger] e[i].joins(p[0], p[1]);
    assert(linked_at(e, p, p.len() - 2));
    let j = choose|j: int| 0 <= j < e.len() && #[trigger] e[j].joins(p[p.len() - 2],
        p[p.len() - 2 + 1]);
}

} // verus!
