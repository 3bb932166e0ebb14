//! Minimum spanning trees by the lazy version of Prim's algorithm.

use vstd::prelude::*;
use crate::dfs::{lemma_unmarked_all, lemma_unmarked_none, lemma_unmarked_set, unmarked};
use crate::edge::Edge;
use crate::edge_weighted_graph::{
    ends_below, incident, incident_edges, lemma_incident_complete, lemma_incident_touches,
    EdgeWeightedGraph,
};
use crate::min_pq::{MinPQ, Weighted};
use crate::spanning::{
    component, covers, inside, is_forest, joined, lemma_adjacent_joined,
    lemma_cut, lemma_joined_push, lemma_joined_self, lemma_joined_symmetric,
    lemma_joined_trans, lemma_joined_within, lemma_promising_empty, lemma_promising_lightest,
    connected, lemma_tree_covers, lemma_untouched, lightest, reach_marks, lightest_across,
        marked_set, promising, respects, within,
};

verus! {

/// Every edge with exactly one marked end, other than those that touch `but`, is in the
/// queue.
pub open spec fn fringe_queued(e: Seq<Edge>, marked: Seq<bool>, items: Seq<Edge>,
    but: Option<usize>) -> bool {
    forall|i: int|
        0 <= i < e.len() && marked[(#[trigger] e[i]).v as int] != marked[e[i].w as int]
            && (match but {
            Some(x) => !e[i].touches(x),
            None => true,
        }) ==> items.contains(e[i])
}

/// Every edge in the queue is an edge of the graph with a marked end.
pub open spec fn queue_sound(e: Seq<Edge>, marked: Seq<bool>, items: Seq<Edge>) -> bool {
    forall|i: int|
        0 <= i < items.len() ==> e.contains(#[trigger] items[i]) && (marked[items[i].v as int]
            || marked[items[i].w as int])
}

/// A minimum spanning tree of the part of an edge-weighted graph that is connected with
/// vertex 0.
pub struct LazyPrimMST {
    marked: Vec<bool>,
    mst: Vec<Edge>,
    pq: MinPQ<Edge>,
    graph: Ghost<Seq<Edge>>,
}

impl LazyPrimMST {
    /// The edges of the graph that was searched.
    pub closed spec fn graph(&self) -> Seq<Edge> {
        self.graph@
    }

    /// The edges of the tree in the order in which they were chosen.
    pub closed spec fn tree(&self) -> Seq<Edge> {
        self.mst@
    }

    /// Number of vertices of the graph that was searched.
    pub closed spec fn vertices(&self) -> nat {
        self.marked@.len()
    }

    /// The tree consists of edges of the graph, none of them closing a cycle; it
    /// connects whatever the graph connects with vertex 0, with one edge for every such
    /// vertex but vertex 0 itself, and no set of edges of the graph that connects as
    /// much weighs less.
    pub closed spec fn wf(&self) -> bool {
        &&& covers(self.mst@, self.graph@, component(self.graph@, 0))
        &&& is_forest(self.mst@)
        &&& lightest(self.mst@, self.graph@, component(self.graph@, 0))
        &&& ends_below(self.graph@, self.marked@.len())
        &&& self.marked@ == reach_marks(self.graph@, self.marked@.len())
        &&& self.mst@.len() + 1 + unmarked(self.marked@) == self.marked@.len()
    }

    /// What the invariant says, in terms of the public view.
    pub proof fn lemma_wf(&self)
        requires
            self.wf(),
        ensures
            covers(self.tree(), self.graph(), component(self.graph(), 0)),
            is_forest(self.tree()),
            lightest(self.tree(), self.graph(), component(self.graph(), 0)),
            ends_below(self.graph(), self.vertices()),
            self.tree().len() + 1 + unmarked(reach_marks(self.graph(), self.vertices()))
                == self.vertices(),
            connected(self.graph(), self.vertices()) ==> self.tree().len() + 1 == self.vertices(),
    {
        if connected(self.graph(), self.vertices()) {
            assert forall|i: int| 0 <= i < self.marked@.len() implies self.marked@[i] by {
                assert(joined(self.graph@, 0, i as usize));
            }
            lemma_unmarked_none(self.marked@);
        }
    }

    /// The state while the tree grows.
    spec fn growing(&self, n: nat) -> bool {
        let e = self.graph@;
        let k = self.mst@;
        &&& n > 0
        &&& n <= usize::MAX
        &&& e.len() <= usize::MAX
        &&& ends_below(e, n)
        &&& self.marked@.len() == n
        &&& self.pq.wf()
        &&& within(k, e)
        &&& k.no_duplicates()
        &&& is_forest(k)
        &&& promising(k, e, component(e, 0))
        &&& queue_sound(e, self.marked@, self.pq@)
    }

    /// Grows a minimum spanning tree from vertex 0: again and again the lightest edge
    /// that was seen from the tree is taken out and added to the tree unless both of
    /// its ends are in it already.
    pub fn new(g: &EdgeWeightedGraph) -> (r: LazyPrimMST)
        requires
            g.wf(),
            g.vertices() > 0,
        ensures
            r.wf(),
            r.graph() == g@,
            r.vertices() == g.vertices(),
    {
        let n = g.v();
        let ghost e = g@;
        let mut marked: Vec<bool> = Vec::with_capacity(n);
        let mut i: usize = 0;
        while i < n
            invariant
                i <= n,
                marked@.len() == i,
                forall|k: int| 0 <= k < i ==> !(#[trigger] marked@[k]),
            decreases n - i,
        {
            marked.push(false);
            i += 1;
        }
        let mut l = LazyPrimMST { marked, mst: Vec::new(), pq: MinPQ::new(0), graph: Ghost(e) };
        proof {
            g.lemma_wf();
            lemma_promising_empty(e, component(e, 0));
        }
        proof {
            lemma_unmarked_all(l.marked@);
            lemma_unmarked_set(l.marked@, 0);
        }
        l.visit(g, 0);
        proof {
            assert forall|x: usize| x < n implies #[trigger] l.marked@[x as int] == joined(l.mst@,
                0, x) by {
                lemma_joined_self(l.mst@, 0);
                if joined(l.mst@, 0, x) {
                    lemma_untouched(l.mst@, 0, x);
                }
            }
        }
        loop
            invariant
                g.wf(),
                e == g@,
                e == l.graph@,
                n == g.vertices(),
                l.growing(n as nat),
                inside(l.mst@, l.marked@),
                l.marked@[0],
                l.mst@.len() + 1 + unmarked(l.marked@) == n,
                forall|x: usize| x < n ==> #[trigger] l.marked@[x as int] == joined(l.mst@, 0, x),
                fringe_queued(e, l.marked@, l.pq@, None),
            ensures
                e == l.graph@,
                covers(l.mst@, e, component(e, 0)),
                is_forest(l.mst@),
                promising(l.mst@, e, component(e, 0)),
                l.mst@.no_duplicates(),
                l.marked@.len() == n,
                ends_below(e, n as nat),
                l.mst@.len() + 1 + unmarked(l.marked@) == n,
                l.marked@ == reach_marks(e, n as nat),
            decreases unmarked(l.marked@), l.pq@.len(),
        {
            let ghost before = l;
            let ghost k = l.mst@;
            let popped = l.pq.delete_min();
            if popped.is_none() {
                proof {
                    lemma_tree_covers(e, n as nat, l.marked@, k);
                    lemma_joined_self(e, 0);
                    assert forall|x: int| 0 <= x < n implies l.marked@[x] == reach_marks(e,
                        n as nat)[x] by {
                        assert(l.marked@[x] == joined(k, 0, x as usize));
                        if joined(k, 0, x as usize) {
                            lemma_joined_within(k, e, 0, x as usize);
                        }
                        if joined(e, 0, x as usize) {
                            assert(component(e, 0).contains(0) && component(e,
                                0).contains(x as usize));
                            assert(joined(k, 0, x as usize));
                        }
                    }
                    assert(l.marked@ =~= reach_marks(e, n as nat));
                }
                break;
            }
            let f = popped.unwrap();
            let v = f.either();
            let w = f.w;
            proof {
                broadcast use vstd::seq_lib::to_multiset_contains;
                assert(before.pq.items().count(f) > 0);
                assert(before.pq@.contains(f));
                let at = choose|at: int| 0 <= at < before.pq@.len() && before.pq@[at] == f;
                assert(e.contains(before.pq@[at]));
                let te = choose|te: int| 0 <= te < e.len() && e[te] == f;
                assert(e[te].v < n && e[te].w < n);
                assert forall|t: int| 0 <= t < l.pq@.len() implies e.contains(#[trigger] l.pq@[t])
                    && (
                l.marked@[l.pq@[t].v as int] || l.marked@[l.pq@[t].w as int]) by {
                    assert(l.pq.items().count(l.pq@[t]) > 0) by {
                        assert(l.pq@.contains(l.pq@[t]));
                    }
                    assert(before.pq.items().count(l.pq@[t]) > 0);
                    assert(before.pq@.contains(l.pq@[t]));
                    let u = choose|u: int| 0 <= u < before.pq@.len() && before.pq@[u] == l.pq@[t];
                    assert(e.contains(before.pq@[u]));
                }
            }
            if l.marked[v] && l.marked[w] {
                proof {
                    assert forall|t: int|
                        0 <= t < e.len() && l.marked@[(#[trigger] e[t]).v as int]
                            != l.marked@[e[t].w as int] implies l.pq@.contains(
                        e[t],
                    ) by {
                        assert(before.pq@.contains(e[t]));
                        assert(before.pq.items().count(e[t]) > 0);
                        assert(e[t] != f);
                        assert(l.pq.items().count(e[t]) > 0);
                    }
                }
                continue;
            }
            proof {
                // exactly one end of `f` is in the tree
                let cut = marked_set(l.marked@);
                assert(cut.contains(f.v) != cut.contains(f.w));
                assert(respects(k, cut)) by {
                    assert forall|t: int| 0 <= t < k.len() implies cut.contains((#[trigger] k[t]).v)
                        == cut.contains(k[t].w) by {}
                }
                assert(lightest_across(e, cut, f)) by {
                    assert forall|t: int|
                        0 <= t < e.len() && cut.contains((#[trigger] e[t]).v)
                            != cut.contains(e[t].w) implies f.weight
                        <= e[t].weight by {
                        assert(before.pq@.contains(e[t]));
                        assert(before.pq.items().count(e[t]) > 0);
                        assert(f.key() <= e[t].key());
                    }
                }
                let a = if l.marked@[v as int] {
                    v
                } else {
                    w
                };
                let b = if l.marked@[v as int] {
                    w
                } else {
                    v
                };
                assert(joined(k, 0, a));
                lemma_joined_within(k, e, 0, a);
                assert(e[choose|te: int| 0 <= te < e.len() && e[te] == f].joins(a, b));
                lemma_adjacent_joined(e, a, b);
                lemma_joined_trans(e, 0, a, b);
                lemma_cut(k, e, component(e, 0), cut, f);
                // the end outside the tree is touched by no edge of the tree
                assert forall|t: int| 0 <= t < k.len() implies !(#[trigger] k[t]).touches(b) by {}
                if joined(k, f.v, f.w) {
                    if b == f.v {
                        lemma_untouched(k, b, a);
                    } else {
                        lemma_joined_symmetric(k, f.v, f.w);
                        lemma_untouched(k, b, a);
                    }
                }
            }
            l.mst.push(f);
            proof {
                let k2 = l.mst@;
                assert(k2 == k.push(f));
                assert(k2.no_duplicates()) by {
                    assert forall|a: int, b: int|
                        0 <= a < k2.len() && 0 <= b < k2.len() && a != b implies k2[a] != k2[b] by {
                        if a < k.len() && b < k.len() {
                            assert(k[a] != k[b]);
                        } else if a < k.len() {
                            assert(k.contains(k[a]));
                        } else {
                            assert(k.contains(k[b]));
                        }
                    }
                }
                assert(is_forest(k2)) by {
                    assert forall|t: int| 0 <= t < k2.len() implies !joined(
                        k2.take(t),
                        (#[trigger] k2[t]).v,
                        k2[t].w,
                    ) by {
                        if t < k.len() {
                            assert(k2.take(t) =~= k.take(t));
                            assert(k2[t] == k[t]);
                        } else {
                            assert(k2.take(t) =~= k);
                        }
                    }
                }
                assert(within(k2, e)) by {
                    assert forall|t: int| 0 <= t < k2.len() implies e.contains(#[trigger] k2[t])
                        by {
                        if t < k.len() {
                            assert(k2[t] == k[t]);
                        }
                    }
                }
            }
            let fresh = if !l.marked[v] {
                v
            } else {
                w
            };
            let ghost marked0 = l.marked@;
            proof {
                assert forall|t: int|
                    0 <= t < e.len() && marked0[(#[trigger] e[t]).v as int]
                        != marked0[e[t].w as int]
                        && !e[t].touches(fresh) implies l.pq@.contains(e[t]) by {
                    broadcast use vstd::seq_lib::to_multiset_contains;
                    assert(before.pq@.contains(e[t]));
                    assert(before.pq.items().count(e[t]) > 0);
                    assert(e[t] != f);
                    assert(l.pq.items().count(e[t]) > 0);
                }
                lemma_unmarked_set(marked0, fresh as int);
                let k2 = l.mst@;
                assert forall|t: int| 0 <= t < k2.len() implies (#[trigger] k2[t]).v < n && k2[t].w
                    < n
                    && marked0.update(fresh as int, true)[k2[t].v as int] && marked0.update(
                    fresh as int,
                    true,
                )[k2[t].w as int] by {
                    if t < k.len() {
                        assert(k2[t] == k[t]);
                    }
                }
            }
            l.visit(g, fresh);
            proof {
                let k2 = l.mst@;
                let other = if fresh == v {
                    w
                } else {
                    v
                };
                assert forall|x: usize| x < n implies #[trigger] l.marked@[x as int] == joined(k2,
                    0, x) by {
                    lemma_joined_push(k, f, 0, x);
                    assert(marked0[x as int] == joined(k, 0, x));
                    assert forall|t: int| 0 <= t < k.len() implies !(#[trigger] k[t]).touches(fresh)
                        by {}
                    lemma_joined_self(k, fresh);
                    assert(marked0[other as int] == joined(k, 0, other));
                    assert(marked0[fresh as int] == joined(k, 0, fresh));
                    if joined(k, fresh, x) {
                        lemma_untouched(k, fresh, x);
                    }
                }
            }
        }
        proof {
            lemma_promising_lightest(l.mst@, e, component(e, 0));
        }
        l
    }

    /// Marks `v` and puts every edge from `v` to an unmarked vertex into the queue.
    fn visit(&mut self, g: &EdgeWeightedGraph, v: usize)
        requires
            g.wf(),
            g@ == old(self).graph@,
            old(self).growing(g.vertices()),
            inside(old(self).mst@, old(self).marked@.update(v as int, true)),
            v < g.vertices(),
            !old(self).marked@[v as int],
            fringe_queued(old(self).graph@, old(self).marked@, old(self).pq@, Some(v)),
        ensures
            final(self).graph@ == old(self).graph@,
            final(self).mst@ == old(self).mst@,
            final(self).marked@ == old(self).marked@.update(v as int, true),
            final(self).growing(g.vertices()),
            inside(final(self).mst@, final(self).marked@),
            fringe_queued(final(self).graph@, final(self).marked@, final(self).pq@, None),
    {
        let ghost e = self.graph@;
        let ghost n = g.vertices();
        let ghost marked0 = self.marked@;
        let ghost queue0 = self.pq@;
        self.marked[v] = true;
        let row = g.adj(v);
        let ghost handles = incident(e, v);
        proof {
            assert forall|t: int| 0 <= t < self.pq@.len() implies e.contains(#[trigger] self.pq@[t])
                && (
            self.marked@[self.pq@[t].v as int] || self.marked@[self.pq@[t].w as int]) by {
                assert(e.contains(queue0[t]));
                let te = choose|te: int| 0 <= te < e.len() && e[te] == queue0[t];
                assert(e[te].v < n && e[te].w < n);
            }
            assert(inside(self.mst@, self.marked@));
        }
        let mut j: usize = 0;
        while j < row.len()
            invariant
                e == self.graph@,
                n == g.vertices(),
                self.mst@ == old(self).mst@,
                self.marked@ == marked0.update(v as int, true),
                marked0.len() == n,
                v < n,
                self.growing(n),
                inside(self.mst@, self.marked@),
                row@ == incident_edges(e, v),
                handles == incident(e, v),
                j <= row@.len(),
                forall|t: int| 0 <= t < queue0.len() ==> self.pq@.contains(#[trigger] queue0[t]),
                forall|t: int|
                    0 <= t < j && !self.marked@[(match (#[trigger] row@[t]).spec_other(v) {
                        Some(y) => y,
                        None => v,
                    }) as int] ==> self.pq@.contains(row@[t]),
            decreases row@.len() - j,
        {
            let f = row[j];
            proof {
                lemma_incident_touches(e, v, j as int);
                assert(f == e[handles[j as int] as int]);
                assert(f.v < n && f.w < n);
            }
            let far = match f.other(v) {
                Some(w) => !self.marked[w],
                None => false,
            };
            if far {
                let ghost queue1 = self.pq@;
                self.pq.insert(f);
                proof {
                    broadcast use vstd::seq_lib::to_multiset_contains;
                    assert forall|x: Edge| queue1.contains(x) implies self.pq@.contains(x) by {
                        assert(queue1.to_multiset().count(x) > 0);
                        assert(self.pq.items().count(x) > 0);
                    }
                    assert(self.pq.items().count(f) > 0);
                    assert(self.pq@.contains(f));
                    assert forall|t: int| 0 <= t < self.pq@.len() implies
                        e.contains(#[trigger] self.pq@[t])
                        && (self.marked@[self.pq@[t].v as int]
                            || self.marked@[self.pq@[t].w as int]) by {
                        let x = self.pq@[t];
                        assert(self.pq@.contains(x));
                        assert(self.pq.items().count(x) > 0);
                        if x != f {
                            assert(queue1.to_multiset().count(x) > 0);
                            assert(queue1.contains(x));
                            let u = choose|u: int| 0 <= u < queue1.len() && queue1[u] == x;
                            assert(e.contains(queue1[u]));
                        } else {
                            assert(e.contains(e[handles[j as int] as int]));
                        }
                    }
                    assert forall|t: int| 0 <= t < queue0.len() implies
                        self.pq@.contains(#[trigger] queue0[t]) by {
                        assert(queue1.contains(queue0[t]));
                    }
                    assert forall|t: int|
                        0 <= t < j + 1 && !self.marked@[(match (#[trigger] row@[t]).spec_other(v) {
                            Some(y) => y,
                            None => v,
                        }) as int] implies self.pq@.contains(row@[t]) by {
                        if t < j {
                            assert(queue1.contains(row@[t]));
                        }
                    }
                }
            }
            j += 1;
        }
        proof {
            assert forall|i: int|
                0 <= i < e.len() && self.marked@[(#[trigger] e[i]).v as int]
                    != self.marked@[e[i].w as int] implies self.pq@.contains(
                e[i],
            ) by {
                if e[i].touches(v) {
                    lemma_incident_complete(e, v, i);
                    let t = choose|t: int| 0 <= t < handles.len() && handles[t] == i as usize;
                    assert(row@[t] == e[i]);
                } else {
                    assert(marked0[e[i].v as int] != marked0[e[i].w as int]);
                    assert(queue0.contains(e[i]));
                    let u = choose|u: int| 0 <= u < queue0.len() && queue0[u] == e[i];
                    assert(self.pq@.contains(queue0[u]));
                }
            }
        }
    }

    /// The edges of the tree, the one chosen last first.
    pub fn edges(&self) -> (r: Vec<Edge>)
        requires
            self.wf(),
        ensures
            r@ == self.tree().reverse(),
            covers(self.tree(), self.graph(), component(self.graph(), 0)),
            is_forest(self.tree()),
            lightest(self.tree(), self.graph(), component(self.graph(), 0)),
            r@.len() + 1 + unmarked(reach_marks(self.graph(), self.vertices())) == self.vertices(),
            connected(self.graph(), self.vertices()) ==> r@.len() + 1 == self.vertices(),
    {
        proof {
            self.lemma_wf();
        }
        let mut r: Vec<Edge> = Vec::with_capacity(self.mst.len());
        let mut k: usize = self.mst.len();
        while k > 0
            invariant
                k <= self.mst@.len(),
                r@.len() == self.mst@.len() - k,
                forall|m: int| 0 <= m < r@.len() ==> #[trigger] r@[m]
                    == self.mst@[self.mst@.len() - 1 - m],
            decreases k,
        {
            k -= 1;
            r.push(self.mst[k]);
        }
        assert(r@ =~= self.mst@.reverse());
        r
    }
}

} // verus!
