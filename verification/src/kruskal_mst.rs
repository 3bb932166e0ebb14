//! Minimum spanning forests by Kruskal's algorithm.

use std::collections::VecDeque;
use vstd::prelude::*;
use vstd::relations::injective_on;
use vstd::set_lib::{lemma_int_range, lemma_len_subset, lemma_map_size, set_int_range};
use crate::edge::Edge;
use crate::edge_weighted_graph::{
    ends_below, lemma_listed_complete, lemma_listed_within, listed, EdgeWeightedGraph,
};
use crate::min_pq::{MinPQ, Weighted};
use crate::spanning::{
    adjacent, ascending, connected, covers, firsts, is_chain, is_forest, joined, leads,
    lemma_adjacent_joined, lemma_cut, lemma_first, lemma_joined_lift, lemma_joined_push,
    lemma_joined_self, lemma_joined_symmetric, lemma_joined_trans, lemma_joined_within,
    lemma_promising_empty, lemma_promising_lightest, lightest, lightest_across, linked_at, parts,
    promising, respects, within,
};
use crate::union_find::{leaders, UF};

verus! {

/// Whether `x` and `y` have the same representative.
pub open spec fn tied(reps: Seq<usize>, x: usize, y: usize) -> bool {
    reps[x as int] == reps[y as int]
}

/// A minimum spanning forest of an edge-weighted graph.
pub struct KruskalMST {
    mst: VecDeque<Edge>,
    graph: Ghost<Seq<Edge>>,
    n: Ghost<nat>,
}

impl KruskalMST {
    /// The edges of the graph that was searched.
    pub closed spec fn graph(&self) -> Seq<Edge> {
        self.graph@
    }

    /// The edges of the forest in the order in which they were chosen.
    pub closed spec fn forest(&self) -> Seq<Edge> {
        self.mst@
    }

    /// Number of vertices of the graph that was searched.
    pub closed spec fn vertices(&self) -> nat {
        self.n@
    }

    /// The forest consists of edges of the graph in ascending order of weight, none of
    /// them closing a cycle; it connects whatever the graph connects, and no set of
    /// edges of the graph that does so weighs less. It has fewer edges than the graph
    /// has vertices, and one fewer exactly if the graph is connected: as many as there
    /// are vertices, less one for each set of connected vertices.
    pub closed spec fn wf(&self) -> bool {
        &&& covers(self.mst@, self.graph@, Set::full())
        &&& is_forest(self.mst@)
        &&& ascending(self.mst@)
        &&& lightest(self.mst@, self.graph@, Set::full())
        &&& ends_below(self.graph@, self.n@)
        &&& self.n@ > 0 ==> self.mst@.len() < self.n@
        &&& self.n@ == 0 ==> self.mst@.len() == 0
        &&& self.n@ > 0 ==> (connected(self.graph@, self.n@) <==> self.mst@.len() + 1 == self.n@)
        &&& self.mst@.len() + parts(self.graph@, self.n@) == self.n@
    }

    /// What the invariant says, in terms of the public view.
    pub proof fn lemma_wf(&self)
        requires
            self.wf(),
        ensures
            covers(self.forest(), self.graph(), Set::full()),
            is_forest(self.forest()),
            ascending(self.forest()),
            lightest(self.forest(), self.graph(), Set::full()),
            ends_below(self.graph(), self.vertices()),
            self.vertices() > 0 ==> self.forest().len() < self.vertices(),
            self.vertices() == 0 ==> self.forest().len() == 0,
            self.vertices() > 0 ==> (connected(self.graph(),
                self.vertices()) <==> self.forest().len()
                + 1 == self.vertices()),
            self.forest().len() + parts(self.graph(), self.vertices()) == self.vertices(),
    {
    }

    /// Finds a minimum spanning forest of `g`: the edges are taken in ascending order of
    /// weight, and an edge is kept when its ends are not connected yet.
    pub fn new(g: &EdgeWeightedGraph) -> (r: KruskalMST)
        requires
            g.wf(),
        ensures
            r.wf(),
            r.graph() == g@,
            r.vertices() == g.vertices(),
    {
        let n = g.v();
        let ghost e_all = g@;
        let all = g.edges();
        let ghost l = all@;
        let mut pq: MinPQ<Edge> = MinPQ::new(all.len());
        let mut i: usize = 0;
        proof {
            assert(pq@ =~= l.take(0));
        }
        while i < all.len()
            invariant
                l == all@,
                i <= l.len(),
                pq.wf(),
                pq.items() == l.take(i as int).to_multiset(),
                pq@.len() == i,
            decreases l.len() - i,
        {
            proof {
                broadcast use vstd::seq_lib::to_multiset_build;
                assert(l.take(i as int + 1) =~= l.take(i as int).push(l[i as int]));
            }
            pq.insert(all[i]);
            i += 1;
        }
        let mut uf = UF::new(n);
        let mut mst: VecDeque<Edge> = VecDeque::new();
        proof {
            g.lemma_wf();
            assert(l.take(l.len() as int) =~= l);
            lemma_listed_within(e_all, n as nat);
            lemma_promising_empty(e_all, Set::full());
            assert forall|x: usize, y: usize| x < n && y < n implies #[trigger] tied(uf@, x, y)
                == joined(
                mst@,
                x,
                y,
            ) by {
                lemma_joined_self(mst@, x);
                if joined(mst@, x, y) && x != y {
                    Self::lemma_empty_joins_nothing(mst@, x, y);
                }
            }
            assert forall|t: int| 0 <= t < l.len() implies pq.items().count(#[trigger] l[t]) > 0
                by {
                broadcast use vstd::seq_lib::to_multiset_contains;
                assert(l.contains(l[t]));
            }
            assert forall|x: Edge| pq.items().count(x) > 0 implies l.contains(x) by {
                broadcast use vstd::seq_lib::to_multiset_contains;
            }
        }
        loop
            invariant
                g.wf(),
                e_all == g@,
                n == g.vertices(),
                l == listed(e_all, n as nat),
                within(l, e_all),
                e_all.len() <= usize::MAX,
                ends_below(e_all, n as nat),
                forall|t: int| 0 <= t < l.len() ==> (#[trigger] l[t]).v != l[t].w,
                pq.wf(),
                uf.wf(),
                uf@.len() == n,
                forall|x: usize, y: usize|
                    x < n && y < n ==> #[trigger] tied(uf@, x, y) == joined(mst@, x, y),
                within(mst@, l),
                mst@.no_duplicates(),
                is_forest(mst@),
                ascending(mst@),
                promising(mst@, e_all, Set::full()),
                forall|t: int|
                    0 <= t < l.len() ==> pq.items().count(#[trigger] l[t]) > 0 || joined(
                        mst@,
                        l[t].v,
                        l[t].w,
                    ),
                forall|x: Edge| pq.items().count(x) > 0 ==> l.contains(x),
                forall|t: int, x: Edge|
                    0 <= t < mst@.len() && pq.items().count(x) > 0 ==> (#[trigger] mst@[t]).weight
                        <= #[trigger] x.weight,
                uf.components() + mst@.len() == n,
            ensures
                covers(mst@, e_all, Set::full()),
                is_forest(mst@),
                ascending(mst@),
                promising(mst@, e_all, Set::full()),
                mst@.no_duplicates(),
                uf.wf(),
                uf@.len() == n,
                forall|x: usize, y: usize|
                    x < n && y < n ==> #[trigger] tied(uf@, x, y) == joined(mst@, x, y),
                uf.components() + mst@.len() == n,
                within(mst@, e_all),
                ends_below(e_all, n as nat),
            decreases pq@.len(),
        {
            let ghost pq0 = pq.items();
            let ghost q0 = pq@;
            let ghost k = mst@;
            let popped = pq.delete_min();
            if popped.is_none() {
                proof {
                    assert forall|t: int| 0 <= t < l.len() implies joined(k, (#[trigger] l[t]).v,
                        l[t].w) by {
                        broadcast use vstd::seq_lib::to_multiset_contains;
                        assert(!q0.contains(l[t]));
                    }
                    Self::lemma_all_joined(e_all, l, n as nat, k);
                }
                break;
            }
            let e = popped.unwrap();
            proof {
                assert(pq0.count(e) > 0);
                assert(l.contains(e));
                let t = choose|t: int| 0 <= t < l.len() && l[t] == e;
                assert(e_all.contains(l[t]));
                let te = choose|te: int| 0 <= te < e_all.len() && e_all[te] == e;
                assert(e_all[te].v < n && e_all[te].w < n);
                assert(l[t].v != l[t].w);
            }
            if mst.len() >= n - 1 {
                proof {
                    assert forall|x: usize, y: usize| x < n && y < n implies joined(k, x, y) by {
                        uf.lemma_one_component(x, y);
                        assert(tied(uf@, x, y) == joined(k, x, y));
                    }
                    assert forall|t: int| 0 <= t < l.len() implies joined(k, (#[trigger] l[t]).v,
                        l[t].w) by {
                        assert(e_all.contains(l[t]));
                        let te = choose|te: int| 0 <= te < e_all.len() && e_all[te] == l[t];
                        assert(e_all[te].v < n && e_all[te].w < n);
                    }
                    Self::lemma_all_joined(e_all, l, n as nat, k);
                }
                break;
            }
            let v = e.either();
            let w = e.w;
            proof {
                assert(tied(uf@, v, w) == joined(k, v, w));
                assert forall|t: int| 0 <= t < l.len() implies pq.items().count(#[trigger] l[t]) > 0
                    || l[t] == e || joined(k, l[t].v, l[t].w) by {
                    assert(pq0.count(l[t]) > 0 || joined(k, l[t].v, l[t].w));
                }
                assert forall|x: Edge| pq.items().count(x) > 0 implies l.contains(x) by {
                    assert(pq0.count(x) > 0);
                }
            }
            if !uf.connected(v, w) {
                let ghost reps = uf@;
                uf.union(v, w);
                mst.push_back(e);
                proof {
                    let k2 = mst@;
                    assert(k2 == k.push(e));
                    let cut = Set::new(|x: usize| joined(k, v, x));
                    lemma_joined_self(k, v);
                    assert(respects(k, cut)) by {
                        assert forall|t: int| 0 <= t < k.len() implies
                            cut.contains((#[trigger] k[t]).v)
                            == cut.contains(k[t].w) by {
                            assert(k[t].joins(k[t].v, k[t].w));
                            assert(adjacent(k, k[t].v, k[t].w));
                            lemma_adjacent_joined(k, k[t].v, k[t].w);
                            lemma_joined_symmetric(k, k[t].v, k[t].w);
                            if joined(k, v, k[t].v) {
                                lemma_joined_trans(k, v, k[t].v, k[t].w);
                            }
                            if joined(k, v, k[t].w) {
                                lemma_joined_trans(k, v, k[t].w, k[t].v);
                            }
                        }
                    }
                    assert(lightest_across(e_all, cut, e)) by {
                        assert forall|t: int|
                            0 <= t < e_all.len() && cut.contains((#[trigger] e_all[t]).v)
                                != cut.contains(
                                e_all[t].w,
                            ) implies e.weight <= e_all[t].weight by {
                            let f = e_all[t];
                            lemma_listed_complete(e_all, n as nat, t);
                            let u = choose|u: int| 0 <= u < l.len() && l[u] == f;
                            assert(pq0.count(l[u]) > 0 || joined(k, l[u].v, l[u].w));
                            if pq0.count(f) > 0 {
                                assert(e.key() <= f.key());
                            }
                            if joined(k, f.v, f.w) {
                                lemma_joined_symmetric(k, f.v, f.w);
                                if joined(k, v, f.v) {
                                    lemma_joined_trans(k, v, f.v, f.w);
                                }
                                if joined(k, v, f.w) {
                                    lemma_joined_trans(k, v, f.w, f.v);
                                }
                            }
                        }
                    }
                    lemma_cut(k, e_all, Set::full(), cut, e);
                    assert(k2.no_duplicates()) by {
                        assert forall|a: int, b: int|
                            0 <= a < k2.len() && 0 <= b < k2.len() && a != b implies k2[a] != k2[b]
                                by {
                            if a < k.len() && b < k.len() {
                                assert(k[a] != k[b]);
                            } else if a < k.len() {
                                assert(k.contains(k[a]));
                            } else {
                                assert(k.contains(k[b]));
                            }
                        }
                    }
                    assert(is_forest(k2)) by {
                        assert forall|t: int| 0 <= t < k2.len() implies !joined(
                            k2.take(t),
                            (#[trigger] k2[t]).v,
                            k2[t].w,
                        ) by {
                            if t < k.len() {
                                assert(k2.take(t) =~= k.take(t));
                                assert(k2[t] == k[t]);
                            } else {
                                assert(k2.take(t) =~= k);
                            }
                        }
                    }
                    assert(within(k2, l)) by {
                        assert forall|t: int| 0 <= t < k2.len() implies l.contains(#[trigger] k2[t])
                            by {
                            if t < k.len() {
                                assert(k2[t] == k[t]);
                            }
                        }
                    }
                    assert(ascending(k2)) by {
                        assert forall|a: int, b: int| 0 <= a <= b < k2.len() implies
                            (#[trigger] k2[a]).weight
                            <= (#[trigger] k2[b]).weight by {
                            if b < k.len() {
                                assert(k[a].weight <= k[b].weight);
                            } else if a < k.len() {
                                assert(k[a].weight <= e.weight);
                            }
                            assert(k2[a] == if a < k.len() { k[a] } else { e });
                            assert(k2[b] == if b < k.len() { k[b] } else { e });
                        }
                    }
                    assert forall|x: usize, y: usize| x < n && y < n implies #[trigger] tied(uf@, x,
                        y)
                        == joined(k2, x, y) by {
                        lemma_joined_push(k, e, x, y);
                        assert(tied(reps, x, y) == joined(k, x, y));
                        assert(tied(reps, x, v) == joined(k, x, v));
                        assert(tied(reps, w, y) == joined(k, w, y));
                        assert(tied(reps, x, w) == joined(k, x, w));
                        assert(tied(reps, v, y) == joined(k, v, y));
                    }
                    assert forall|t: int| 0 <= t < l.len() implies
                        pq.items().count(#[trigger] l[t]) > 0
                        || joined(k2, l[t].v, l[t].w) by {
                        lemma_joined_push(k, e, l[t].v, l[t].w);
                        if l[t] == e {
                            lemma_joined_push(k, e, v, w);
                            lemma_joined_self(k, w);
                        }
                    }
                    assert forall|t: int, x: Edge|
                        0 <= t < k2.len() && pq.items().count(x) > 0 implies
                            (#[trigger] k2[t]).weight
                        <= #[trigger] x.weight by {
                        assert(pq0.count(x) > 0);
                        assert(e.key() <= x.key());
                        if t < k.len() {
                            assert(k2[t] == k[t]);
                        }
                    }
                }
            } else {
                proof {
                    assert forall|t: int, x: Edge|
                        0 <= t < k.len() && pq.items().count(x) > 0 implies (#[trigger] k[t]).weight
                        <= #[trigger] x.weight by {
                        assert(pq0.count(x) > 0);
                    }
                }
            }
        }
        proof {
            lemma_promising_lightest(mst@, e_all, Set::full());
            uf.lemma_component_count();
            assert forall|x: usize, y: usize| x < n && y < n implies #[trigger] tied(uf@, x, y) == joined(
                e_all,
                x,
                y,
            ) by {
                assert(tied(uf@, x, y) == joined(mst@, x, y));
                if joined(mst@, x, y) {
                    lemma_joined_within(mst@, e_all, x, y);
                }
            }
            assert forall|x: int| 0 <= x < n implies (#[trigger] uf@[x]) < n && uf@[uf@[x] as int] == uf@[x] by {
                uf.lemma_representative(x as usize);
            }
            Self::lemma_parts(e_all, n as nat, uf@);
            if n > 0 {
                if connected(e_all, n as nat) {
                    assert forall|p: int, q: int| 0 <= p < n && 0 <= q < n implies uf@[p] == uf@[q]
                        by {
                        assert(joined(e_all, 0, p as usize) && joined(e_all, 0, q as usize));
                        lemma_joined_symmetric(e_all, 0, p as usize);
                        lemma_joined_trans(e_all, p as usize, 0, q as usize);
                        assert(joined(mst@, p as usize, q as usize));
                        assert(tied(uf@, p as usize, q as usize));
                    }
                }
                if mst@.len() + 1 == n {
                    assert forall|x: usize| x < n implies #[trigger] joined(e_all, 0, x) by {
                        uf.lemma_one_component(0, x);
                        assert(tied(uf@, 0, x) == joined(mst@, 0, x));
                        lemma_joined_within(mst@, e_all, 0, x);
                    }
                }
            }
        }
        KruskalMST { mst, graph: Ghost(e_all), n: Ghost(n as nat) }
    }

    /// Where two vertices have the same representative exactly if the edges connect
    /// them, there are as many representatives as sets of connected vertices.
    proof fn lemma_parts(e: Seq<Edge>, n: nat, reps: Seq<usize>)
        requires
            n <= usize::MAX,
            reps.len() == n,
            forall|x: int| 0 <= x < n ==> (#[trigger] reps[x]) < n && reps[reps[x] as int] == reps[x],
            forall|x: usize, y: usize| x < n && y < n ==> #[trigger] tied(reps, x, y) == joined(e, x, y),
        ensures
            leaders(reps).len() == parts(e, n),
    {
        let from = firsts(e, n);
        let f = |v: int| reps[v] as int;
        lemma_int_range(0, n as int);
        lemma_len_subset(from, set_int_range(0, n as int));
        assert(injective_on(f, from)) by {
            assert forall|a: int, b: int| from.contains(a) && from.contains(b) && f(a) == f(b) implies a
                == b by {
                assert(tied(reps, a as usize, b as usize));
                assert(joined(e, a as usize, b as usize));
                lemma_joined_symmetric(e, a as usize, b as usize);
                assert(leads(e, a as usize) && leads(e, b as usize));
            }
        }
        assert(from.map(f) =~= leaders(reps)) by {
            assert forall|r: int| leaders(reps).contains(r) implies from.map(f).contains(r) by {
                let v = lemma_first(e, r as usize);
                assert(tied(reps, v, r as usize));
                assert(from.contains(v as int) && f(v as int) == r);
            }
            assert forall|r: int| from.map(f).contains(r) implies leaders(reps).contains(r) by {
                let v = choose|v: int| from.contains(v) && f(v) == r;
                assert(reps[v] < n && reps[reps[v] as int] == reps[v]);
            }
        }
        lemma_map_size(from, leaders(reps), f);
    }

    /// Without edges only a vertex and itself are connected.
    proof fn lemma_empty_joins_nothing(k: Seq<Edge>, x: usize, y: usize)
        requires
            k.len() == 0,
            joined(k, x, y),
        ensures
            x == y,
    {
        let p = choose|p: Seq<usize>| #[trigger] is_chain(k, p) && p[0] == x && p.last() == y;
        if p.len() > 1 {
            assert(linked_at(k, p, 0));
        }
    }

    /// A set that connects the two ends of every listed edge covers the graph.
    proof fn lemma_all_joined(e_all: Seq<Edge>, l: Seq<Edge>, n: nat, k: Seq<Edge>)
        requires
            e_all.len() <= usize::MAX,
            n <= usize::MAX,
            ends_below(e_all, n),
            l == listed(e_all, n),
            within(k, l),
            within(l, e_all),
            forall|t: int| 0 <= t < l.len() ==> joined(k, (#[trigger] l[t]).v, l[t].w),
        ensures
            covers(k, e_all, Set::full()),
    {
        assert(within(k, e_all)) by {
            assert forall|t: int| 0 <= t < k.len() implies e_all.contains(#[trigger] k[t]) by {
                let u = choose|u: int| 0 <= u < l.len() && l[u] == k[t];
                assert(e_all.contains(l[u]));
            }
        }
        assert forall|a: usize, b: usize| #[trigger] adjacent(e_all, a, b) implies joined(k, a, b)
            by {
            let t = choose|t: int| 0 <= t < e_all.len() && #[trigger] e_all[t].joins(a, b);
            if a == b {
                lemma_joined_self(k, a);
            } else {
                lemma_listed_complete(e_all, n, t);
                let u = choose|u: int| 0 <= u < l.len() && l[u] == e_all[t];
                assert(joined(k, l[u].v, l[u].w));
                lemma_joined_symmetric(k, l[u].v, l[u].w);
            }
        }
        assert forall|x: usize, y: usize| joined(e_all, x, y) implies #[trigger] joined(k, x, y)
            by {
            lemma_joined_lift(e_all, k, x, y);
        }
    }

    /// The edges of the forest in the order in which they were chosen, lightest first.
    pub fn edges(&self) -> (r: Vec<Edge>)
        requires
            self.wf(),
        ensures
            r@ == self.forest(),
            covers(r@, self.graph(), Set::full()),
            is_forest(r@),
            ascending(r@),
            lightest(r@, self.graph(), Set::full()),
            self.vertices() > 0 ==> r@.len() < self.vertices(),
            self.vertices() > 0 ==> (connected(self.graph(), self.vertices()) <==> r@.len() + 1
                == self.vertices()),
    {
        let mut r: Vec<Edge> = Vec::with_capacity(self.mst.len());
        let mut i: usize = 0;
        while i < self.mst.len()
            invariant
                i <= self.mst@.len(),
                r@ == self.mst@.take(i as int),
            decreases self.mst@.len() - i,
        {
            r.push(self.mst[i]);
            proof {
                assert(r@ =~= self.mst@.take(i as int + 1));
            }
            i += 1;
        }
        assert(self.mst@.take(i as int) =~= self.mst@);
        r
    }
}

} // verus!
