//! Cycle detection in undirected graphs.

use vstd::prelude::*;
use crate::dfs::{chained, lemma_unmarked_set, linked, progress_ok, stack_ok, unmarked};
use crate::graph::Graph;
use crate::paths::{has_edge, in_bounds, lemma_edge_opposite, lists_view, multiplicity, symmetric};

verus! {

/// Some vertex has an edge to itself.
pub open spec fn has_self_loop(a: Seq<Seq<usize>>) -> bool {
    exists|v: usize| #[trigger] has_edge(a, v, v)
}

/// Some two distinct vertices are joined by more than one edge.
pub open spec fn has_parallel_edges(a: Seq<Seq<usize>>) -> bool {
    exists|v: usize, w: usize|
        v != w && v < a.len() && w < a.len() && #[trigger] multiplicity(a, v, w) >= 2
}

/// `c` lists at least three distinct vertices, each joined to the next and the last to
/// the first.
pub open spec fn is_simple_cycle(a: Seq<Seq<usize>>, c: Seq<usize>) -> bool {
    &&& c.len() >= 3
    &&& c.no_duplicates()
    &&& forall|i: int| 0 <= i < c.len() - 1 ==> has_edge(a, #[trigger] c[i], c[i + 1])
    &&& has_edge(a, c.last(), c[0])
}

/// The graph has a self-loop, a pair of parallel edges, or a cycle through at least
/// three vertices.
pub open spec fn has_undirected_cycle(a: Seq<Seq<usize>>) -> bool {
    ||| has_self_loop(a)
    ||| has_parallel_edges(a)
    ||| exists|c: Seq<usize>| #[trigger] is_simple_cycle(a, c)
}

/// Every listed neighbour of a vertex is its parent, or a child that was found through
/// exactly this entry.
pub open spec fn tree_edges_only(
    a: Seq<Seq<usize>>,
    next: Seq<usize>,
    parent: Seq<usize>,
    slot: Seq<int>,
) -> bool {
    forall|u: int, j: int|
        0 <= u < a.len() && 0 <= j < next[u] ==> {
            let x = #[trigger] a[u][j];
            x == parent[u] || (parent[x as int] == u && slot[x as int] == j)
        }
}

/// Every vertex with a parent lies one level below it.
pub open spec fn levels_ok(a: Seq<Seq<usize>>, parent: Seq<usize>, depth: Seq<nat>) -> bool {
    forall|v: int|
        0 <= v < a.len() && (#[trigger] parent[v]) < a.len() ==> depth[v] == depth[parent[v] as int]
            + 1
}

/// A value that occurs at two places of a sequence occurs at least twice.
proof fn lemma_count_two(s: Seq<usize>, i: int, j: int)
    requires
        0 <= i < j < s.len(),
        s[i] == s[j],
    ensures
        s.to_multiset().count(s[i]) >= 2,
    decreases s.len(),
{
    broadcast use vstd::seq_lib::group_to_multiset_ensures;
    let t = s.drop_last();
    assert(s =~= t.push(s.last()));
    if j == s.len() - 1 {
        assert(t[i] == s[i]);
        assert(t.contains(s[i]));
        assert(t.to_multiset().count(s[i]) > 0);
    } else {
        assert(t[i] == s[i] && t[j] == s[j]);
        lemma_count_two(t, i, j);
    }
}

/// A value that occurs at least twice occurs at two places.
proof fn lemma_two_slots(s: Seq<usize>, x: usize) -> (r: (int, int))
    requires
        s.to_multiset().count(x) >= 2,
    ensures
        0 <= r.0 < r.1 < s.len(),
        s[r.0] == x,
        s[r.1] == x,
    decreases s.len(),
{
    broadcast use vstd::seq_lib::group_to_multiset_ensures;
    if s.len() == 0 {
        assert(s =~= Seq::<usize>::empty());
        (0, 0)
    } else {
        let t = s.drop_last();
        assert(s =~= t.push(s.last()));
        if s.last() == x {
            assert(t.to_multiset().count(x) > 0);
            assert(t.contains(x));
            let i = choose|i: int| 0 <= i < t.len() && t[i] == x;
            (i, s.len() - 1)
        } else {
            let r = lemma_two_slots(t, x);
            r
        }
    }
}

/// Some entry of `c` lies at least as deep as every other.
proof fn lemma_deepest(c: Seq<usize>, depth: Seq<nat>) -> (m: int)
    requires
        c.len() > 0,
    ensures
        0 <= m < c.len(),
        forall|i: int| 0 <= i < c.len() ==> depth[#[trigger] c[i] as int] <= depth[c[m] as int],
    decreases c.len(),
{
    if c.len() == 1 {
        0
    } else {
        let t = c.drop_last();
        let m = lemma_deepest(t, depth);
        let best = if depth[c.last() as int] > depth[t[m] as int] {
            c.len() - 1
        } else {
            m
        };
        assert forall|i: int| 0 <= i < c.len() implies depth[#[trigger] c[i] as int]
            <= depth[c[best] as int] by {
            if i < t.len() {
                assert(t[i] == c[i]);
            }
        }
        best
    }
}

/// An edge of a graph that has tree edges only joins a vertex and its parent.
proof fn lemma_edge_is_link(
    a: Seq<Seq<usize>>,
    parent: Seq<usize>,
    slot: Seq<int>,
    x: usize,
    y: usize,
)
    requires
        tree_edges_only(a, Seq::new(a.len(), |v: int| a[v].len() as usize), parent, slot),
        forall|v: int| 0 <= v < a.len() ==> (#[trigger] a[v]).len() <= usize::MAX,
        has_edge(a, x, y),
    ensures
        y == parent[x as int] || parent[y as int] == x,
{
    let j = choose|j: int| 0 <= j < a[x as int].len() && a[x as int][j] == y;
    assert(a[x as int].len() <= usize::MAX);
    let full = Seq::new(a.len(), |v: int| a[v].len() as usize);
    assert(0 <= j < full[x as int]);
    assert(a[x as int][j] == y);
}

/// A graph in which every edge joins a vertex and its parent, each child through one
/// entry only, has no cycle.
proof fn lemma_forest_acyclic(
    a: Seq<Seq<usize>>,
    parent: Seq<usize>,
    slot: Seq<int>,
    depth: Seq<nat>,
)
    requires
        in_bounds(a),
        symmetric(a),
        parent.len() == a.len(),
        slot.len() == a.len(),
        depth.len() == a.len(),
        forall|v: int| 0 <= v < a.len() ==> (#[trigger] a[v]).len() <= usize::MAX,
        tree_edges_only(a, Seq::new(a.len(), |v: int| a[v].len() as usize), parent, slot),
        levels_ok(a, parent, depth),
    ensures
        !has_undirected_cycle(a),
{
    let full = Seq::new(a.len(), |v: int| a[v].len() as usize);
    if has_self_loop(a) {
        let v = choose|v: usize| #[trigger] has_edge(a, v, v);
        lemma_edge_is_link(a, parent, slot, v, v);
        assert(parent[v as int] < a.len());
    }
    if has_parallel_edges(a) {
        let (v, w) = choose|v: usize, w: usize|
            v != w && v < a.len() && w < a.len() && #[trigger] multiplicity(a, v, w) >= 2;
        let (i, j) = lemma_two_slots(a[v as int], w);
        assert(a[v as int].len() <= usize::MAX);
        assert(0 <= i < full[v as int] && 0 <= j < full[v as int]);
        assert(a[v as int][i] == w && a[v as int][j] == w);
        // both entries cannot be the one through which `w` was found
        assert(w == parent[v as int]);
        assert(multiplicity(a, v, w) == multiplicity(a, w, v));
        let (p, q) = lemma_two_slots(a[w as int], v);
        assert(a[w as int].len() <= usize::MAX);
        assert(0 <= p < full[w as int] && 0 <= q < full[w as int]);
        assert(a[w as int][p] == v && a[w as int][q] == v);
        assert(parent[v as int] < a.len());
        if v == parent[w as int] {
            assert(parent[w as int] < a.len());
        }
    }
    if exists|c: Seq<usize>| #[trigger] is_simple_cycle(a, c) {
        let c = choose|c: Seq<usize>| #[trigger] is_simple_cycle(a, c);
        let n = c.len() as int;
        let m = lemma_deepest(c, depth);
        let before = if m == 0 {
            n - 1
        } else {
            m - 1
        };
        let after = if m == n - 1 {
            0
        } else {
            m + 1
        };
        assert(has_edge(a, c[before], c[m])) by {
            if m > 0 {
                assert(has_edge(a, c[m - 1], c[m - 1 + 1]));
            }
        }
        assert(has_edge(a, c[m], c[after])) by {
            if m < n - 1 {
                assert(has_edge(a, c[m], c[m + 1]));
            }
        }
        lemma_edge_is_link(a, parent, slot, c[before], c[m]);
        lemma_edge_is_link(a, parent, slot, c[m], c[after]);
        assert(depth[c[before] as int] <= depth[c[m] as int]);
        assert(depth[c[after] as int] <= depth[c[m] as int]);
        if parent[c[before] as int] == c[m] {
            assert(parent[c[before] as int] < a.len());
        }
        if parent[c[after] as int] == c[m] {
            assert(parent[c[after] as int] < a.len());
        }
        assert(c[before] == parent[c[m] as int]);
        assert(c[after] == parent[c[m] as int]);
        assert(before != after);
        assert(c[before] != c[after]);
    }
}

/// The outcome of a search for a cycle in an undirected graph.
pub struct Cycle {
    marked: Vec<bool>,
    has_cycle: bool,
    parent: Vec<usize>,
    next: Vec<usize>,
    stack: Vec<usize>,
    graph: Ghost<Seq<Seq<usize>>>,
    slot: Ghost<Seq<int>>,
    depth: Ghost<Seq<nat>>,
    done: Ghost<Seq<bool>>,
    pos: Ghost<Seq<int>>,
}

impl Cycle {
    /// The adjacency structure that was searched.
    pub closed spec fn graph(&self) -> Seq<Seq<usize>> {
        self.graph@
    }

    /// The flag is set exactly when the graph has a cycle.
    pub closed spec fn wf(&self) -> bool {
        self.has_cycle == has_undirected_cycle(self.graph@)
    }

    /// The state of the search while some vertices may still be on the stack.
    spec fn searching(&self) -> bool {
        let a = self.graph@;
        let n = a.len();
        &&& in_bounds(a)
        &&& symmetric(a)
        &&& n <= usize::MAX
        &&& self.marked@.len() == n
        &&& self.parent@.len() == n
        &&& self.next@.len() == n
        &&& self.slot@.len() == n
        &&& self.depth@.len() == n
        &&& self.done@.len() == n
        &&& self.pos@.len() == n
        &&& progress_ok(a, self.marked@, self.next@)
        &&& forall|v: int| 0 <= v < n && !self.marked@[v] ==> (#[trigger] self.next@[v]) == 0
        &&& forall|v: int|
            0 <= v < n && #[trigger] self.done@[v] ==> self.marked@[v] && self.next@[v]
                == a[v].len()
        &&& stack_ok(a, self.marked@, self.done@, self.stack@, self.pos@)
        &&& forall|k: int| 0 < k < self.stack@.len() ==> #[trigger] linked(self.parent@,
            self.stack@, k)
        &&& forall|v: int| 0 <= v < n ==> (#[trigger] self.parent@[v]) <= n
        &&& forall|v: int| 0 <= v < n && !self.marked@[v] ==> (#[trigger] self.parent@[v]) == n
        &&& forall|v: int|
            0 <= v < n && self.marked@[v] && (#[trigger] self.parent@[v]) < n ==> {
                &&& self.marked@[self.parent@[v] as int]
                &&& 0 <= self.slot@[v] < self.next@[self.parent@[v] as int]
                &&& a[self.parent@[v] as int][self.slot@[v]] == v
            }
        &&& levels_ok(a, self.parent@, self.depth@)
        &&& !self.has_cycle ==> tree_edges_only(a, self.next@, self.parent@, self.slot@)
        &&& self.has_cycle ==> has_undirected_cycle(a)
    }

    /// Searches `g` for a cycle.
    pub fn new(g: &Graph) -> (c: Cycle)
        requires
            g.wf(),
        ensures
            c.wf(),
            c.graph() == g@,
    {
        let lists = g.lists();
        let n = lists.len();
        let ghost a = g@;
        let mut marked: Vec<bool> = Vec::with_capacity(n);
        let mut parent: Vec<usize> = Vec::with_capacity(n);
        let mut next: Vec<usize> = Vec::with_capacity(n);
        let mut i: usize = 0;
        while i < n
            invariant
                i <= n,
                marked@.len() == i,
                parent@.len() == i,
                next@.len() == i,
                forall|k: int| 0 <= k < i ==> !(#[trigger] marked@[k]),
                forall|k: int| 0 <= k < i ==> (#[trigger] next@[k]) == 0,
                forall|k: int| 0 <= k < i ==> (#[trigger] parent@[k]) == n,
            decreases n - i,
        {
            marked.push(false);
            parent.push(n);
            next.push(0);
            i += 1;
        }
        let mut c = Cycle {
            marked,
            has_cycle: false,
            parent,
            next,
            stack: Vec::new(),
            graph: Ghost(a),
            slot: Ghost(Seq::new(n as nat, |k: int| 0int)),
            depth: Ghost(Seq::new(n as nat, |k: int| 0nat)),
            done: Ghost(Seq::new(n as nat, |k: int| false)),
            pos: Ghost(Seq::new(n as nat, |k: int| 0int)),
        };
        proof {
            g.lemma_wf();
        }
        let mut s: usize = 0;
        while s < n
            invariant
                a == lists_view(lists),
                a == c.graph@,
                n == a.len(),
                s <= n,
                c.searching(),
                c.stack@.len() == 0,
                forall|u: int| 0 <= u < s ==> #[trigger] c.marked@[u],
            decreases n - s,
        {
            if !c.marked[s] {
                c.dfs(lists, s);
            }
            s += 1;
        }
        proof {
            if !c.has_cycle {
                let full = Seq::new(a.len(), |v: int| a[v].len() as usize);
                assert forall|v: int| 0 <= v < n implies (#[trigger] c.next@[v]) == a[v].len() by {
                    assert(c.marked@[v]);
                    assert(c.done@[v] || 0 <= c.pos@[v] < c.stack@.len());
                }
                assert(full =~= c.next@);
                assert forall|v: int| 0 <= v < a.len() implies (#[trigger] a[v]).len() <= usize::MAX
                    by {
                    assert(c.next@[v] == a[v].len());
                }
                lemma_forest_acyclic(a, c.parent@, c.slot@, c.depth@);
            }
        }
        c
    }

    /// Explores the tree of the unmarked vertex `r` and notes every edge that leads to a
    /// marked vertex other than the parent of the vertex it leaves.
    fn dfs(&mut self, lists: &Vec<Vec<usize>>, r: usize)
        requires
            old(self).searching(),
            old(self).stack@.len() == 0,
            lists_view(lists) == old(self).graph@,
            r < lists@.len(),
            !old(self).marked@[r as int],
        ensures
            final(self).graph@ == old(self).graph@,
            final(self).searching(),
            final(self).stack@.len() == 0,
            forall|u: int|
                0 <= u < lists@.len() && (old(self).marked@[u] || u == r)
                    ==> #[trigger] final(self).marked@[u],
    {
        let ghost a = self.graph@;
        let ghost before = *self;
        let n = lists.len();
        proof {
            lemma_unmarked_set(self.marked@, r as int);
            self.pos@ = self.pos@.update(r as int, 0);
            assert(!self.done@[r as int]);
        }
        self.marked[r] = true;
        self.parent[r] = n;
        self.stack.push(r);
        proof {
            assert forall|u: int, j: int| 0 <= u < a.len() && 0 <= j < self.next@[u] implies ({
                let x = #[trigger] a[u][j];
                !self.has_cycle ==> (x == self.parent@[u] || (self.parent@[x as int] == u
                    && self.slot@[x as int] == j))
            }) by {
                let x = a[u][j];
                if !self.has_cycle {
                    assert(before.marked@[x as int]);
                    assert(x == before.parent@[u] || (before.parent@[x as int] == u
                        && before.slot@[x as int]
                        == j));
                }
            }
        }
        while self.stack.len() > 0
            invariant
                a == lists_view(lists),
                a == self.graph@,
                n == a.len(),
                r < n,
                self.searching(),
                forall|u: int|
                    0 <= u < n && (before.marked@[u] || u == r) ==> #[trigger] self.marked@[u],
            decreases
                    unmarked(self.marked@),
                    self.stack@.len(),
                    (if self.stack@.len() > 0 {
                        a[self.stack@.last() as int].len() - self.next@[self.stack@.last() as int]
                    } else {
                        0
                    }),
        {
            let top = self.stack.len() - 1;
            let v = self.stack[top];
            let j = self.next[v];
            proof {
                assert(self.marked@[v as int]);
                assert(!self.done@[v as int]);
            }
            if j < lists[v].len() {
                let w = lists[v][j];
                assert(w == a[v as int][j as int]);
                assert(has_edge(a, v, w));
                let ghost state = *self;
                self.next[v] = j + 1;
                if !self.marked[w] {
                    let ghost stack0 = self.stack@;
                    proof {
                        assert(!self.done@[w as int]);
                        lemma_unmarked_set(self.marked@, w as int);
                        self.pos@ = self.pos@.update(w as int, self.stack@.len() as int);
                        self.slot@ = self.slot@.update(w as int, j as int);
                        self.depth@ = self.depth@.update(w as int, self.depth@[v as int] + 1);
                    }
                    self.marked[w] = true;
                    self.parent[w] = v;
                    self.stack.push(w);
                    proof {
                        assert forall|k: int| 0 < k < self.stack@.len() implies #[trigger] chained(
                            a,
                            self.stack@,
                            k,
                        ) by {
                            if k < stack0.len() {
                                assert(chained(a, stack0, k));
                            }
                        }
                        assert forall|k: int| 0 < k < self.stack@.len() implies #[trigger] linked(
                            self.parent@,
                            self.stack@,
                            k,
                        ) by {
                            if k < stack0.len() {
                                assert(linked(state.parent@, stack0, k));
                                assert(stack0[k] != w);
                            }
                        }
                        assert forall|x: int|
                            0 <= x < n && self.marked@[x] && (#[trigger] self.parent@[x])
                                < n implies {
                            &&& self.marked@[self.parent@[x] as int]
                            &&& 0 <= self.slot@[x] < self.next@[self.parent@[x] as int]
                            &&& a[self.parent@[x] as int][self.slot@[x]] == x
                        } by {
                            if x != w {
                                assert(state.parent@[x] == self.parent@[x]);
                            }
                        }
                        assert(levels_ok(a, self.parent@, self.depth@)) by {
                            assert forall|x: int|
                                0 <= x < a.len() && (#[trigger] self.parent@[x]) < a.len() implies
                                    self.depth@[x]
                                == self.depth@[self.parent@[x] as int] + 1 by {
                                if x != w {
                                    assert(state.parent@[x] == self.parent@[x]);
                                    assert(state.marked@[x]);
                                    assert(state.marked@[state.parent@[x] as int]);
                                }
                            }
                        }
                        if !self.has_cycle {
                            assert forall|u: int, jj: int|
                                0 <= u < a.len() && 0 <= jj < self.next@[u] implies ({
                                let x = #[trigger] a[u][jj];
                                x == self.parent@[u] || (self.parent@[x as int] == u
                                    && self.slot@[x as int]
                                    == jj)
                            }) by {
                                let x = a[u][jj];
                                if u == v && jj == j {
                                } else {
                                    assert(0 <= jj < state.next@[u]);
                                    assert(state.marked@[x as int]);
                                    assert(x == state.parent@[u] || (state.parent@[x as int] == u
                                        && state.slot@[x as int] == jj));
                                }
                            }
                        }
                    }
                } else if w != self.parent[v] {
                    proof {
                        if !self.has_cycle {
                            Self::lemma_witness(&state, v, w, j as int);
                        }
                    }
                    self.has_cycle = true;
                } else {
                    proof {
                        if !self.has_cycle {
                            assert forall|u: int, jj: int|
                                0 <= u < a.len() && 0 <= jj < self.next@[u] implies ({
                                let x = #[trigger] a[u][jj];
                                x == self.parent@[u] || (self.parent@[x as int] == u
                                    && self.slot@[x as int]
                                    == jj)
                            }) by {
                                if u == v && jj == j {
                                } else {
                                    assert(0 <= jj < state.next@[u]);
                                }
                            }
                        }
                    }
                }
            } else {
                let ghost stack0 = self.stack@;
                proof {
                    self.done@ = self.done@.update(v as int, true);
                }
                self.stack.pop();
                proof {
                    assert(self.stack@ =~= stack0.drop_last());
                    assert forall|k: int| 0 < k < self.stack@.len() implies #[trigger] chained(
                        a,
                        self.stack@,
                        k,
                    ) by {
                        assert(chained(a, stack0, k));
                    }
                    assert forall|k: int| 0 < k < self.stack@.len() implies #[trigger] linked(
                        self.parent@,
                        self.stack@,
                        k,
                    ) by {
                        assert(linked(self.parent@, stack0, k));
                    }
                }
            }
        }
    }

    /// An edge from the top of the stack `v` to a marked vertex `w` other than its parent
    /// closes a cycle.
    proof fn lemma_witness(state: &Cycle, v: usize, w: usize, j: int)
        requires
            state.searching(),
            !state.has_cycle,
            state.stack@.len() > 0,
            v == state.stack@.last(),
            j == state.next@[v as int],
            0 <= j < state.graph@[v as int].len(),
            w == state.graph@[v as int][j],
            state.marked@[w as int],
            w != state.parent@[v as int],
        ensures
            has_undirected_cycle(state.graph@),
    {
        let a = state.graph@;
        let stack = state.stack@;
        let top = stack.len() - 1;
        assert(stack[top] == v);
        assert(has_edge(a, v, w));
        if w == v {
            assert(has_self_loop(a));
        } else if !state.done@[w as int] {
            let k = state.pos@[w as int];
            assert(stack[k] == w);
            assert(state.pos@[stack[top] as int] == top);
            if k == top - 1 {
                assert(linked(state.parent@, stack, top));
            }
            let c = stack.subrange(k, top + 1);
            assert forall|p: int, q: int| 0 <= p < c.len() && 0 <= q < c.len() && p != q implies
                c[p]
                != c[q] by {
                assert(state.pos@[stack[k + p] as int] == k + p);
                assert(state.pos@[stack[k + q] as int] == k + q);
            }
            assert forall|i: int| 0 <= i < c.len() - 1 implies has_edge(a, #[trigger] c[i],
                c[i + 1]) by {
                assert(chained(a, stack, k + i + 1));
            }
            assert(c.last() == v && c[0] == w);
            assert(is_simple_cycle(a, c));
        } else {
            lemma_edge_opposite(a, v, w);
            let jj = choose|jj: int| 0 <= jj < a[w as int].len() && a[w as int][jj] == v;
            assert(state.next@[w as int] == a[w as int].len());
            assert(a[w as int][jj] == v);
            assert(v == state.parent@[w as int] || (state.parent@[v as int] == w
                && state.slot@[v as int]
                == jj));
            assert(state.parent@[w as int] == v);
            let j0 = state.slot@[w as int];
            assert(0 <= j0 < j && a[v as int][j0] == w);
            lemma_count_two(a[v as int], j0, j);
            assert(multiplicity(a, v, w) >= 2);
            assert(has_parallel_edges(a));
        }
    }

    /// Whether the graph has a cycle.
    pub fn has_cycle(&self) -> (r: bool)
        requires
            self.wf(),
        ensures
            r == has_undirected_cycle(self.graph()),
    {
        self.has_cycle
    }
}

} // verus!
