//! Shortest paths from one source, found by breadth-first search.

use std::collections::VecDeque;
use vstd::prelude::*;
use crate::depth_first_search::DepthFirstSearch;
use crate::dfs::{lemma_unmarked_set, unmarked};
use crate::graph::Graph;
use crate::paths::{
    has_edge, in_bounds, is_walk, lemma_reachable_self, lemma_reachable_step, lists_view, reachable,
};
use crate::tree::{follows, is_route_back, parents_ok, trace_back};

verus! {

/// The state of a breadth-first search: the marks, for each marked vertex the vertex it
/// was found from, and the marked vertices whose neighbours have not been examined yet.
pub struct Wave {
    pub marked: Seq<bool>,
    pub edge_to: Seq<usize>,
    pub queue: Seq<usize>,
}

/// The state after the neighbours of `u` from position `j` on are examined: each
/// unmarked one is marked, noted as found from `u`, and put at the end of the queue.
pub open spec fn expand(a: Seq<Seq<usize>>, w: Wave, u: usize, j: int) -> Wave
    decreases a[u as int].len() - j,
{
    if u < a.len() && 0 <= j < a[u as int].len() {
        let x = a[u as int][j];
        let w2 = if x < w.marked.len() && !w.marked[x as int] {
            Wave {
                marked: w.marked.update(x as int, true),
                edge_to: w.edge_to.update(x as int, u),
                queue: w.queue.push(x),
            }
        } else {
            w
        };
        expand(a, w2, u, j + 1)
    } else {
        w
    }
}

/// The state after the queue has run empty: again and again the first vertex is taken
/// from the queue and its neighbours are examined.
pub open spec fn drain(a: Seq<Seq<usize>>, w: Wave) -> Wave
    decreases unmarked(w.marked) + w.queue.len(),
{
    if w.queue.len() == 0 {
        w
    } else {
        proof {
            lemma_expand_measure(a, Wave { queue: w.queue.skip(1), ..w }, w.queue[0], 0);
        }
        drain(a, expand(a, Wave { queue: w.queue.skip(1), ..w }, w.queue[0], 0))
    }
}

/// The state in which a breadth-first search of `n` vertices from `s` starts.
pub open spec fn ripple(n: nat, s: usize) -> Wave {
    Wave {
        marked: Seq::new(n, |v: int| false).update(s as int, true),
        edge_to: Seq::new(n, |v: int| 0usize),
        queue: seq![s],
    }
}

/// Examining neighbours moves vertices from the unmarked ones to the queue.
pub proof fn lemma_expand_measure(a: Seq<Seq<usize>>, w: Wave, u: usize, j: int)
    ensures
        unmarked(expand(a, w, u, j).marked) + expand(a, w, u, j).queue.len() == unmarked(w.marked)
            + w.queue.len(),
    decreases a[u as int].len() - j,
{
    if u < a.len() && 0 <= j < a[u as int].len() {
        let x = a[u as int][j];
        if x < w.marked.len() && !w.marked[x as int] {
            lemma_unmarked_set(w.marked, x as int);
            lemma_expand_measure(
                a,
                Wave {
                    marked: w.marked.update(x as int, true),
                    edge_to: w.edge_to.update(x as int, u),
                    queue: w.queue.push(x),
                },
                u,
                j + 1,
            );
        } else {
            lemma_expand_measure(a, w, u, j + 1);
        }
    }
}

/// No walk from `s` to `v` has fewer than `len` vertices.
pub open spec fn no_shorter_walk(a: Seq<Seq<usize>>, s: usize, v: usize, len: nat) -> bool {
    forall|p: Seq<usize>| #[trigger] is_walk(a, p) && p[0] == s && p.last() == v ==> p.len() >= len
}

/// Every edge that leaves a finished vertex leads to a marked vertex at most one level
/// further from the source.
pub open spec fn relaxed(
    a: Seq<Seq<usize>>,
    marked: Seq<bool>,
    done: Seq<bool>,
    dist: Seq<nat>,
) -> bool {
    forall|u: int, j: int|
        0 <= u < a.len() && done[u] && 0 <= j < a[u].len() ==> marked[#[trigger] a[u][j] as int]
            && dist[a[u][j] as int] <= dist[u] + 1
}

/// The level of the vertex at position `i` of a walk from the source is at most `i`.
proof fn lemma_walk_levels(
    a: Seq<Seq<usize>>,
    marked: Seq<bool>,
    dist: Seq<nat>,
    p: Seq<usize>,
    i: int,
)
    requires
        in_bounds(a),
        marked.len() == a.len(),
        dist.len() == a.len(),
        relaxed(a, marked, marked, dist),
        is_walk(a, p),
        marked[p[0] as int],
        dist[p[0] as int] == 0,
        0 <= i < p.len(),
    ensures
        p[i] < a.len(),
        marked[p[i] as int],
        dist[p[i] as int] <= i,
    decreases i,
{
    if i > 0 {
        lemma_walk_levels(a, marked, dist, p, i - 1);
        assert(has_edge(a, p[i - 1], p[i - 1 + 1]));
        let u = p[i - 1];
        let j = choose|j: int| 0 <= j < a[u as int].len() && a[u as int][j] == p[i];
        assert(marked[a[u as int][j] as int]);
    }
}

/// A route that exists cannot have fewer vertices than a bound that holds for all walks.
pub proof fn lemma_no_route_shorter(
    a: Seq<Seq<usize>>,
    s: usize,
    v: usize,
    len: nat,
    route: Seq<usize>,
)
    requires
        no_shorter_walk(a, s, v, len),
        is_route_back(a, route, s, v),
    ensures
        route.len() >= len,
{
    let p = route.reverse();
    assert(is_walk(a, p));
    assert(p[0] == s && p.last() == v);
}

/// Depth-first search and breadth-first search from the same source of the same graph
/// mark the same vertices.
pub proof fn lemma_same_marks(d: &DepthFirstSearch, b: &BreadthFirstPaths, v: usize)
    requires
        d.wf(),
        b.wf(),
        d.graph() == b.graph(),
        d.source() == b.source(),
        v < d.graph().len(),
    ensures
        d.marks(v) == b.marks(v),
{
    d.lemma_marks(v);
    b.lemma_marks(v);
}

/// What a breadth-first search from one source found in an undirected graph.
pub struct BreadthFirstPaths {
    marked: Vec<bool>,
    edge_to: Vec<usize>,
    s: usize,
    graph: Ghost<Seq<Seq<usize>>>,
    dist: Ghost<Seq<nat>>,
}

impl BreadthFirstPaths {
    /// The adjacency structure that was searched.
    pub closed spec fn graph(&self) -> Seq<Seq<usize>> {
        self.graph@
    }

    /// The vertex the search started from.
    pub closed spec fn source(&self) -> usize {
        self.s
    }

    /// Whether the search marked `v`.
    pub closed spec fn marks(&self, v: usize) -> bool {
        self.marked@[v as int]
    }

    /// The search marks a vertex exactly when it can be reached from the source.
    pub proof fn lemma_marks(&self, v: usize)
        requires
            self.wf(),
            v < self.graph().len(),
        ensures
            self.marks(v) == reachable(self.graph(), self.source(), v),
    {
    }

    /// The marks are exactly the vertices that can be reached from the source, and the
    /// recorded links lead from each of them back to the source along a shortest path.
    pub closed spec fn wf(&self) -> bool {
        &&& in_bounds(self.graph@)
        &&& self.marked@ == drain(self.graph@, ripple(self.graph@.len(), self.s)).marked
        &&& self.edge_to@ == drain(self.graph@, ripple(self.graph@.len(), self.s)).edge_to
        &&& parents_ok(self.graph@, self.marked@, self.edge_to@, self.s, self.dist@)
        &&& forall|v: int|
            0 <= v < self.graph@.len() ==> #[trigger] self.marked@[v] == reachable(
                self.graph@,
                self.s,
                v as usize,
            )
        &&& forall|v: int|
            0 <= v < self.graph@.len() && #[trigger] self.marked@[v] ==> no_shorter_walk(
                self.graph@,
                self.s,
                v as usize,
                self.dist@[v] + 1,
            )
    }

    /// Searches `g` from `s`.
    pub fn new(g: &Graph, s: usize) -> (d: BreadthFirstPaths)
        requires
            g.wf(),
            s < g@.len(),
        ensures
            d.wf(),
            d.graph() == g@,
            d.source() == s,
    {
        let lists = g.lists();
        let n = lists.len();
        let mut marked: Vec<bool> = Vec::with_capacity(n);
        let mut edge_to: Vec<usize> = Vec::with_capacity(n);
        let mut i: usize = 0;
        while i < n
            invariant
                i <= n,
                marked@.len() == i,
                edge_to@.len() == i,
                forall|k: int| 0 <= k < i ==> !(#[trigger] marked@[k]),
                forall|k: int| 0 <= k < i ==> (#[trigger] edge_to@[k]) == 0,
            decreases n - i,
        {
            marked.push(false);
            edge_to.push(0);
            i += 1;
        }
        let mut d = BreadthFirstPaths {
            marked,
            edge_to,
            s,
            graph: Ghost(g@),
            dist: Ghost(Seq::new(n as nat, |k: int| 0nat)),
        };
        d.bfs(lists);
        d
    }

    /// Marks everything that can be reached from the source, level by level.
    fn bfs(&mut self, lists: &Vec<Vec<usize>>)
        requires
            lists_view(lists) == old(self).graph@,
            in_bounds(old(self).graph@),
            old(self).s < lists@.len(),
            old(self).marked@.len() == lists@.len(),
            old(self).edge_to@.len() == lists@.len(),
            old(self).dist@.len() == lists@.len(),
            forall|k: int| 0 <= k < lists@.len() ==> !(#[trigger] old(self).marked@[k]),
            forall|k: int| 0 <= k < lists@.len() ==> (#[trigger] old(self).edge_to@[k]) == 0,
        ensures
            final(self).wf(),
            final(self).graph@ == old(self).graph@,
            final(self).s == old(self).s,
    {
        let ghost a = self.graph@;
        let n = lists.len();
        let s = self.s;
        let mut queue: VecDeque<usize> = VecDeque::new();
        let ghost mut done = self.marked@;
        queue.push_back(s);
        self.marked[s] = true;
        let ghost target = drain(a, ripple(n as nat, s));
        proof {
            self.dist@ = self.dist@.update(s as int, 0);
            lemma_reachable_self(a, s);
            assert(queue@[0] == s);
            assert(self.marked@ =~= ripple(n as nat, s).marked);
            assert(self.edge_to@ =~= ripple(n as nat, s).edge_to);
            assert(queue@ =~= ripple(n as nat, s).queue);
        }
        while queue.len() > 0
            invariant
                a == lists_view(lists),
                a == self.graph@,
                drain(a, Wave { marked: self.marked@, edge_to: self.edge_to@, queue: queue@ })
                    == target,
                in_bounds(a),
                n == a.len(),
                s == self.s,
                s < n,
                done.len() == n,
                parents_ok(a, self.marked@, self.edge_to@, s, self.dist@),
                forall|v: int| 0 <= v < n && #[trigger] self.marked@[v] ==> reachable(a, s,
                    v as usize),
                forall|v: int| 0 <= v < n && #[trigger] done[v] ==> self.marked@[v],
                relaxed(a, self.marked@, done, self.dist@),
                forall|k: int|
                    0 <= k < queue@.len() ==> (#[trigger] queue@[k]) < n
                        && self.marked@[queue@[k] as int]
                        && !done[queue@[k] as int],
                forall|v: int|
                    0 <= v < n && self.marked@[v] && !#[trigger] done[v] ==> queue@.contains(
                        v as usize,
                    ),
                queue@.no_duplicates(),
                forall|i: int, k: int|
                    0 <= i <= k < queue@.len() ==> self.dist@[#[trigger] queue@[i] as int]
                        <= self.dist@[#[trigger] queue@[k] as int],
                queue@.len() > 0 ==> forall|v: int|
                    0 <= v < n && #[trigger] self.marked@[v] ==> self.dist@[v]
                        <= self.dist@[queue@[0] as int]
                        + 1,
            decreases unmarked(done),
        {
            let ghost queue0 = queue@;
            let ghost wave0 = Wave { marked: self.marked@, edge_to: self.edge_to@, queue: queue@ };
            let u = queue.pop_front().unwrap();
            assert(u == queue0[0]);
            proof {
                assert(queue@ =~= queue0.skip(1));
                assert(drain(a, wave0) == drain(
                    a,
                    expand(a, Wave { queue: wave0.queue.skip(1), ..wave0 }, wave0.queue[0], 0),
                ));
            }
            let row = &lists[u];
            let mut j: usize = 0;
            proof {
                assert forall|v: int| 0 <= v < n && self.marked@[v] && !#[trigger] done[v] implies v
                    == u || queue@.contains(v as usize) by {
                    let k = choose|k: int| 0 <= k < queue0.len() && queue0[k] == v as usize;
                    if k > 0 {
                        assert(queue@[k - 1] == v as usize);
                    }
                }
                assert forall|k: int| 0 <= k < queue@.len() implies self.dist@[u as int]
                    <= self.dist@[#[trigger] queue@[k] as int] by {
                    assert(queue@[k] == queue0[k + 1]);
                }
                assert forall|i: int, k: int| 0 <= i <= k < queue@.len() implies
                    self.dist@[#[trigger] queue@[i] as int]
                    <= self.dist@[#[trigger] queue@[k] as int] by {
                    assert(queue@[i] == queue0[i + 1]);
                    assert(queue@[k] == queue0[k + 1]);
                }
                assert forall|k: int| 0 <= k < queue@.len() implies (#[trigger] queue@[k]) < n
                    && self.marked@[queue@[k] as int] && !done[queue@[k] as int] by {
                    assert(queue@[k] == queue0[k + 1]);
                }
                assert forall|i: int, k: int|
                    0 <= i < queue@.len() && 0 <= k < queue@.len() && i != k implies queue@[i]
                    != queue@[k] by {
                    assert(queue@[i] == queue0[i + 1]);
                    assert(queue@[k] == queue0[k + 1]);
                }
                assert forall|k: int| 0 <= k < queue@.len() implies queue@[k] != u by {
                    assert(queue@[k] == queue0[k + 1]);
                }
            }
            while j < row.len()
                invariant
                    a == lists_view(lists),
                    a == self.graph@,
                    drain(
                        a,
                        expand(
                            a,
                            Wave { marked: self.marked@, edge_to: self.edge_to@, queue: queue@ },
                            u,
                            j as int,
                        ),
                    ) == target,
                    self.marked@.len() == n,
                    in_bounds(a),
                    n == a.len(),
                    s == self.s,
                    s < n,
                    u < n,
                    row@ == a[u as int],
                    j <= row@.len(),
                    done.len() == n,
                    self.marked@[u as int],
                    !done[u as int],
                    parents_ok(a, self.marked@, self.edge_to@, s, self.dist@),
                    forall|v: int|
                        0 <= v < n && #[trigger] self.marked@[v] ==> reachable(a, s, v as usize),
                    forall|v: int| 0 <= v < n && #[trigger] done[v] ==> self.marked@[v],
                    relaxed(a, self.marked@, done, self.dist@),
                    forall|k: int|
                        0 <= k < queue@.len() ==> (#[trigger] queue@[k]) < n
                            && self.marked@[queue@[k] as int] && !done[queue@[k] as int],
                    forall|v: int|
                        0 <= v < n && self.marked@[v] && !#[trigger] done[v] ==> v == u
                            || queue@.contains(v as usize),
                    queue@.no_duplicates(),
                    !queue@.contains(u),
                    forall|i: int, k: int|
                        0 <= i <= k < queue@.len() ==> self.dist@[#[trigger] queue@[i] as int]
                            <= self.dist@[#[trigger] queue@[k] as int],
                    forall|k: int|
                        0 <= k < queue@.len() ==> self.dist@[u as int]
                            <= self.dist@[#[trigger] queue@[k] as int],
                    forall|v: int|
                        0 <= v < n && #[trigger] self.marked@[v] ==> self.dist@[v]
                            <= self.dist@[u as int] + 1,
                    forall|jj: int|
                        0 <= jj < j ==> self.marked@[#[trigger] a[u as int][jj] as int]
                            && self.dist@[a[u as int][jj] as int] <= self.dist@[u as int] + 1,
                decreases row@.len() - j,
            {
                let w = row[j];
                assert(w == a[u as int][j as int]);
                assert(has_edge(a, u, w));
                if !self.marked[w] {
                    let ghost queue1 = queue@;
                    proof {
                        lemma_reachable_step(a, s, u, w);
                        self.dist@ = self.dist@.update(w as int, self.dist@[u as int] + 1);
                    }
                    self.marked[w] = true;
                    self.edge_to[w] = u;
                    queue.push_back(w);
                    proof {
                        assert forall|v: int|
                            0 <= v < n && self.marked@[v] && !#[trigger] done[v] implies v == u
                            || queue@.contains(v as usize) by {
                            if v == w {
                                assert(queue@[queue1.len() as int] == w);
                            } else if v != u {
                                let k = choose|k: int| 0 <= k < queue1.len() && queue1[k]
                                    == v as usize;
                                assert(queue@[k] == v as usize);
                            }
                        }
                        assert forall|i: int, k: int|
                            0 <= i < queue@.len() && 0 <= k < queue@.len() && i != k implies
                                queue@[i]
                            != queue@[k] by {
                            if i < queue1.len() {
                                assert(queue@[i] == queue1[i]);
                            }
                            if k < queue1.len() {
                                assert(queue@[k] == queue1[k]);
                            }
                        }
                        assert forall|k: int| 0 <= k < queue@.len() implies queue@[k] != u by {
                            if k < queue1.len() {
                                assert(queue1[k] != u);
                            }
                        }
                    }
                }
                j += 1;
            }
            proof {
                assert(expand(
                    a,
                    Wave { marked: self.marked@, edge_to: self.edge_to@, queue: queue@ },
                    u,
                    j as int,
                ) == (Wave { marked: self.marked@, edge_to: self.edge_to@, queue: queue@ }));
                lemma_unmarked_set(done, u as int);
                done = done.update(u as int, true);
                assert forall|v: int|
                    0 <= v < n && self.marked@[v] && !#[trigger] done[v] implies queue@.contains(
                    v as usize,
                ) by {}
            }
        }
        proof {
            assert forall|v: int| 0 <= v < n && #[trigger] self.marked@[v] implies done[v] by {
                if !done[v] {
                    assert(queue@.contains(v as usize));
                }
            }
            assert(done =~= self.marked@);
            assert forall|v: int| 0 <= v < n implies #[trigger] self.marked@[v] == reachable(
                a,
                s,
                v as usize,
            ) by {
                if reachable(a, s, v as usize) {
                    let p = choose|p: Seq<usize>| #[trigger]
                        is_walk(a, p) && p[0] == s && p.last() == v as usize;
                    lemma_walk_levels(a, self.marked@, self.dist@, p, p.len() - 1);
                }
            }
            assert forall|v: int| 0 <= v < n && #[trigger] self.marked@[v] implies no_shorter_walk(
                a,
                s,
                v as usize,
                self.dist@[v] + 1,
            ) by {
                assert forall|p: Seq<usize>| #[trigger]
                    is_walk(a, p) && p[0] == s && p.last() == v as usize implies p.len()
                    >= self.dist@[v] + 1 by {
                    lemma_walk_levels(a, self.marked@, self.dist@, p, p.len() - 1);
                }
            }
        }
    }

    /// Whether some path leads from the source to `v`.
    pub fn has_path_to(&self, v: usize) -> (r: bool)
        requires
            self.wf(),
            v < self.graph().len(),
        ensures
            r == self.marks(v),
            r == reachable(self.graph(), self.source(), v),
    {
        self.marked[v]
    }

    /// The path that the breadth-first search took from the source to `v`, which is a
    /// shortest one, listed from `v` back to the source, each vertex followed by the one
    /// it was found from; empty when there is none.
    pub fn path_to(&self, v: usize) -> (path: Vec<usize>)
        requires
            self.wf(),
            v < self.graph().len(),
        ensures
            !reachable(self.graph(), self.source(), v) ==> path@.len() == 0,
            reachable(self.graph(), self.source(), v) ==> is_route_back(
                self.graph(),
                path@,
                self.source(),
                v,
            ) && no_shorter_walk(self.graph(), self.source(), v, path@.len()) && follows(
                drain(self.graph(), ripple(self.graph().len(), self.source())).edge_to,
                path@,
            ),
    {
        if !self.has_path_to(v) {
            return Vec::new();
        }
        assert(self.marked@[v as int]);
        trace_back(&self.edge_to, self.s, v, Ghost(self.graph@), Ghost(self.marked@),
            Ghost(self.dist@))
    }
}

} // verus!
