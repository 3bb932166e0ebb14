//! Directed cycle detection.

use vstd::prelude::*;
use crate::dfs::{chained, lemma_unmarked_le, lemma_unmarked_set, linked, stack_ok, unmarked};
use crate::digraph::Digraph;
use crate::paths::{
    has_directed_cycle, has_edge, in_bounds, is_cycle, is_walk, lemma_cycle_witness, lists_view,
    reachable,
};

verus! {

/// Every edge leads to a vertex with a smaller finishing time.
pub open spec fn descending(a: Seq<Seq<usize>>, fin: Seq<int>) -> bool {
    forall|u: int, j: int|
        0 <= u < a.len() && 0 <= j < a[u].len() ==> fin[#[trigger] a[u][j] as int] < fin[u]
}

/// Finishing times fall along every walk when they fall along every edge.
pub proof fn lemma_walk_descends(a: Seq<Seq<usize>>, fin: Seq<int>, p: Seq<usize>, i: int)
    requires
        in_bounds(a),
        fin.len() == a.len(),
        descending(a, fin),
        is_walk(a, p),
        0 <= i < p.len(),
    ensures
        p[i] < a.len(),
        fin[p[i] as int] <= fin[p[0] as int] - i,
    decreases i,
{
    if i > 0 {
        lemma_walk_descends(a, fin, p, i - 1);
        assert(has_edge(a, p[i - 1], p[i - 1 + 1]));
        let u = p[i - 1];
        let j = choose|j: int| 0 <= j < a[u as int].len() && a[u as int][j] == p[i];
        assert(fin[a[u as int][j] as int] < fin[u as int]);
    }
}

/// A graph whose edges all lead to smaller finishing times has no directed cycle.
pub proof fn lemma_descending_acyclic(a: Seq<Seq<usize>>, fin: Seq<int>)
    requires
        in_bounds(a),
        fin.len() == a.len(),
        descending(a, fin),
    ensures
        !has_directed_cycle(a),
{
    if has_directed_cycle(a) {
        let (v, w) = choose|v: usize, w: usize| #[trigger] has_edge(a, v, w) && reachable(a, w, v);
        let p = choose|p: Seq<usize>| #[trigger] is_walk(a, p) && p[0] == w && p.last() == v;
        lemma_walk_descends(a, fin, p, p.len() - 1);
        let j = choose|j: int| 0 <= j < a[v as int].len() && a[v as int][j] == w;
        assert(fin[a[v as int][j] as int] < fin[v as int]);
    }
}

/// What a search for a directed cycle has recorded: the marks and the cycle, if one was
/// found.
pub struct Hunt {
    pub marked: Seq<bool>,
    pub cycle: Seq<usize>,
}

/// The cycle that an edge from the last vertex of `path` to the vertex `w` on `path`
/// closes: the last vertex, then the part of `path` from `w` on.
pub open spec fn closing(path: Seq<usize>, w: usize) -> Seq<usize> {
    seq![path.last()] + path.skip(path.index_of(w))
}

/// The record after the unmarked vertex `v` is visited at the end of `path`: it is
/// marked, and its neighbours are examined.
pub open spec fn hunt_visit(a: Seq<Seq<usize>>, h: Hunt, path: Seq<usize>, v: usize) -> Hunt
    decreases unmarked(h.marked), 0int,
{
    if v < h.marked.len() && !h.marked[v as int] {
        proof {
            lemma_unmarked_set(h.marked, v as int);
        }
        hunt_scan(a, Hunt { marked: h.marked.update(v as int, true), ..h }, path.push(v), v, 0)
    } else {
        h
    }
}

/// The record after the neighbours of `v`, the last vertex of `path`, are examined from
/// position `j` on, for as long as no cycle is found: an unmarked neighbour is visited,
/// and a neighbour on `path` closes a cycle.
pub open spec fn hunt_scan(a: Seq<Seq<usize>>, h: Hunt, path: Seq<usize>, v: usize, j: int) -> Hunt
    decreases unmarked(h.marked), a[v as int].len() - j + 1,
{
    if v < a.len() && 0 <= j < a[v as int].len() && h.cycle.len() == 0 {
        let w = a[v as int][j];
        if w < h.marked.len() && !h.marked[w as int] {
            let h2 = hunt_visit(a, h, path, w);
            // visiting only adds marks, so this holds always; it is asked for to show
            // that the examination comes to an end
            if unmarked(h2.marked) <= unmarked(h.marked) {
                hunt_scan(a, h2, path, v, j + 1)
            } else {
                h2
            }
        } else if path.contains(w) {
            Hunt { cycle: closing(path, w), ..h }
        } else {
            hunt_scan(a, h, path, v, j + 1)
        }
    } else {
        h
    }
}

/// The record after the unmarked vertices below `upto` are visited in ascending order,
/// for as long as no cycle is found.
pub open spec fn hunt_sweep(a: Seq<Seq<usize>>, h: Hunt, upto: nat) -> Hunt
    decreases upto,
{
    if upto == 0 {
        h
    } else {
        let h1 = hunt_sweep(a, h, (upto - 1) as nat);
        if h1.cycle.len() == 0 {
            hunt_visit(a, h1, Seq::empty(), (upto - 1) as usize)
        } else {
            h1
        }
    }
}

/// The record of the search through a whole graph.
pub open spec fn hunt(a: Seq<Seq<usize>>) -> Hunt {
    hunt_sweep(a, Hunt { marked: Seq::new(a.len(), |v: int| false), cycle: Seq::empty() }, a.len())
}

/// The record after the work on the vertices of `stack` is finished, the topmost first.
pub open spec fn hunt_resume(a: Seq<Seq<usize>>, h: Hunt, next: Seq<usize>,
    stack: Seq<usize>) -> Hunt
    decreases stack.len(),
{
    if stack.len() == 0 {
        h
    } else {
        let v = stack.last();
        hunt_resume(a, hunt_scan(a, h, stack, v, next[v as int] as int), next, stack.drop_last())
    }
}

/// Visiting keeps every mark and the number of vertices.
pub proof fn lemma_hunt_visit_grows(a: Seq<Seq<usize>>, h: Hunt, path: Seq<usize>, v: usize)
    ensures
        hunt_visit(a, h, path, v).marked.len() == h.marked.len(),
        forall|i: int| 0 <= i < h.marked.len() && h.marked[i] ==> hunt_visit(a, h, path,
            v).marked[i],
        unmarked(hunt_visit(a, h, path, v).marked) <= unmarked(h.marked),
    decreases unmarked(h.marked), 0int,
{
    let r = hunt_visit(a, h, path, v);
    if v < h.marked.len() && !h.marked[v as int] {
        lemma_unmarked_set(h.marked, v as int);
        let h1 = Hunt { marked: h.marked.update(v as int, true), ..h };
        lemma_hunt_scan_grows(a, h1, path.push(v), v, 0);
        assert forall|i: int| 0 <= i < h.marked.len() && h.marked[i] implies r.marked[i] by {
            assert(h1.marked[i]);
        }
    }
    lemma_unmarked_le(h.marked, r.marked);
}

/// Examining neighbours keeps every mark and the number of vertices.
pub proof fn lemma_hunt_scan_grows(a: Seq<Seq<usize>>, h: Hunt, path: Seq<usize>, v: usize, j: int)
    ensures
        hunt_scan(a, h, path, v, j).marked.len() == h.marked.len(),
        forall|i: int| 0 <= i < h.marked.len() && h.marked[i] ==> hunt_scan(a, h, path, v,
            j).marked[i],
        unmarked(hunt_scan(a, h, path, v, j).marked) <= unmarked(h.marked),
    decreases unmarked(h.marked), a[v as int].len() - j + 1,
{
    let r = hunt_scan(a, h, path, v, j);
    if v < a.len() && 0 <= j < a[v as int].len() && h.cycle.len() == 0 {
        let w = a[v as int][j];
        if w < h.marked.len() && !h.marked[w as int] {
            let h2 = hunt_visit(a, h, path, w);
            lemma_hunt_visit_grows(a, h, path, w);
            lemma_hunt_scan_grows(a, h2, path, v, j + 1);
            assert(r == hunt_scan(a, h2, path, v, j + 1));
            assert forall|i: int| 0 <= i < h.marked.len() && h.marked[i] implies r.marked[i] by {
                assert(h2.marked[i]);
            }
        } else if path.contains(w) {
        } else {
            lemma_hunt_scan_grows(a, h, path, v, j + 1);
        }
    }
    lemma_unmarked_le(h.marked, r.marked);
}

/// Once a cycle is found, nothing remains to be done.
pub proof fn lemma_hunt_resume_found(a: Seq<Seq<usize>>, h: Hunt, next: Seq<usize>,
    stack: Seq<usize>)
    requires
        h.cycle.len() > 0,
    ensures
        hunt_resume(a, h, next, stack) == h,
    decreases stack.len(),
{
    if stack.len() > 0 {
        lemma_hunt_resume_found(a, h, next, stack.drop_last());
    }
}

/// Once a cycle is found, the rest of the sweep changes nothing.
pub proof fn lemma_hunt_sweep_found(a: Seq<Seq<usize>>, h: Hunt, from: nat, upto: nat)
    requires
        from <= upto,
        hunt_sweep(a, h, from).cycle.len() > 0,
    ensures
        hunt_sweep(a, h, upto) == hunt_sweep(a, h, from),
    decreases upto,
{
    if from < upto {
        lemma_hunt_sweep_found(a, h, from, (upto - 1) as nat);
    }
}

/// The position recorded for a vertex that is not on the stack does not matter.
pub proof fn lemma_hunt_resume_next(
    a: Seq<Seq<usize>>,
    h: Hunt,
    next: Seq<usize>,
    stack: Seq<usize>,
    v: usize,
    j: usize,
)
    requires
        v < next.len(),
        forall|k: int| 0 <= k < stack.len() ==> (#[trigger] stack[k]) < next.len() && stack[k] != v,
    ensures
        hunt_resume(a, h, next.update(v as int, j), stack) == hunt_resume(a, h, next, stack),
    decreases stack.len(),
{
    if stack.len() > 0 {
        let u = stack.last();
        assert(stack[stack.len() - 1] != v);
        assert forall|k: int| 0 <= k < stack.drop_last().len() implies
            (#[trigger] stack.drop_last()[k])
            < next.len() && stack.drop_last()[k] != v by {
            assert(stack.drop_last()[k] == stack[k]);
        }
        lemma_hunt_resume_next(
            a,
            hunt_scan(a, h, stack, u, next[u as int] as int),
            next,
            stack.drop_last(),
            v,
            j,
        );
        assert(next.update(v as int, j)[u as int] == next[u as int]);
    }
}

/// One step of the search does not change what remains to be done: the neighbour at
/// the recorded position of the topmost vertex is passed over, gone down to, or found on
/// the stack.
pub proof fn lemma_hunt_step(
    a: Seq<Seq<usize>>,
    h: Hunt,
    next: Seq<usize>,
    stack: Seq<usize>,
)
    requires
        stack.len() > 0,
        stack.last() < a.len(),
        next.len() == a.len(),
        h.marked.len() == a.len(),
        h.marked[stack.last() as int],
        h.cycle.len() == 0,
        next[stack.last() as int] < a[stack.last() as int].len(),
        next[stack.last() as int] < usize::MAX,
        a[stack.last() as int][next[stack.last() as int] as int] < a.len(),
        forall|k: int|
            0 <= k < stack.len() - 1 ==> (#[trigger] stack[k]) < a.len() && stack[k]
                != stack.last(),
        next[a[stack.last() as int][next[stack.last() as int] as int] as int] == 0
            || h.marked[a[stack.last() as int][next[stack.last() as int] as int] as int],
    ensures
        ({
            let v = stack.last();
            let j = next[v as int];
            let w = a[v as int][j as int];
            let next2 = next.update(v as int, (j + 1) as usize);
            let before = hunt_resume(a, h, next, stack);
            if !h.marked[w as int] {
                hunt_resume(
                    a,
                    Hunt { marked: h.marked.update(w as int, true), ..h },
                    next2,
                    stack.push(w),
                ) == before
            } else if stack.contains(w) {
                before == (Hunt { cycle: closing(stack, w), ..h })
            } else {
                hunt_resume(a, h, next2, stack) == before
            }
        }),
{
    let v = stack.last();
    let j = next[v as int];
    let w = a[v as int][j as int];
    let next2 = next.update(v as int, (j + 1) as usize);
    let low = stack.drop_last();
    assert forall|k: int| 0 <= k < low.len() implies (#[trigger] low[k]) < next.len() && low[k] != v
        by {
        assert(low[k] == stack[k]);
    }
    assert(hunt_resume(a, h, next, stack) == hunt_resume(
        a,
        hunt_scan(a, h, stack, v, j as int),
        next,
        low,
    ));
    if !h.marked[w as int] {
        let start = Hunt { marked: h.marked.update(w as int, true), ..h };
        let below = hunt_visit(a, h, stack, w);
        lemma_hunt_visit_grows(a, h, stack, w);
        assert(stack.push(w).drop_last() =~= stack);
        assert(stack.push(w).last() == w);
        assert(w != v);
        assert(next2[w as int] == 0);
        assert(below == hunt_scan(a, start, stack.push(w), w, 0));
        assert(hunt_scan(a, h, stack, v, j as int) == hunt_scan(a, below, stack, v, j + 1));
        lemma_hunt_resume_next(a, hunt_scan(a, below, stack, v, j + 1), next, low, v,
            (j + 1) as usize);
        assert(hunt_resume(a, start, next2, stack.push(w)) == hunt_resume(
            a,
            hunt_scan(a, start, stack.push(w), w, next2[w as int] as int),
            next2,
            stack.push(w).drop_last(),
        ));
        assert(hunt_resume(a, below, next2, stack) == hunt_resume(
            a,
            hunt_scan(a, below, stack, v, next2[v as int] as int),
            next2,
            low,
        ));
    } else if stack.contains(w) {
        let found = Hunt { cycle: closing(stack, w), ..h };
        assert(hunt_scan(a, h, stack, v, j as int) == found);
        assert(found.cycle.len() > 0);
        lemma_hunt_resume_found(a, found, next, low);
    } else {
        assert(hunt_scan(a, h, stack, v, j as int) == hunt_scan(a, h, stack, v, j + 1));
        lemma_hunt_resume_next(a, hunt_scan(a, h, stack, v, j + 1), next, low, v, (j + 1) as usize);
        assert(hunt_resume(a, h, next2, stack) == hunt_resume(
            a,
            hunt_scan(a, h, stack, v, next2[v as int] as int),
            next2,
            low,
        ));
    }
}

/// The outcome of a search for a directed cycle.
pub struct DirectedCycle {
    marked: Vec<bool>,
    edge_to: Vec<usize>,
    cycle: Vec<usize>,
    on_stack: Vec<bool>,
    next: Vec<usize>,
    stack: Vec<usize>,
    graph: Ghost<Seq<Seq<usize>>>,
    done: Ghost<Seq<bool>>,
    pos: Ghost<Seq<int>>,
    fin: Ghost<Seq<int>>,
    clock: Ghost<int>,
}

impl DirectedCycle {
    /// The adjacency structure that was searched.
    pub closed spec fn graph(&self) -> Seq<Seq<usize>> {
        self.graph@
    }

    /// The cycle that was found, from a vertex along the edges back to that vertex;
    /// empty when none was found.
    pub closed spec fn cycle_view(&self) -> Seq<usize> {
        self.cycle@.reverse()
    }

    /// What is recorded is what the search through the whole graph finds: a cycle of
    /// the graph if the graph has one, and nothing if it has none.
    pub closed spec fn wf(&self) -> bool {
        &&& self.cycle@.reverse() == hunt(self.graph@).cycle
        &&& self.cycle@.len() > 0 ==> is_cycle(self.graph@, self.cycle@.reverse())
        &&& self.cycle@.len() == 0 ==> !has_directed_cycle(self.graph@)
    }

    /// What has been recorded so far.
    spec fn hunt_view(&self) -> Hunt {
        Hunt { marked: self.marked@, cycle: self.cycle@.reverse() }
    }

    /// The state of a search that has not met a cycle.
    spec fn searching(&self) -> bool {
        let a = self.graph@;
        let n = a.len();
        &&& in_bounds(a)
        &&& self.marked@.len() == n
        &&& self.edge_to@.len() == n
        &&& self.on_stack@.len() == n
        &&& self.next@.len() == n
        &&& self.done@.len() == n
        &&& self.pos@.len() == n
        &&& self.fin@.len() == n
        &&& self.cycle@.len() == 0
        &&& forall|v: int| 0 <= v < n ==> (#[trigger] self.next@[v]) <= a[v].len()
        &&& forall|v: int| 0 <= v < n && !self.marked@[v] ==> (#[trigger] self.next@[v]) == 0
        &&& forall|v: int|
            0 <= v < n ==> #[trigger] self.done@[v] == (self.marked@[v] && !self.on_stack@[v])
        &&& forall|v: int| 0 <= v < n && #[trigger] self.on_stack@[v] ==> self.marked@[v]
        &&& stack_ok(a, self.marked@, self.done@, self.stack@, self.pos@)
        &&& forall|k: int| 0 < k < self.stack@.len() ==> #[trigger] linked(self.edge_to@,
            self.stack@, k)
        &&& forall|u: int, j: int|
            0 <= u < n && 0 <= j < self.next@[u] ==> self.done@[#[trigger] a[u][j] as int] || (
            self.on_stack@[u] && self.pos@[u] + 1 < self.stack@.len()
                && self.stack@[self.pos@[u] + 1]
                == a[u][j])
        &&& forall|u: int, j: int|
            0 <= u < n && self.done@[u] && 0 <= j < a[u].len()
                ==> self.done@[#[trigger] a[u][j] as int]
                && self.fin@[a[u][j] as int] < self.fin@[u]
        &&& forall|u: int| 0 <= u < n && #[trigger] self.done@[u] ==> self.fin@[u] < self.clock@
    }

    /// Searches `g` for a directed cycle.
    pub fn new(g: &Digraph) -> (d: DirectedCycle)
        requires
            g.wf(),
        ensures
            d.wf(),
            d.graph() == g@,
    {
        let lists = g.lists();
        let n = lists.len();
        let ghost a = g@;
        let mut marked: Vec<bool> = Vec::with_capacity(n);
        let mut on_stack: Vec<bool> = Vec::with_capacity(n);
        let mut edge_to: Vec<usize> = Vec::with_capacity(n);
        let mut next: Vec<usize> = Vec::with_capacity(n);
        let mut i: usize = 0;
        while i < n
            invariant
                i <= n,
                marked@.len() == i,
                on_stack@.len() == i,
                edge_to@.len() == i,
                next@.len() == i,
                forall|k: int| 0 <= k < i ==> !(#[trigger] marked@[k]),
                forall|k: int| 0 <= k < i ==> !(#[trigger] on_stack@[k]),
                forall|k: int| 0 <= k < i ==> (#[trigger] next@[k]) == 0,
            decreases n - i,
        {
            marked.push(false);
            on_stack.push(false);
            edge_to.push(0);
            next.push(0);
            i += 1;
        }
        let mut d = DirectedCycle {
            marked,
            edge_to,
            cycle: Vec::new(),
            on_stack,
            next,
            stack: Vec::new(),
            graph: Ghost(a),
            done: Ghost(Seq::new(n as nat, |k: int| false)),
            pos: Ghost(Seq::new(n as nat, |k: int| 0int)),
            fin: Ghost(Seq::new(n as nat, |k: int| 0int)),
            clock: Ghost(0int),
        };
        let ghost h0 = Hunt { marked: Seq::new(a.len(), |v: int| false),
            cycle: Seq::<usize>::empty() };
        proof {
            assert(d.marked@ =~= h0.marked);
            assert(d.cycle@.reverse() =~= h0.cycle);
        }
        let mut v: usize = 0;
        while v < n && d.cycle.len() == 0
            invariant
                a == lists_view(lists),
                a == d.graph@,
                n == a.len(),
                v <= n,
                d.hunt_view() == hunt_sweep(a, h0, v as nat),
                d.cycle@.len() == 0 ==> d.searching() && d.stack@.len() == 0,
                d.cycle@.len() == 0 ==> forall|u: int| 0 <= u < v ==> #[trigger] d.marked@[u],
                d.cycle@.len() > 0 ==> is_cycle(a, d.cycle@.reverse()),
            decreases n - v,
        {
            proof {
                assert(d.cycle@.reverse().len() == 0);
            }
            if !d.marked[v] {
                d.dfs(lists, v);
            }
            v += 1;
        }
        proof {
            assert(d.cycle@.reverse().len() == d.cycle@.len());
            if d.cycle@.len() > 0 {
                lemma_hunt_sweep_found(a, h0, v as nat, n as nat);
            }
            assert(hunt(a) == hunt_sweep(a, h0, n as nat));
            if d.cycle@.len() == 0 {
                assert forall|u: int, j: int| 0 <= u < n && 0 <= j < a[u].len() implies
                    d.fin@[#[trigger] a[u][j] as int]
                    < d.fin@[u] by {
                    assert(d.marked@[u]);
                    assert(d.done@[u] || (0 <= d.pos@[u] < d.stack@.len()));
                }
                lemma_descending_acyclic(a, d.fin@);
            }
        }
        d
    }

    /// Explores from the unmarked vertex `r` until its tree is complete or an edge leads
    /// back to a vertex that is still being explored.
    fn dfs(&mut self, lists: &Vec<Vec<usize>>, r: usize)
        requires
            old(self).searching(),
            old(self).stack@.len() == 0,
            lists_view(lists) == old(self).graph@,
            r < lists@.len(),
            !old(self).marked@[r as int],
        ensures
            final(self).graph@ == old(self).graph@,
            final(self).hunt_view() == hunt_visit(
                old(self).graph@,
                old(self).hunt_view(),
                Seq::empty(),
                r,
            ),
            final(self).cycle@.len() == 0 ==> final(self).searching() && final(self).stack@.len()
                == 0,
            final(self).cycle@.len() == 0 ==> forall|u: int|
                0 <= u < lists@.len() && (old(self).marked@[u] || u == r)
                    ==> #[trigger] final(self).marked@[u],
            final(self).cycle@.len() > 0 ==> is_cycle(final(self).graph@,
                final(self).cycle@.reverse()),
    {
        let ghost a = self.graph@;
        let ghost before = *self;
        let n = lists.len();
        let ghost target = hunt_visit(a, self.hunt_view(), Seq::empty(), r);
        proof {
            lemma_unmarked_set(self.marked@, r as int);
            self.pos@ = self.pos@.update(r as int, 0);
            assert(!self.done@[r as int]);
            assert(self.next@[r as int] == 0);
        }
        self.marked[r] = true;
        self.on_stack[r] = true;
        self.stack.push(r);
        proof {
            assert(self.stack@ =~= Seq::<usize>::empty().push(r));
            assert(self.stack@.drop_last() =~= Seq::<usize>::empty());
            assert(self.hunt_view() == (Hunt {
                marked: before.marked@.update(r as int, true),
                ..before.hunt_view()
            }));
            reveal_with_fuel(hunt_resume, 2);
            assert(hunt_resume(a, self.hunt_view(), self.next@, self.stack@) == hunt_scan(
                a,
                self.hunt_view(),
                self.stack@,
                r,
                0,
            ));
        }
        while self.stack.len() > 0 && self.cycle.len() == 0
            invariant
                a == lists_view(lists),
                a == self.graph@,
                n == a.len(),
                hunt_resume(a, self.hunt_view(), self.next@, self.stack@) == target,
                self.cycle@.len() == 0 ==> self.searching(),
                self.cycle@.len() == 0 ==> forall|u: int|
                    0 <= u < n && (before.marked@[u] || u == r) ==> #[trigger] self.marked@[u],
                self.cycle@.len() > 0 ==> is_cycle(a, self.cycle@.reverse()),
                self.marked@.len() == n,
                self.next@.len() == n,
                self.cycle@.len() > 0 ==> self.stack@.len() > 0 && self.stack@.last() < n
                    && self.next@[self.stack@.last() as int] <= a[self.stack@.last() as int].len(),
            decreases
                    unmarked(self.marked@),
                    self.stack@.len(),
                    (if self.stack@.len() > 0 {
                        a[self.stack@.last() as int].len() - self.next@[self.stack@.last() as int]
                    } else {
                        0
                    }),
        {
            let top = self.stack.len() - 1;
            let v = self.stack[top];
            let j = self.next[v];
            proof {
                assert(!self.done@[v as int]);
                assert(self.on_stack@[v as int]);
            }
            if j < lists[v].len() {
                let w = lists[v][j];
                assert(w == a[v as int][j as int]);
                assert(has_edge(a, v, w));
                let ghost view0 = self.hunt_view();
                let ghost next0 = self.next@;
                proof {
                    assert(self.cycle@.reverse().len() == 0);
                    assert forall|k: int| 0 <= k < self.stack@.len() - 1 implies
                        (#[trigger] self.stack@[k])
                        < a.len() && self.stack@[k] != self.stack@.last() by {
                        assert(self.pos@[self.stack@[k] as int] == k);
                    }
                    lemma_hunt_step(a, view0, next0, self.stack@);
                    if self.marked@[w as int] && !self.on_stack@[w as int] {
                        if self.stack@.contains(w) {
                            let k = choose|k: int| 0 <= k < self.stack@.len() && self.stack@[k]
                                == w;
                            assert(!self.done@[self.stack@[k] as int]);
                        }
                    }
                    if self.marked@[w as int] && self.on_stack@[w as int] {
                        assert(!self.done@[w as int]);
                        assert(self.stack@[self.pos@[w as int]] == w);
                    }
                }
                self.next[v] = j + 1;
                if !self.marked[w] {
                    let ghost stack0 = self.stack@;
                    let ghost edge0 = self.edge_to@;
                    proof {
                        assert(!self.done@[w as int]);
                        lemma_unmarked_set(self.marked@, w as int);
                        self.pos@ = self.pos@.update(w as int, self.stack@.len() as int);
                    }
                    self.marked[w] = true;
                    self.on_stack[w] = true;
                    self.edge_to[w] = v;
                    self.stack.push(w);
                    proof {
                        assert forall|k: int| 0 < k < self.stack@.len() implies #[trigger] chained(
                            a,
                            self.stack@,
                            k,
                        ) by {
                            if k < stack0.len() {
                                assert(chained(a, stack0, k));
                            }
                        }
                        assert forall|k: int| 0 < k < self.stack@.len() implies #[trigger] linked(
                            self.edge_to@,
                            self.stack@,
                            k,
                        ) by {
                            if k < stack0.len() {
                                assert(linked(edge0, stack0, k));
                                assert(stack0[k] != w);
                            }
                        }
                        assert(self.hunt_view() == (Hunt {
                            marked: view0.marked.update(w as int, true),
                            ..view0
                        }));
                    }
                } else if self.on_stack[w] {
                    self.record(v, w);
                    proof {
                        assert(self.hunt_view() == (Hunt { cycle: closing(self.stack@, w),
                            ..view0 }));
                        lemma_hunt_resume_found(a, self.hunt_view(), self.next@, self.stack@);
                    }
                }
            } else {
                let ghost stack0 = self.stack@;
                proof {
                    assert(hunt_scan(a, self.hunt_view(), stack0, v, j as int) == self.hunt_view());
                    assert(hunt_resume(a, self.hunt_view(), self.next@, stack0) == hunt_resume(
                        a,
                        hunt_scan(a, self.hunt_view(), stack0, v, self.next@[v as int] as int),
                        self.next@,
                        stack0.drop_last(),
                    ));
                    assert forall|jj: int| 0 <= jj < a[v as int].len() implies
                        self.done@[#[trigger] a[v as int][jj] as int]
                        && self.fin@[a[v as int][jj] as int] < self.clock@ by {}
                    self.fin@ = self.fin@.update(v as int, self.clock@);
                    self.clock@ = self.clock@ + 1;
                    self.done@ = self.done@.update(v as int, true);
                }
                self.on_stack[v] = false;
                self.stack.pop();
                proof {
                    assert(self.stack@ =~= stack0.drop_last());
                    assert forall|k: int| 0 < k < self.stack@.len() implies #[trigger] chained(
                        a,
                        self.stack@,
                        k,
                    ) by {
                        assert(chained(a, stack0, k));
                    }
                    assert forall|k: int| 0 < k < self.stack@.len() implies #[trigger] linked(
                        self.edge_to@,
                        self.stack@,
                        k,
                    ) by {
                        assert(linked(self.edge_to@, stack0, k));
                    }
                }
            }
        }
        proof {
            assert(self.cycle@.reverse().len() == self.cycle@.len());
            if self.cycle@.len() > 0 {
                lemma_hunt_resume_found(a, self.hunt_view(), self.next@, self.stack@);
            }
        }
    }

    /// Records the cycle closed by the edge from the top of the stack `v` to the stack
    /// entry `w`: the vertices from `v` down the stack to `w`, then `v` again.
    fn record(&mut self, v: usize, w: usize)
        requires
            old(self).marked@.len() == old(self).graph@.len(),
            old(self).edge_to@.len() == old(self).graph@.len(),
            old(self).pos@.len() == old(self).graph@.len(),
            old(self).cycle@.len() == 0,
            stack_ok(
                old(self).graph@,
                old(self).marked@,
                old(self).done@,
                old(self).stack@,
                old(self).pos@,
            ),
            forall|k: int|
                0 < k < old(self).stack@.len() ==> #[trigger] linked(
                    old(self).edge_to@,
                    old(self).stack@,
                    k,
                ),
            old(self).stack@.len() > 0,
            v == old(self).stack@.last(),
            w < old(self).graph@.len(),
            old(self).marked@[w as int],
            !old(self).done@[w as int],
            has_edge(old(self).graph@, v, w),
        ensures
            is_cycle(final(self).graph@, final(self).cycle@.reverse()),
            final(self).cycle@.reverse() == closing(old(self).stack@, w),
            final(self).cycle@.len() > 0,
            final(self).graph@ == old(self).graph@,
            final(self).marked@ == old(self).marked@,
            final(self).next@ == old(self).next@,
            final(self).stack@ == old(self).stack@,
    {
        let ghost a = self.graph@;
        let ghost stack = self.stack@;
        let ghost top = stack.len() - 1;
        let ghost low = self.pos@[w as int];
        let ghost mut i: int = top;
        let mut x = v;
        while x != w
            invariant
                a == self.graph@,
                stack == self.stack@,
                self.marked@ == old(self).marked@,
                self.next@ == old(self).next@,
                self.edge_to@ == old(self).edge_to@,
                self.edge_to@.len() == a.len(),
                self.pos@ == old(self).pos@,
                self.done@ == old(self).done@,
                stack_ok(a, self.marked@, self.done@, stack, self.pos@),
                forall|k: int| 0 < k < stack.len() ==> #[trigger] linked(self.edge_to@, stack, k),
                top == stack.len() - 1,
                0 <= low <= i <= top,
                stack[low] == w,
                x == stack[i],
                self.cycle@.len() == top - i,
                forall|k: int| 0 <= k < top - i ==> #[trigger] self.cycle@[k] == stack[top - k],
            decreases i,
        {
            proof {
                assert(i > low);
                assert(linked(self.edge_to@, stack, i));
                assert(stack[i] < a.len());
            }
            self.cycle.push(x);
            x = self.edge_to[x];
            proof {
                i = i - 1;
            }
        }
        self.cycle.push(w);
        self.cycle.push(v);
        proof {
            let c = self.cycle@;
            let rev = c.reverse();
            assert(i == low) by {
                assert(self.pos@[stack[i] as int] == i);
            }
            assert(c.len() == top - low + 2);
            assert forall|m: int| 1 <= m < rev.len() implies #[trigger] rev[m] == stack[low + m - 1]
                by {
                let k = c.len() - 1 - m;
                assert(rev[m] == c[k]);
                if k < top - low {
                    assert(c[k] == stack[top - k]);
                }
            }
            assert(rev[0] == v);
            assert forall|m: int| 0 <= m < rev.len() - 1 implies has_edge(a, #[trigger] rev[m],
                rev[m + 1]) by {
                assert(rev[m + 1] == stack[low + m]);
                if m > 0 {
                    assert(rev[m] == stack[low + m - 1]);
                    assert(chained(a, stack, low + m));
                }
            }
            assert(rev.last() == stack[top]);
            let body = rev.drop_last();
            assert forall|p: int, q: int|
                0 <= p < body.len() && 0 <= q < body.len() && p != q implies body[p] != body[q] by {
                let ip = if p == 0 {
                    top
                } else {
                    low + p - 1
                };
                let iq = if q == 0 {
                    top
                } else {
                    low + q - 1
                };
                assert(body[p] == rev[p] && body[q] == rev[q]);
                assert(body[p] == stack[ip]);
                assert(body[q] == stack[iq]);
                assert(self.pos@[stack[ip] as int] == ip);
                assert(self.pos@[stack[iq] as int] == iq);
            }
            assert(stack[0] < a.len());
            assert(stack.index_of(w) == low) by {
                let at = stack.index_of(w);
                assert(stack.contains(w));
                assert(stack[at] == w);
                assert(self.pos@[stack[at] as int] == at);
            }
            assert(rev =~= closing(stack, w));
        }
    }

    /// Whether the graph has a directed cycle.
    pub fn has_cycle(&self) -> (r: bool)
        requires
            self.wf(),
        ensures
            r == has_directed_cycle(self.graph()),
            r == (self.cycle_view().len() > 0),
    {
        proof {
            if self.cycle@.len() > 0 {
                lemma_cycle_witness(self.graph@, self.cycle@.reverse());
            }
        }
        self.cycle.len() > 0
    }

    /// The vertices of a directed cycle in the order of its edges, the first vertex
    /// repeated at the end; empty when the graph has no directed cycle.
    pub fn cycle(&self) -> (r: Vec<usize>)
        requires
            self.wf(),
        ensures
            r@ == self.cycle_view(),
            r@ == hunt(self.graph()).cycle,
            has_directed_cycle(self.graph()) ==> is_cycle(self.graph(), r@),
            !has_directed_cycle(self.graph()) ==> r@.len() == 0,
    {
        proof {
            if self.cycle@.len() > 0 {
                lemma_cycle_witness(self.graph@, self.cycle@.reverse());
            }
        }
        let mut r: Vec<usize> = Vec::with_capacity(self.cycle.len());
        let mut k: usize = self.cycle.len();
        while k > 0
            invariant
                k <= self.cycle@.len(),
                r@.len() == self.cycle@.len() - k,
                forall|m: int| 0 <= m < r@.len() ==> #[trigger] r@[m]
                    == self.cycle@[self.cycle@.len() - 1 - m],
            decreases k,
        {
            k -= 1;
            r.push(self.cycle[k]);
        }
        assert(r@ =~= self.cycle@.reverse());
        r
    }
}

} // verus!
