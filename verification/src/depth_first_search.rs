//! Paths from one source, found by depth-first search.

use vstd::prelude::*;
use crate::dfs::{blank, visit, Forest};
use crate::graph::Graph;
use crate::paths::{has_edge, in_bounds, lemma_reachable_self, reachable};
use crate::tree::{follows, is_route_back, parents_ok, trace_back};

verus! {

/// What a depth-first search from one source found in an undirected graph.
pub struct DepthFirstSearch {
    marked: Vec<bool>,
    edge_to: Vec<usize>,
    s: usize,
    graph: Ghost<Seq<Seq<usize>>>,
    depth: Ghost<Seq<nat>>,
}

impl DepthFirstSearch {
    /// The adjacency structure that was searched.
    pub closed spec fn graph(&self) -> Seq<Seq<usize>> {
        self.graph@
    }

    /// The vertex the search started from.
    pub closed spec fn source(&self) -> usize {
        self.s
    }

    /// Whether the search marked `v`.
    pub closed spec fn marks(&self, v: usize) -> bool {
        self.marked@[v as int]
    }

    /// The search marks a vertex exactly when it can be reached from the source.
    pub proof fn lemma_marks(&self, v: usize)
        requires
            self.wf(),
            v < self.graph().len(),
        ensures
            self.marks(v) == reachable(self.graph(), self.source(), v),
    {
    }

    /// The marks are exactly the vertices that can be reached from the source, and the
    /// recorded links lead from each of them back to the source.
    pub closed spec fn wf(&self) -> bool {
        &&& in_bounds(self.graph@)
        &&& self.marked@ == visit(self.graph@, blank(self.graph@.len()), self.s).marked
        &&& self.edge_to@ == visit(self.graph@, blank(self.graph@.len()), self.s).edge_to
        &&& parents_ok(self.graph@, self.marked@, self.edge_to@, self.s, self.depth@)
        &&& forall|v: int|
            0 <= v < self.graph@.len() ==> #[trigger] self.marked@[v] == reachable(
                self.graph@,
                self.s,
                v as usize,
            )
    }

    /// Searches `g` from `s`.
    pub fn new(g: &Graph, s: usize) -> (d: DepthFirstSearch)
        requires
            g.wf(),
            s < g@.len(),
        ensures
            d.wf(),
            d.graph() == g@,
            d.source() == s,
    {
        let lists = g.lists();
        let mut forest = Forest::new(lists.len());
        proof {
            forest.lemma_fresh_settled(g@);
        }
        forest.explore(lists, s);
        let ghost root = forest.root@;
        proof {
            lemma_reachable_self(g@, s);
            assert(forest.marked@[s as int]);
            assert(root[s as int] == s);
        }
        let Forest { marked, edge_to, depth, .. } = forest;
        let d = DepthFirstSearch { marked, edge_to, s, graph: Ghost(g@), depth };
        proof {
            assert forall|v: int| 0 <= v < g@.len() && d.marked@[v] && v != s implies {
                &&& (#[trigger] d.edge_to@[v]) < g@.len()
                &&& d.marked@[d.edge_to@[v] as int]
                &&& has_edge(g@, d.edge_to@[v], v as usize)
                &&& d.depth@[v] == d.depth@[d.edge_to@[v] as int] + 1
            } by {
                assert(root[v] == s);
            }
        }
        d
    }

    /// Whether some path leads from the source to `v`.
    pub fn has_path_to(&self, v: usize) -> (r: bool)
        requires
            self.wf(),
            v < self.graph().len(),
        ensures
            r == self.marks(v),
            r == reachable(self.graph(), self.source(), v),
    {
        self.marked[v]
    }

    /// The path that the depth-first visit of the source took to `v`, listed from `v`
    /// back to the source, each vertex followed by the one it was found from; empty when
    /// there is none.
    pub fn path_to(&self, v: usize) -> (path: Vec<usize>)
        requires
            self.wf(),
            v < self.graph().len(),
        ensures
            !reachable(self.graph(), self.source(), v) ==> path@.len() == 0,
            reachable(self.graph(), self.source(), v) ==> is_route_back(
                self.graph(),
                path@,
                self.source(),
                v,
            ) && follows(
                visit(self.graph(), blank(self.graph().len()), self.source()).edge_to,
                path@,
            ),
    {
        if !self.has_path_to(v) {
            return Vec::new();
        }
        trace_back(&self.edge_to, self.s, v, Ghost(self.graph@), Ghost(self.marked@),
            Ghost(self.depth@))
    }
}

} // verus!
