//! Reachability from one source in a digraph.

use vstd::prelude::*;
use crate::dfs::Forest;
use crate::digraph::Digraph;
use crate::paths::reachable;

verus! {

/// The set of vertices that can be reached from one source in a digraph.
pub struct DirectedDFS {
    marked: Vec<bool>,
    graph: Ghost<Seq<Seq<usize>>>,
    s: Ghost<usize>,
}

impl DirectedDFS {
    /// The adjacency structure that was searched.
    pub closed spec fn graph(&self) -> Seq<Seq<usize>> {
        self.graph@
    }

    /// The vertex the search started from.
    pub closed spec fn source(&self) -> usize {
        self.s@
    }

    /// The marks are exactly the vertices that can be reached from the source.
    pub closed spec fn wf(&self) -> bool {
        &&& self.marked@.len() == self.graph@.len()
        &&& forall|v: int|
            0 <= v < self.graph@.len() ==> #[trigger] self.marked@[v] == reachable(
                self.graph@,
                self.s@,
                v as usize,
            )
    }

    /// Searches `g` from `s`.
    pub fn new(g: &Digraph, s: usize) -> (d: DirectedDFS)
        requires
            g.wf(),
            s < g@.len(),
        ensures
            d.wf(),
            d.graph() == g@,
            d.source() == s,
    {
        let lists = g.lists();
        let mut forest = Forest::new(lists.len());
        proof {
            forest.lemma_fresh_settled(g@);
        }
        forest.explore(lists, s);
        let Forest { marked, .. } = forest;
        DirectedDFS { marked, graph: Ghost(g@), s: Ghost(s) }
    }

    /// Whether `v` can be reached from the source.
    pub fn marked(&self, v: usize) -> (r: bool)
        requires
            self.wf(),
            v < self.graph().len(),
        ensures
            r == reachable(self.graph(), self.source(), v),
    {
        self.marked[v]
    }
}

} // verus!
