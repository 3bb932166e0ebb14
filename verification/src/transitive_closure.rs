//! Reachability between all pairs of vertices of a digraph.

use vstd::prelude::*;
use crate::digraph::Digraph;
use crate::directed_dfs::DirectedDFS;

verus! {

/// For every vertex of a digraph, the set of vertices that can be reached from it.
pub struct TransitiveClosure {
    all: Vec<DirectedDFS>,
    graph: Ghost<Seq<Seq<usize>>>,
}

impl TransitiveClosure {
    /// The adjacency structure that was searched.
    pub closed spec fn graph(&self) -> Seq<Seq<usize>> {
        self.graph@
    }

    /// Entry `v` holds the search from `v`.
    pub closed spec fn wf(&self) -> bool {
        &&& self.all@.len() == self.graph@.len()
        &&& forall|v: int|
            0 <= v < self.all@.len() ==> {
                &&& (#[trigger] self.all@[v]).wf()
                &&& self.all@[v].graph() == self.graph@
                &&& self.all@[v].source() == v
            }
    }

    /// Searches `g` from every vertex.
    pub fn new(g: &Digraph) -> (t: TransitiveClosure)
        requires
            g.wf(),
        ensures
            t.wf(),
            t.graph() == g@,
    {
        let n = g.v();
        let mut all: Vec<DirectedDFS> = Vec::new();
        let mut v: usize = 0;
        while v < n
            invariant
                g.wf(),
                n == g@.len(),
                v <= n,
                all@.len() == v,
                forall|k: int|
                    0 <= k < v ==> {
                        &&& (#[trigger] all@[k]).wf()
                        &&& all@[k].graph() == g@
                        &&& all@[k].source() == k
                    },
            decreases n - v,
        {
            all.push(DirectedDFS::new(g, v));
            v += 1;
        }
        TransitiveClosure { all, graph: Ghost(g@) }
    }

    /// Whether `w` can be reached from `v`.
    pub fn reachable(&self, v: usize, w: usize) -> (r: bool)
        requires
            self.wf(),
            v < self.graph().len(),
            w < self.graph().len(),
        ensures
            r == crate::paths::reachable(self.graph(), v, w),
    {
        self.all[v].marked(w)
    }
}

} // verus!
