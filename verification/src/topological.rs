//! Topological order of a directed acyclic graph.

use vstd::prelude::*;
use crate::depth_first_order::{is_ordering, is_postorder, DepthFirstOrder};
use crate::dfs::depth_first;
use crate::digraph::Digraph;
use crate::directed_cycle::DirectedCycle;
use crate::paths::{has_directed_cycle, has_edge, reachable};

verus! {

/// Every edge leads from a vertex to one listed later.
pub open spec fn is_topological(a: Seq<Seq<usize>>, order: Seq<usize>) -> bool {
    forall|i: int, j: int|
        0 <= i < order.len() && 0 <= j < order.len() && has_edge(
            a,
            #[trigger] order[i],
            #[trigger] order[j],
        ) ==> i < j
}

/// Read backwards, a postorder of a graph without directed cycle is a topological order.
pub proof fn lemma_reverse_postorder(a: Seq<Seq<usize>>, post: Seq<usize>)
    requires
        !has_directed_cycle(a),
        is_ordering(a, post),
        is_postorder(a, post),
    ensures
        is_ordering(a, post.reverse()),
        is_topological(a, post.reverse()),
{
    let order = post.reverse();
    let n = post.len() as int;
    assert forall|i: int, j: int|
        0 <= i < order.len() && 0 <= j < order.len() && has_edge(
            a,
            #[trigger] order[i],
            #[trigger] order[j],
        ) implies i < j by {
        assert(order[i] == post[n - 1 - i]);
        assert(order[j] == post[n - 1 - j]);
        assert(has_edge(a, post[n - 1 - i], post[n - 1 - j]));
        if reachable(a, post[n - 1 - j], post[n - 1 - i]) {
            assert(has_directed_cycle(a));
        }
    }
    assert forall|i: int, j: int| 0 <= i < order.len() && 0 <= j < order.len() && i != j implies
        order[i]
        != order[j] by {
        assert(order[i] == post[n - 1 - i]);
        assert(order[j] == post[n - 1 - j]);
    }
    assert forall|k: int| 0 <= k < order.len() implies (#[trigger] order[k]) < a.len() by {
        assert(order[k] == post[n - 1 - k]);
    }
}

/// A topological order of a digraph, where it has one.
pub struct Topological {
    order: Vec<usize>,
    acyclic: bool,
    graph: Ghost<Seq<Seq<usize>>>,
}

impl Topological {
    /// The adjacency structure that was sorted.
    pub closed spec fn graph(&self) -> Seq<Seq<usize>> {
        self.graph@
    }

    /// The order that was found; empty when the graph has a directed cycle.
    pub closed spec fn order_view(&self) -> Seq<usize> {
        self.order@
    }

    /// The flag tells whether the graph is free of directed cycles. For a graph with a
    /// directed cycle nothing is listed. For any other graph the vertices are listed in
    /// the opposite of the order in which the depth-first traversal of the whole graph
    /// leaves them: each once, and every edge leads from a vertex to one listed later.
    pub closed spec fn wf(&self) -> bool {
        &&& self.acyclic == !has_directed_cycle(self.graph@)
        &&& has_directed_cycle(self.graph@) ==> self.order@.len() == 0
        &&& !has_directed_cycle(self.graph@) ==> self.order@
            == depth_first(self.graph@).post.reverse()
            && is_ordering(self.graph@, self.order@) && is_topological(self.graph@, self.order@)
    }

    /// Sorts the vertices of `g` topologically if it has no directed cycle.
    pub fn new(g: &Digraph) -> (t: Topological)
        requires
            g.wf(),
        ensures
            t.wf(),
            t.graph() == g@,
    {
        let d = DirectedCycle::new(g);
        let mut t = Topological { order: Vec::new(), acyclic: !d.has_cycle(), graph: Ghost(g@) };
        if t.acyclic {
            let dfs = DepthFirstOrder::new(g);
            let post = dfs.post();
            t.order = dfs.reverse_post();
            proof {
                lemma_reverse_postorder(g@, post@);
            }
        }
        t
    }

    /// The vertices in topological order; empty when the graph has a directed cycle.
    pub fn order(&self) -> (r: &[usize])
        requires
            self.wf(),
        ensures
            r@ == self.order_view(),
            has_directed_cycle(self.graph()) ==> r@.len() == 0,
            !has_directed_cycle(self.graph()) ==> r@ == depth_first(self.graph()).post.reverse()
                && is_ordering(self.graph(), r@) && is_topological(self.graph(), r@),
    {
        self.order.as_slice()
    }

    /// Whether the graph has no directed cycle.
    pub fn is_dag(&self) -> (r: bool)
        requires
            self.wf(),
        ensures
            r == !has_directed_cycle(self.graph()),
    {
        self.acyclic
    }
}

} // verus!
