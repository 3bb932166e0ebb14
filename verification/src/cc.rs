//! Connected components of an undirected graph.

use vstd::prelude::*;
use crate::dfs::Forest;
use crate::graph::Graph;
use crate::paths::{
    lemma_closed_reachable, lemma_reachable_self, lemma_reachable_symmetric, lemma_reachable_trans,
    lists_view, reachable, symmetric,
};

verus! {

/// The connected components of an undirected graph, numbered from 0 in the order of
/// their smallest vertices.
pub struct CC {
    id: Vec<usize>,
    count: usize,
    graph: Ghost<Seq<Seq<usize>>>,
    leader: Ghost<Seq<usize>>,
}

impl CC {
    /// The adjacency structure that was searched.
    pub closed spec fn graph(&self) -> Seq<Seq<usize>> {
        self.graph@
    }

    /// The number of the component of `v`.
    pub closed spec fn label(&self, v: usize) -> usize {
        self.id@[v as int]
    }

    /// Number of components.
    pub closed spec fn components(&self) -> nat {
        self.count as nat
    }

    /// Some vertex carries the number `c`.
    pub open spec fn carried(&self, c: usize) -> bool {
        exists|v: usize| v < self.graph().len() && #[trigger] self.label(v) == c
    }

    /// Two vertices carry the same number exactly when a path joins them; every number
    /// below the count is carried by some vertex, first by the smallest one of its
    /// component, and these smallest vertices ascend with the numbers.
    pub closed spec fn wf(&self) -> bool {
        let a = self.graph@;
        &&& self.id@.len() == a.len()
        &&& self.leader@.len() == self.count
        &&& forall|v: int| 0 <= v < a.len() ==> (#[trigger] self.id@[v]) < self.count
        &&& forall|v: int, w: int|
            0 <= v < a.len() && 0 <= w < a.len() ==> (#[trigger] self.id@[v]
                == #[trigger] self.id@[w])
                == reachable(a, v as usize, w as usize)
        &&& forall|c: int|
            0 <= c < self.count ==> (#[trigger] self.leader@[c]) < a.len()
                && self.id@[self.leader@[c] as int] == c
        &&& forall|v: int| 0 <= v < a.len() ==> self.leader@[#[trigger] self.id@[v] as int] <= v
        &&& forall|c: int, d: int|
            0 <= c < d < self.count ==> (#[trigger] self.leader@[c]) < (#[trigger] self.leader@[d])
    }

    /// Component numbers stay below the count and agree exactly on connected vertices.
    pub proof fn lemma_labels(&self, v: usize, w: usize)
        requires
            self.wf(),
            v < self.graph().len(),
            w < self.graph().len(),
        ensures
            self.label(v) < self.components(),
            (self.label(v) == self.label(w)) == reachable(self.graph(), v, w),
    {
    }

    /// Every number below the count is the number of some vertex.
    pub proof fn lemma_label_used(&self, c: usize) -> (v: usize)
        requires
            self.wf(),
            c < self.components(),
        ensures
            v < self.graph().len(),
            self.label(v) == c,
    {
        self.leader@[c as int]
    }

    /// Numbers are handed out in ascending order of the vertices: a vertex numbered above
    /// zero comes after some vertex that carries the number before.
    pub proof fn lemma_label_order(&self, v: usize) -> (u: usize)
        requires
            self.wf(),
            v < self.graph().len(),
            self.label(v) > 0,
        ensures
            u < v,
            self.label(u) + 1 == self.label(v),
    {
        let c = self.id@[v as int];
        assert(self.leader@[c as int] <= v);
        assert(self.leader@[c - 1] < self.leader@[c as int]);
        self.leader@[c - 1]
    }

    /// Finds the components of `g`.
    pub fn new(g: &Graph) -> (c: CC)
        requires
            g.wf(),
        ensures
            c.wf(),
            c.graph() == g@,
    {
        let lists = g.lists();
        let n = lists.len();
        let ghost a = g@;
        let mut forest = Forest::new(n);
        let mut id: Vec<usize> = Vec::with_capacity(n);
        let mut i: usize = 0;
        while i < n
            invariant
                i <= n,
                id@.len() == i,
            decreases n - i,
        {
            id.push(0);
            i += 1;
        }
        let mut count: usize = 0;
        let ghost mut leader: Seq<usize> = Seq::empty();
        proof {
            forest.lemma_fresh_settled(a);
            g.lemma_wf();
        }
        let mut s: usize = 0;
        while s < n
            invariant
                a == lists_view(lists),
                symmetric(a),
                n == a.len(),
                s <= n,
                count <= s,
                forest.settled(a),
                id@.len() == n,
                leader.len() == count,
                forall|v: int| 0 <= v < s ==> #[trigger] forest.marked@[v],
                forall|v: int| 0 <= v < n && forest.marked@[v] ==> (#[trigger] id@[v]) < count,
                forall|v: int, w: int|
                    0 <= v < n && 0 <= w < n && forest.marked@[v] && forest.marked@[w] ==> (
                    #[trigger] id@[v] == #[trigger] id@[w]) == reachable(a, v as usize, w as usize),
                forall|c: int|
                    0 <= c < count ==> (#[trigger] leader[c]) < s
                        && forest.marked@[leader[c] as int]
                        && id@[leader[c] as int] == c,
                forall|v: int|
                    0 <= v < n && forest.marked@[v] ==> leader[#[trigger] id@[v] as int] <= v,
                forall|c: int, d: int|
                    0 <= c < d < count ==> (#[trigger] leader[c]) < (#[trigger] leader[d]),
            decreases n - s,
        {
            if !forest.marked[s] {
                let start = forest.pre.len();
                let ghost before = forest;
                let ghost id0 = id@;
                proof {
                    forest.lemma_settled_closed(a);
                }
                forest.explore(lists, s);
                let stop = forest.pre.len();
                let mut k: usize = start;
                proof {
                    assert forall|kk: int| start <= kk < stop implies
                        !before.marked@[#[trigger] forest.pre@[kk] as int] by {
                        let v = forest.pre@[kk];
                        if before.marked@[v as int] {
                            assert(forest.pre_at@[v as int] == before.pre_at@[v as int]);
                        }
                    }
                }
                while k < stop
                    invariant
                        n == a.len(),
                        start <= k <= stop,
                        stop == forest.pre@.len(),
                        forest.settled(a),
                        id@.len() == n,
                        id0.len() == n,
                        before.marked@.len() == n,
                        forall|kk: int|
                            start <= kk < stop
                                ==> !before.marked@[#[trigger] forest.pre@[kk] as int],
                        forall|v: int| 0 <= v < n && before.marked@[v] ==> #[trigger] id@[v]
                            == id0[v],
                        forall|kk: int| start <= kk < k ==> id@[#[trigger] forest.pre@[kk] as int]
                            == count,
                    decreases stop - k,
                {
                    let v = forest.pre[k];
                    let ghost id1 = id@;
                    id[v] = count;
                    proof {
                        assert forall|kk: int| start <= kk < k + 1 implies
                            id@[#[trigger] forest.pre@[kk] as int]
                            == count by {
                            if kk < k {
                                assert(id1[forest.pre@[kk] as int] == count);
                            }
                        }
                    }
                    k += 1;
                }
                proof {
                    assert forall|v: int|
                        0 <= v < n && forest.marked@[v] && !before.marked@[v] implies
                            #[trigger] id@[v]
                        == count && reachable(a, s, v as usize) && v >= s by {
                        let kk = forest.pre_at@[v];
                        assert(forest.pre@[kk] == v);
                        if kk < start {
                            assert(forest.pre@.take(start as int)[kk] == before.pre@[kk]);
                            assert(before.marked@[before.pre@[kk] as int]);
                        }
                        assert(id@[forest.pre@[kk] as int] == count);
                        assert(forest.marked@[v] == (before.marked@[v] || reachable(a, s,
                            v as usize)));
                        if v < s {
                            assert(before.marked@[v]);
                        }
                    }
                    assert forall|v: int, w: int|
                        0 <= v < n && 0 <= w < n && forest.marked@[v] && forest.marked@[w] implies (
                    #[trigger] id@[v] == #[trigger] id@[w]) == reachable(a, v as usize, w as usize)
                        by {
                        let bv = before.marked@[v];
                        let bw = before.marked@[w];
                        if bv && bw {
                            assert(id0[v] == id@[v] && id0[w] == id@[w]);
                        } else if !bv && !bw {
                            lemma_reachable_symmetric(a, s, v as usize);
                            lemma_reachable_trans(a, v as usize, s, w as usize);
                        } else if bv && !bw {
                            assert(id0[v] == id@[v]);
                            if reachable(a, v as usize, w as usize) {
                                lemma_closed_reachable(a, before.marked@, v as usize, w as usize);
                            }
                        } else {
                            assert(id0[w] == id@[w]);
                            if reachable(a, v as usize, w as usize) {
                                lemma_reachable_symmetric(a, v as usize, w as usize);
                                lemma_closed_reachable(a, before.marked@, w as usize, v as usize);
                            }
                        }
                    }
                    let ghost leader0 = leader;
                    leader = leader.push(s);
                    lemma_reachable_self(a, s);
                    assert(forest.marked@[s as int]);
                    assert forall|v: int| 0 <= v < n && forest.marked@[v] implies
                        leader[#[trigger] id@[v] as int]
                        <= v by {
                        if before.marked@[v] {
                            assert(id@[v] == id0[v]);
                            assert(leader0[id0[v] as int] <= v);
                        }
                    }
                    assert forall|c: int| 0 <= c < count + 1 implies (#[trigger] leader[c]) < s + 1
                        && forest.marked@[leader[c] as int] && id@[leader[c] as int] == c by {
                        if c < count {
                            assert(leader[c] == leader0[c]);
                            assert(before.marked@[leader0[c] as int]);
                            assert(id@[leader0[c] as int] == id0[leader0[c] as int]);
                        }
                    }
                    assert forall|v: int| 0 <= v < n && forest.marked@[v] implies
                        (#[trigger] id@[v])
                        < count + 1 by {
                        if before.marked@[v] {
                            assert(id@[v] == id0[v]);
                        }
                    }
                    assert forall|c: int, d: int| 0 <= c < d < count + 1 implies
                        (#[trigger] leader[c])
                        < (#[trigger] leader[d]) by {
                        assert(leader[c] == leader0[c]);
                        if d < count {
                            assert(leader[d] == leader0[d]);
                        }
                    }
                }
                count += 1;
            }
            s += 1;
        }
        CC { id, count, graph: Ghost(a), leader: Ghost(leader) }
    }

    /// The number of the component of `v`.
    pub fn id(&self, v: usize) -> (r: usize)
        requires
            self.wf(),
            v < self.graph().len(),
        ensures
            r == self.label(v),
            r < self.components(),
            forall|w: usize|
                w < self.graph().len() ==> (r == #[trigger] self.label(w)) == reachable(
                    self.graph(),
                    v,
                    w,
                ),
            r > 0 ==> exists|u: usize| u < v && #[trigger] self.label(u) + 1 == r,
    {
        proof {
            assert forall|w: usize| w < self.graph().len() implies (self.id@[v as int]
                == #[trigger] self.label(w)) == reachable(self.graph(), v, w) by {
                self.lemma_labels(v, w);
            }
            if self.id@[v as int] > 0 {
                let u = self.lemma_label_order(v);
                assert(u < v && self.label(u) + 1 == self.id@[v as int]);
            }
        }
        self.id[v]
    }

    /// Whether a path joins `v` and `w`.
    pub fn connected(&self, v: usize, w: usize) -> (r: bool)
        requires
            self.wf(),
            v < self.graph().len(),
            w < self.graph().len(),
        ensures
            r == reachable(self.graph(), v, w),
            r == (self.label(v) == self.label(w)),
    {
        self.id[v] == self.id[w]
    }

    /// Number of components: every number below it is the number of some vertex.
    pub fn count(&self) -> (r: usize)
        requires
            self.wf(),
        ensures
            r == self.components(),
            forall|c: usize| c < r ==> #[trigger] self.carried(c),
    {
        proof {
            assert forall|c: usize| c < self.count implies #[trigger] self.carried(c) by {
                let v = self.lemma_label_used(c);
                assert(v < self.graph().len() && self.label(v) == c);
            }
        }
        self.count
    }
}

} // verus!
