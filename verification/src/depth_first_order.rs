//! Orders in which a depth-first search enters and leaves the vertices of a digraph.

use vstd::prelude::*;
use crate::dfs::Forest;
use crate::digraph::Digraph;
use crate::dfs::{depth_first, outlived, sweep, blank};
use crate::paths::{
    has_edge, lemma_closed_reachable, lemma_reachable_self, lists_view, mutual, reachable,
};

verus! {

/// `s` lists every vertex exactly once.
pub open spec fn is_ordering(a: Seq<Seq<usize>>, s: Seq<usize>) -> bool {
    &&& s.len() == a.len()
    &&& s.no_duplicates()
    &&& forall|k: int| 0 <= k < s.len() ==> (#[trigger] s[k]) < a.len()
}

/// Entry `k` of `pre` was entered over an edge from a vertex listed before it, or cannot
/// be reached from any vertex listed before it.
pub open spec fn entered_in_turn(a: Seq<Seq<usize>>, pre: Seq<usize>, k: int) -> bool {
    (exists|i: int| 0 <= i < k && has_edge(a, #[trigger] pre[i], pre[k])) || (forall|i: int|
        0 <= i < k ==> !reachable(a, #[trigger] pre[i], pre[k]))
}

/// Every vertex of `pre` was entered in its turn.
pub open spec fn is_preorder(a: Seq<Seq<usize>>, pre: Seq<usize>) -> bool {
    forall|k: int| 0 <= k < pre.len() ==> #[trigger] entered_in_turn(a, pre, k)
}

/// Every edge leads to a vertex listed earlier in `post`, or to one from which the
/// start of the edge can be reached.
pub open spec fn is_postorder(a: Seq<Seq<usize>>, post: Seq<usize>) -> bool {
    forall|i: int, j: int|
        0 <= i < post.len() && 0 <= j < post.len() && has_edge(a, #[trigger] post[i],
            #[trigger] post[j])
            ==> j < i || reachable(a, post[j], post[i])
}

/// Some vertex listed at `j` or later can reach the vertex at `i` and be reached from it.
pub open spec fn outlasts(a: Seq<Seq<usize>>, post: Seq<usize>, i: int, j: int) -> bool {
    exists|k: int| j <= k < post.len() && #[trigger] mutual(a, post[i], post[k])
}

/// Of all that a vertex reaches, nothing is listed after the last vertex of its strongly
/// connected component.
pub open spec fn is_finishing_order(a: Seq<Seq<usize>>, post: Seq<usize>) -> bool {
    forall|i: int, j: int|
        0 <= i < post.len() && 0 <= j < post.len() && reachable(a, post[i], post[j])
            ==> #[trigger] outlasts(a, post, i, j)
}

/// The preorder and the postorder of a depth-first search through a whole digraph.
pub struct DepthFirstOrder {
    pre: Vec<usize>,
    post: Vec<usize>,
    graph: Ghost<Seq<Seq<usize>>>,
}

impl DepthFirstOrder {
    /// The adjacency structure that was searched.
    pub closed spec fn graph(&self) -> Seq<Seq<usize>> {
        self.graph@
    }

    /// The vertices in the order in which the search entered them.
    pub closed spec fn pre_view(&self) -> Seq<usize> {
        self.pre@
    }

    /// The vertices in the order in which the search left them.
    pub closed spec fn post_view(&self) -> Seq<usize> {
        self.post@
    }

    /// The orders are those of the depth-first traversal of the whole graph; both list
    /// every vertex once and fit the edges of the graph.
    pub closed spec fn wf(&self) -> bool {
        &&& self.pre@ == depth_first(self.graph@).pre
        &&& self.post@ == depth_first(self.graph@).post
        &&& is_ordering(self.graph@, self.pre@)
        &&& is_ordering(self.graph@, self.post@)
        &&& is_preorder(self.graph@, self.pre@)
        &&& is_postorder(self.graph@, self.post@)
        &&& is_finishing_order(self.graph@, self.post@)
    }

    /// Searches all of `g`, starting a new tree at the smallest vertex not yet entered.
    pub fn new(g: &Digraph) -> (d: DepthFirstOrder)
        requires
            g.wf(),
        ensures
            d.wf(),
            d.graph() == g@,
    {
        let lists = g.lists();
        let n = lists.len();
        let ghost a = g@;
        let mut forest = Forest::new(n);
        proof {
            forest.lemma_fresh_settled(a);
        }
        let mut v: usize = 0;
        while v < n
            invariant
                a == lists_view(lists),
                n == a.len(),
                v <= n,
                forest.settled(a),
                forest.trace() == sweep(a, blank(n as nat), v as nat),
                forall|u: int| 0 <= u < v ==> #[trigger] forest.marked@[u],
                forall|u: int, i: int|
                    #![trigger forest.root@[u], forest.pre@[i]]
                    0 <= u < n && forest.marked@[u] && forest.root@[u] == u && 0 <= i
                        < forest.pre_at@[u] ==> !reachable(a, forest.pre@[i], u as usize),
            decreases n - v,
        {
            if !forest.marked[v] {
                let ghost before = forest;
                proof {
                    forest.lemma_settled_closed(a);
                    lemma_reachable_self(a, v);
                }
                forest.explore(lists, v);
                proof {
                    assert(forest.marked@[v as int]);
                    assert forall|u: int, i: int|
                        #![trigger forest.root@[u], forest.pre@[i]]
                        0 <= u < n && forest.marked@[u] && forest.root@[u] == u && 0 <= i
                            < forest.pre_at@[u] implies !reachable(a, forest.pre@[i], u as usize)
                                by {
                        if before.marked@[u] {
                            assert(forest.root@[u] == before.root@[u]);
                            assert(forest.pre_at@[u] == before.pre_at@[u]);
                            assert(forest.pre@.take(before.pre@.len() as int)[i] == before.pre@[i]);
                        } else {
                            assert(forest.root@[u] == v);
                            let x = forest.pre@[i];
                            if !before.marked@[x as int] {
                                // entered in this tree: the root of the tree comes first
                                assert(forest.root@[x as int] == v);
                                Self::lemma_root_first(&forest, a, x);
                            }
                            if reachable(a, x, u as usize) {
                                lemma_closed_reachable(a, before.marked@, x, u as usize);
                            }
                        }
                    }
                }
            }
            v += 1;
        }
        let ghost root = forest.root@;
        let ghost edge_to = forest.edge_to@;
        let ghost pre_at = forest.pre_at@;
        let ghost post_at = forest.post_at@;
        let ghost marked = forest.marked@;
        proof {
            assert forall|i: int, j: int|
                0 <= i < forest.post@.len() && 0 <= j < forest.post@.len() && reachable(
                    a,
                    forest.post@[i],
                    forest.post@[j],
                ) implies #[trigger] outlasts(a, forest.post@, i, j) by {
                let u = forest.post@[i];
                let y = forest.post@[j];
                assert(forest.marked@[u as int]);
                assert(outlived(a, forest.marked@, forest.marked@, forest.post_at@, u, y));
                let g = choose|g: usize|
                    g < a.len() && #[trigger] mutual(a, u, g) && forest.marked@[g as int] && y
                        < a.len()
                        && forest.marked@[y as int] && forest.post_at@[y as int]
                        <= forest.post_at@[g as int];
                let k = forest.post_at@[g as int];
                assert(forest.post@[k] == g);
                assert(forest.post_at@[forest.post@[j] as int] == j);
                assert(j <= k < forest.post@.len() && mutual(a, forest.post@[i], forest.post@[k]));
            }
        }
        let Forest { pre, post, .. } = forest;
        proof {
            assert forall|u: int| 0 <= u < n implies 0 <= #[trigger] pre_at[u] < pre@.len()
                && pre@[pre_at[u]] == u by {
                assert(marked[u]);
            }
            assert forall|u: int| 0 <= u < n implies 0 <= #[trigger] post_at[u] < post@.len()
                && post@[post_at[u]] == u by {
                assert(marked[u]);
            }
            assert forall|i: int, k: int| 0 <= i < pre@.len() && 0 <= k < pre@.len() && i
                != k implies pre@[i]
                != pre@[k] by {}
            assert forall|i: int, k: int|
                0 <= i < post@.len() && 0 <= k < post@.len() && i != k implies post@[i] != post@[k]
                    by {}
            Self::lemma_full_listing(pre@, pre_at, n as nat);
            Self::lemma_full_listing(post@, post_at, n as nat);
            assert forall|k: int| 0 <= k < pre@.len() implies #[trigger] entered_in_turn(a, pre@, k)
                by {
                let u = pre@[k];
                assert(pre_at[u as int] == k);
                if root[u as int] != u {
                    let p = edge_to[u as int];
                    assert(pre@[pre_at[p as int]] == p);
                    assert(0 <= pre_at[p as int] < k && has_edge(a, pre@[pre_at[p as int]],
                        pre@[k]));
                }
            }
            assert forall|i: int, j: int|
                0 <= i < post@.len() && 0 <= j < post@.len() && has_edge(
                    a,
                    #[trigger] post@[i],
                    #[trigger] post@[j],
                ) implies j < i || reachable(a, post@[j], post@[i]) by {
                let u = post@[i];
                let w = post@[j];
                let slot = choose|slot: int| 0 <= slot < a[u as int].len() && a[u as int][slot]
                    == w;
                assert(a[u as int][slot] == w);
                assert(post_at[u as int] == i && post_at[w as int] == j);
            }
        }
        DepthFirstOrder { pre, post, graph: Ghost(a) }
    }

    /// A vertex that is its own root is the first of its tree in the order of entering.
    proof fn lemma_root_first(forest: &Forest, a: Seq<Seq<usize>>, x: usize)
        requires
            forest.settled(a),
            x < a.len(),
            forest.marked@[x as int],
        ensures
            forest.pre_at@[forest.root@[x as int] as int] <= forest.pre_at@[x as int],
        decreases forest.depth@[x as int],
    {
        if forest.root@[x as int] != x {
            let p = forest.edge_to@[x as int];
            Self::lemma_root_first(forest, a, p);
        }
    }

    /// A list without repetition that names `n` marked vertices below `n` has length `n`.
    proof fn lemma_full_listing(list: Seq<usize>, at: Seq<int>, n: nat)
        requires
            at.len() == n,
            forall|v: int| 0 <= v < n ==> 0 <= #[trigger] at[v] < list.len() && list[at[v]] == v,
            forall|k: int| 0 <= k < list.len() ==> (#[trigger] list[k]) < n && at[list[k] as int]
                == k,
        ensures
            list.len() == n,
        decreases n,
    {
        if n == 0 {
            if list.len() > 0 {
                assert(list[0] < n);
            }
        } else {
            // remove the vertex n - 1 from the list and renumber the positions behind it
            let last = (n - 1) as int;
            let hole = at[last];
            let list2 = list.remove(hole);
            let at2 = Seq::new(
                (n - 1) as nat,
                |v: int|
                    if at[v] > hole {
                        at[v] - 1
                    } else {
                        at[v]
                    },
            );
            assert forall|v: int| 0 <= v < n - 1 implies 0 <= #[trigger] at2[v] < list2.len()
                && list2[at2[v]] == v by {
                assert(at[v] != hole);
            }
            assert forall|k: int| 0 <= k < list2.len() implies (#[trigger] list2[k]) < n - 1
                && at2[list2[k] as int] == k by {
                let k0 = if k < hole {
                    k
                } else {
                    k + 1
                };
                assert(list2[k] == list[k0]);
                assert(at[list[k0] as int] == k0);
            }
            Self::lemma_full_listing(list2, at2, (n - 1) as nat);
        }
    }

    /// The vertices in the order in which the search entered them.
    pub fn pre(&self) -> (r: &[usize])
        requires
            self.wf(),
        ensures
            r@ == self.pre_view(),
            r@ == depth_first(self.graph()).pre,
            is_ordering(self.graph(), r@),
            is_preorder(self.graph(), r@),
    {
        self.pre.as_slice()
    }

    /// The vertices in the order in which the search left them.
    pub fn post(&self) -> (r: &[usize])
        requires
            self.wf(),
        ensures
            r@ == self.post_view(),
            r@ == depth_first(self.graph()).post,
            is_ordering(self.graph(), r@),
            is_postorder(self.graph(), r@),
            is_finishing_order(self.graph(), r@),
    {
        self.post.as_slice()
    }

    /// The vertices in the opposite of the order in which the search left them.
    pub fn reverse_post(&self) -> (r: Vec<usize>)
        requires
            self.wf(),
        ensures
            r@ == self.post_view().reverse(),
            r@ == depth_first(self.graph()).post.reverse(),
    {
        let mut r: Vec<usize> = Vec::with_capacity(self.post.len());
        let mut k: usize = self.post.len();
        while k > 0
            invariant
                k <= self.post@.len(),
                r@.len() == self.post@.len() - k,
                forall|m: int| 0 <= m < r@.len() ==> #[trigger] r@[m]
                    == self.post@[self.post@.len() - 1 - m],
            decreases k,
        {
            k -= 1;
            r.push(self.post[k]);
        }
        assert(r@ =~= self.post@.reverse());
        r
    }
}

} // verus!
