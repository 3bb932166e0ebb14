//! Strongly connected components of a digraph.

use vstd::prelude::*;
use crate::depth_first_order::{is_finishing_order, is_ordering, outlasts, DepthFirstOrder};
use crate::dfs::{depth_first, Forest};
use crate::digraph::{lemma_reversed_in_bounds, lemma_reversed_reachable, reversed, Digraph};
use crate::paths::{
    closed, has_edge, in_bounds, lemma_closed_reachable, lemma_reachable_self,
    lemma_reachable_trans, lists_view, mutual, reachable,
};

verus! {

/// The strongly connected components of a digraph, numbered from 0 in the order in which
/// they first occur in the processing order, so that no edge leads to a component with a
/// higher number.
pub struct KosarajuSCC {
    id: Vec<usize>,
    count: usize,
    graph: Ghost<Seq<Seq<usize>>>,
    order: Ghost<Seq<usize>>,
    leader: Ghost<Seq<usize>>,
    first_at: Ghost<Seq<int>>,
}

/// The order in which the vertices are processed: the opposite of the order in which
/// the depth-first traversal of the reversed graph leaves them.
pub open spec fn processing_order(a: Seq<Seq<usize>>) -> Seq<usize> {
    depth_first(reversed(a)).post.reverse()
}

/// In a finishing order of the reversed graph, a vertex that is listed last among the
/// vertices outside a set without leaving edges reaches, outside that set, only vertices
/// that reach it.
proof fn lemma_tree_is_component(
    a: Seq<Seq<usize>>,
    post: Seq<usize>,
    marked: Seq<bool>,
    at: int,
    v: usize,
)
    requires
        in_bounds(a),
        a.len() <= usize::MAX,
        is_ordering(reversed(a), post),
        is_finishing_order(reversed(a), post),
        closed(a, marked),
        0 <= at < post.len(),
        forall|m: int| at < m < post.len() ==> marked[#[trigger] post[m] as int],
        v < a.len(),
        !marked[v as int],
        post.contains(v),
        reachable(a, post[at], v),
    ensures
        reachable(a, v, post[at]),
{
    let r = reversed(a);
    let s = post[at];
    let i = choose|i: int| 0 <= i < post.len() && post[i] == v;
    lemma_reversed_reachable(a, s, v);
    assert(reachable(r, post[i], post[at]));
    assert(outlasts(r, post, i, at));
    let k = choose|k: int| at <= k < post.len() && #[trigger] mutual(r, post[i], post[k]);
    let g = post[k];
    lemma_reversed_reachable(a, g, v);
    lemma_reversed_reachable(a, v, g);
    if k > at {
        assert(marked[post[k] as int]);
        lemma_closed_reachable(a, marked, g, v);
    }
}

impl KosarajuSCC {
    /// The adjacency structure that was searched.
    pub closed spec fn graph(&self) -> Seq<Seq<usize>> {
        self.graph@
    }

    /// The number of the component of `v`.
    pub closed spec fn label(&self, v: usize) -> usize {
        self.id@[v as int]
    }

    /// Number of components.
    pub closed spec fn components(&self) -> nat {
        self.count as nat
    }

    /// Some vertex carries the number `c`.
    pub open spec fn carried(&self, c: usize) -> bool {
        exists|v: usize| v < self.graph().len() && #[trigger] self.label(v) == c
    }

    /// Two vertices carry the same number exactly when each can be reached from the
    /// other; every number below the count is carried by some vertex, first in the
    /// processing order by the one that comes first there, and these first vertices
    /// come in the order of the numbers; no edge leads to a higher number.
    pub closed spec fn wf(&self) -> bool {
        let a = self.graph@;
        &&& self.id@.len() == a.len()
        &&& self.leader@.len() == self.count
        &&& self.first_at@.len() == self.count
        &&& self.order@ == processing_order(a)
        &&& self.order@.len() == a.len()
        &&& forall|c: int|
            0 <= c < self.count ==> 0 <= (#[trigger] self.first_at@[c]) < a.len()
                && self.order@[self.first_at@[c]] == self.leader@[c]
        &&& forall|c: int, d: int|
            0 <= c < d < self.count ==> (#[trigger] self.first_at@[c])
                < (#[trigger] self.first_at@[d])
        &&& forall|j: int| 0 <= j < a.len() ==> (#[trigger] self.order@[j]) < a.len()
        &&& forall|j: int|
            0 <= j < a.len() ==> self.first_at@[self.id@[#[trigger] self.order@[j] as int] as int]
                <= j
        &&& forall|v: int| 0 <= v < a.len() ==> (#[trigger] self.id@[v]) < self.count
        &&& forall|v: int, w: int|
            0 <= v < a.len() && 0 <= w < a.len() ==> (#[trigger] self.id@[v]
                == #[trigger] self.id@[w])
                == mutual(a, v as usize, w as usize)
        &&& forall|c: int|
            0 <= c < self.count ==> (#[trigger] self.leader@[c]) < a.len()
                && self.id@[self.leader@[c] as int] == c
        &&& forall|v: int, j: int|
            0 <= v < a.len() && 0 <= j < a[v].len() ==> self.id@[#[trigger] a[v][j] as int]
                <= self.id@[v]
    }

    /// Component numbers stay below the count and agree exactly on vertices that can
    /// reach each other.
    pub proof fn lemma_labels(&self, v: usize, w: usize)
        requires
            self.wf(),
            v < self.graph().len(),
            w < self.graph().len(),
        ensures
            self.label(v) < self.components(),
            (self.label(v) == self.label(w)) == mutual(self.graph(), v, w),
    {
    }

    /// Every number below the count is the number of some vertex.
    pub proof fn lemma_label_used(&self, c: usize) -> (v: usize)
        requires
            self.wf(),
            c < self.components(),
        ensures
            v < self.graph().len(),
            self.label(v) == c,
    {
        self.leader@[c as int]
    }

    /// Numbers are handed out along the processing order: a vertex numbered above zero
    /// comes after some vertex that carries the number before.
    pub proof fn lemma_label_order(&self, j: int) -> (i: int)
        requires
            self.wf(),
            0 <= j < self.graph().len(),
            self.label(processing_order(self.graph())[j]) > 0,
        ensures
            0 <= i < j,
            self.label(processing_order(self.graph())[i]) + 1 == self.label(
                processing_order(self.graph())[j],
            ),
    {
        let c = self.id@[self.order@[j] as int] as int;
        assert(self.order@[j] < self.graph@.len());
        assert(self.first_at@[c] <= j);
        assert(self.first_at@[c - 1] < self.first_at@[c]);
        assert(self.id@[self.leader@[c - 1] as int] == c - 1);
        self.first_at@[c - 1]
    }

    /// No edge leads to a component with a higher number.
    pub proof fn lemma_label_edge(&self, v: usize, w: usize)
        requires
            self.wf(),
            has_edge(self.graph(), v, w),
        ensures
            self.label(w) <= self.label(v),
    {
        let a = self.graph@;
        let j = choose|j: int| 0 <= j < a[v as int].len() && a[v as int][j] == w;
        assert(self.id@[a[v as int][j] as int] <= self.id@[v as int]);
    }

    /// Finds the strongly connected components of `g`.
    pub fn new(g: &Digraph) -> (c: KosarajuSCC)
        requires
            g.wf(),
        ensures
            c.wf(),
            c.graph() == g@,
    {
        let lists = g.lists();
        let n = lists.len();
        let ghost a = g@;
        let flipped = g.reverse();
        let dfo = DepthFirstOrder::new(&flipped);
        let listed = dfo.post();
        let ghost post = listed@;
        let order = dfo.reverse_post();
        let mut forest = Forest::new(n);
        let mut id: Vec<usize> = Vec::with_capacity(n);
        let mut i: usize = 0;
        while i < n
            invariant
                i <= n,
                id@.len() == i,
            decreases n - i,
        {
            id.push(0);
            i += 1;
        }
        let mut count: usize = 0;
        let ghost mut leader: Seq<usize> = Seq::empty();
        let ghost mut first_at: Seq<int> = Seq::empty();
        proof {
            forest.lemma_fresh_settled(a);
            g.lemma_wf();
            lemma_reversed_in_bounds(a);
        }
        let mut k: usize = 0;
        while k < n
            invariant
                a == lists_view(lists),
                in_bounds(a),
                n == a.len(),
                n <= usize::MAX,
                is_ordering(reversed(a), post),
                is_finishing_order(reversed(a), post),
                order@ == post.reverse(),
                order@ == processing_order(a),
                first_at.len() == count,
                forall|c: int|
                    0 <= c < count ==> 0 <= (#[trigger] first_at[c]) < k && order@[first_at[c]]
                        == leader[c],
                forall|c: int, d: int|
                    0 <= c < d < count ==> (#[trigger] first_at[c]) < (#[trigger] first_at[d]),
                forall|j: int|
                    0 <= j < n && forest.marked@[#[trigger] order@[j] as int]
                        ==> first_at[id@[order@[j] as int] as int]
                        <= j,
                k <= n,
                count <= k,
                forest.settled(a),
                id@.len() == n,
                leader.len() == count,
                forall|m: int| 0 <= m < k ==> forest.marked@[#[trigger] order@[m] as int],
                forall|v: int| 0 <= v < n && forest.marked@[v] ==> (#[trigger] id@[v]) < count,
                forall|v: int, w: int|
                    0 <= v < n && 0 <= w < n && forest.marked@[v] && forest.marked@[w] ==> (
                    #[trigger] id@[v] == #[trigger] id@[w]) == mutual(a, v as usize, w as usize),
                forall|c: int|
                    0 <= c < count ==> (#[trigger] leader[c]) < n
                        && forest.marked@[leader[c] as int]
                        && id@[leader[c] as int] == c,
                forall|v: int, j: int|
                    0 <= v < n && forest.marked@[v] && 0 <= j < a[v].len()
                        ==> id@[#[trigger] a[v][j] as int]
                        <= id@[v],
            decreases n - k,
        {
            let s = order[k];
            assert(s == post[n - 1 - k]);
            if !forest.marked[s] {
                let start = forest.pre.len();
                let ghost before = forest;
                let ghost id0 = id@;
                proof {
                    forest.lemma_settled_closed(a);
                }
                forest.explore(lists, s);
                let stop = forest.pre.len();
                let mut x: usize = start;
                proof {
                    assert forall|kk: int| start <= kk < stop implies
                        !before.marked@[#[trigger] forest.pre@[kk] as int] by {
                        let v = forest.pre@[kk];
                        if before.marked@[v as int] {
                            assert(forest.pre_at@[v as int] == before.pre_at@[v as int]);
                        }
                    }
                }
                while x < stop
                    invariant
                        n == a.len(),
                        start <= x <= stop,
                        stop == forest.pre@.len(),
                        forest.settled(a),
                        id@.len() == n,
                        id0.len() == n,
                        before.marked@.len() == n,
                        forall|kk: int|
                            start <= kk < stop
                                ==> !before.marked@[#[trigger] forest.pre@[kk] as int],
                        forall|v: int| 0 <= v < n && before.marked@[v] ==> #[trigger] id@[v]
                            == id0[v],
                        forall|kk: int| start <= kk < x ==> id@[#[trigger] forest.pre@[kk] as int]
                            == count,
                    decreases stop - x,
                {
                    let v = forest.pre[x];
                    let ghost id1 = id@;
                    id[v] = count;
                    proof {
                        assert forall|kk: int| start <= kk < x + 1 implies
                            id@[#[trigger] forest.pre@[kk] as int]
                            == count by {
                            if kk < x {
                                assert(id1[forest.pre@[kk] as int] == count);
                            }
                        }
                    }
                    x += 1;
                }
                proof {
                    assert forall|m: int| n - 1 - k < m < post.len() implies
                        before.marked@[#[trigger] post[m] as int] by {
                        assert(order@[n - 1 - m] == post[m]);
                    }
                    assert forall|v: int|
                        0 <= v < n && forest.marked@[v] && !before.marked@[v] implies
                            #[trigger] id@[v]
                        == count && mutual(a, s, v as usize) by {
                        let kk = forest.pre_at@[v];
                        assert(forest.pre@[kk] == v);
                        if kk < start {
                            assert(forest.pre@.take(start as int)[kk] == before.pre@[kk]);
                            assert(before.marked@[before.pre@[kk] as int]);
                        }
                        assert(id@[forest.pre@[kk] as int] == count);
                        assert(forest.marked@[v] == (before.marked@[v] || reachable(a, s,
                            v as usize)));
                        Self::lemma_listed(reversed(a), post, v as usize);
                        lemma_tree_is_component(a, post, before.marked@, n - 1 - k, v as usize);
                    }
                    assert forall|v: int, w: int|
                        0 <= v < n && 0 <= w < n && forest.marked@[v] && forest.marked@[w] implies (
                    #[trigger] id@[v] == #[trigger] id@[w]) == mutual(a, v as usize, w as usize)
                        by {
                        let bv = before.marked@[v];
                        let bw = before.marked@[w];
                        if bv && bw {
                            assert(id0[v] == id@[v] && id0[w] == id@[w]);
                        } else if !bv && !bw {
                            assert(id@[v] == count);
                            assert(reachable(a, s, v as usize));
                            assert(reachable(a, v as usize, s));
                            assert(id@[w] == count);
                            assert(reachable(a, s, w as usize));
                            assert(reachable(a, w as usize, s));
                            lemma_reachable_trans(a, v as usize, s, w as usize);
                            lemma_reachable_trans(a, w as usize, s, v as usize);
                        } else if bv && !bw {
                            assert(id0[v] == id@[v]);
                            if reachable(a, v as usize, w as usize) {
                                lemma_closed_reachable(a, before.marked@, v as usize, w as usize);
                            }
                        } else {
                            assert(id0[w] == id@[w]);
                            if reachable(a, w as usize, v as usize) {
                                lemma_closed_reachable(a, before.marked@, w as usize, v as usize);
                            }
                        }
                    }
                    let ghost leader0 = leader;
                    let ghost first0 = first_at;
                    leader = leader.push(s);
                    first_at = first_at.push(k as int);
                    assert forall|c: int| 0 <= c < count + 1 implies 0 <= (#[trigger] first_at[c])
                        < k + 1
                        && order@[first_at[c]] == leader[c] by {
                        if c < count {
                            assert(first_at[c] == first0[c]);
                            assert(leader[c] == leader0[c]);
                        }
                    }
                    assert forall|c: int, d: int| 0 <= c < d < count + 1 implies
                        (#[trigger] first_at[c])
                        < (#[trigger] first_at[d]) by {
                        assert(first_at[c] == first0[c]);
                        if d < count {
                            assert(first_at[d] == first0[d]);
                        }
                    }
                    assert forall|j: int|
                        0 <= j < n && forest.marked@[#[trigger] order@[j] as int] implies
                            first_at[id@[order@[j] as int] as int]
                        <= j by {
                        let v = order@[j];
                        assert(v == post[n - 1 - j]);
                        if before.marked@[v as int] {
                            assert(id@[v as int] == id0[v as int]);
                            assert(first0[id0[order@[j] as int] as int] <= j);
                            assert(id0[v as int] < count);
                        } else {
                            assert(id@[v as int] == count);
                            if j < k {
                                assert(before.marked@[order@[j] as int]);
                            }
                        }
                    }
                    lemma_reachable_self(a, s);
                    assert(forest.marked@[s as int]);
                    assert forall|c: int| 0 <= c < count + 1 implies (#[trigger] leader[c]) < n
                        && forest.marked@[leader[c] as int] && id@[leader[c] as int] == c by {
                        if c < count {
                            assert(leader[c] == leader0[c]);
                            assert(before.marked@[leader0[c] as int]);
                            assert(id@[leader0[c] as int] == id0[leader0[c] as int]);
                        }
                    }
                    assert forall|v: int| 0 <= v < n && forest.marked@[v] implies
                        (#[trigger] id@[v])
                        < count + 1 by {
                        if before.marked@[v] {
                            assert(id@[v] == id0[v]);
                        }
                    }
                    forest.lemma_settled_closed(a);
                    assert forall|v: int, j: int|
                        0 <= v < n && forest.marked@[v] && 0 <= j < a[v].len() implies
                            id@[#[trigger] a[v][j] as int]
                        <= id@[v] by {
                        let w = a[v][j];
                        assert(forest.marked@[w as int]);
                        if before.marked@[v] {
                            assert(before.marked@[a[v][j] as int]);
                            assert(id@[v] == id0[v] && id@[w as int] == id0[w as int]);
                        } else if before.marked@[w as int] {
                            assert(id@[w as int] == id0[w as int]);
                        }
                    }
                    assert forall|m: int| 0 <= m < k + 1 implies
                        forest.marked@[#[trigger] order@[m] as int] by {
                        if m < k {
                            assert(before.marked@[order@[m] as int]);
                        }
                    }
                }
                count += 1;
            }
            k += 1;
        }
        proof {
            assert forall|v: int| 0 <= v < n implies forest.marked@[v] by {
                Self::lemma_listed(reversed(a), post, v as usize);
                let i = choose|i: int| 0 <= i < post.len() && post[i] == v as usize;
                assert(order@[n - 1 - i] == post[i]);
            }
        }
        proof {
            assert forall|j: int| 0 <= j < n implies
                first_at[id@[#[trigger] order@[j] as int] as int]
                <= j by {
                assert(order@[j] == post[n - 1 - j]);
                assert(forest.marked@[order@[j] as int]);
            }
        }
        KosarajuSCC {
            id,
            count,
            graph: Ghost(a),
            order: Ghost(order@),
            leader: Ghost(leader),
            first_at: Ghost(first_at),
        }
    }

    /// A list of all vertices names each vertex.
    proof fn lemma_listed(a: Seq<Seq<usize>>, s: Seq<usize>, v: usize)
        requires
            is_ordering(a, s),
            v < a.len(),
        ensures
            s.contains(v),
    {
        if !s.contains(v) {
            // the entries lie among the vertices other than `v`, which are too few
            let others = Set::new(|x: int| 0 <= x < a.len() && x != v);
            let listed = s.map_values(|x: usize| x as int);
            assert(listed.no_duplicates()) by {
                assert forall|i: int, j: int|
                    0 <= i < listed.len() && 0 <= j < listed.len() && i != j implies listed[i]
                    != listed[j] by {
                    assert(s[i] != s[j]);
                }
            }
            vstd::set_lib::lemma_int_range(0, a.len() as int);
            let all = vstd::set_lib::set_int_range(0, a.len() as int);
            assert(others =~= all.remove(v as int));
            assert(others.len() == a.len() - 1);
            assert forall|x: int| listed.to_set().contains(x) implies others.contains(x) by {
                let i = choose|i: int| 0 <= i < listed.len() && listed[i] == x;
                assert(s[i] < a.len());
                assert(s.contains(s[i]));
            }
            vstd::set_lib::lemma_len_subset(listed.to_set(), others);
            listed.unique_seq_to_set();
        }
    }

    /// Whether each of `v` and `w` can be reached from the other.
    pub fn strongly_connected(&self, v: usize, w: usize) -> (r: bool)
        requires
            self.wf(),
            v < self.graph().len(),
            w < self.graph().len(),
        ensures
            r == mutual(self.graph(), v, w),
            r == (self.label(v) == self.label(w)),
    {
        self.id[v] == self.id[w]
    }

    /// The number of the component of `v`.
    pub fn id(&self, v: usize) -> (r: usize)
        requires
            self.wf(),
            v < self.graph().len(),
        ensures
            r == self.label(v),
            r < self.components(),
            forall|w: usize|
                w < self.graph().len() ==> (r == #[trigger] self.label(w)) == mutual(self.graph(),
                    v, w),
            forall|w: usize| #[trigger] has_edge(self.graph(), v, w) ==> self.label(w) <= r,
    {
        proof {
            assert forall|w: usize| w < self.graph().len() implies (self.id@[v as int]
                == #[trigger] self.label(w)) == mutual(self.graph(), v, w) by {
                self.lemma_labels(v, w);
            }
            assert forall|w: usize| #[trigger] has_edge(self.graph(), v, w) implies self.label(w)
                <= self.id@[v as int] by {
                self.lemma_label_edge(v, w);
            }
        }
        self.id[v]
    }

    /// Number of components: every number below it is the number of some vertex, and
    /// the numbers are handed out along the processing order.
    pub fn count(&self) -> (r: usize)
        requires
            self.wf(),
        ensures
            r == self.components(),
            forall|c: usize| c < r ==> #[trigger] self.carried(c),
            forall|j: int|
                0 <= j < self.graph().len()
                    && self.label(#[trigger] processing_order(self.graph())[j])
                    > 0 ==> exists|i: int|
                    0 <= i < j && self.label(#[trigger] processing_order(self.graph())[i]) + 1
                        == self.label(processing_order(self.graph())[j]),
    {
        proof {
            assert forall|c: usize| c < self.count implies #[trigger] self.carried(c) by {
                let v = self.lemma_label_used(c);
                assert(v < self.graph().len() && self.label(v) == c);
            }
            assert forall|j: int|
                0 <= j < self.graph().len()
                    && self.label(#[trigger] processing_order(self.graph())[j])
                    > 0 implies exists|i: int|
                0 <= i < j && self.label(#[trigger] processing_order(self.graph())[i]) + 1
                    == self.label(processing_order(self.graph())[j]) by {
                let i = self.lemma_label_order(j);
                assert(0 <= i < j && self.label(processing_order(self.graph())[i]) + 1
                    == self.label(
                    processing_order(self.graph())[j],
                ));
            }
        }
        self.count
    }
}

} // verus!
