//! Bipartiteness of an undirected graph.

use vstd::prelude::*;
use crate::dfs::{chained, lemma_unmarked_set, progress_ok, stack_ok, unmarked};
use crate::graph::Graph;
use crate::paths::{closed, has_edge, in_bounds, lemma_edge_opposite, lists_view, symmetric};

verus! {

/// `c` gives the two ends of every edge different colours.
pub open spec fn proper_coloring(a: Seq<Seq<usize>>, c: Seq<bool>) -> bool {
    &&& c.len() == a.len()
    &&& forall|v: int, j: int|
        0 <= v < a.len() && 0 <= j < a[v].len() ==> c[v] != c[#[trigger] a[v][j] as int]
}

/// The vertices can be coloured with two colours so that no edge joins two of a colour.
pub open spec fn is_bipartite(a: Seq<Seq<usize>>) -> bool {
    exists|c: Seq<bool>| #[trigger] proper_coloring(a, c)
}

/// Every marked vertex other than the root of its tree has the colour opposite to that of
/// its parent, which is a marked neighbour one level up in the same tree.
pub open spec fn alternating(
    a: Seq<Seq<usize>>,
    marked: Seq<bool>,
    color: Seq<bool>,
    parent: Seq<usize>,
    root: Seq<usize>,
    depth: Seq<nat>,
) -> bool {
    &&& forall|v: int| 0 <= v < a.len() && marked[v] ==> (#[trigger] root[v]) < a.len()
    &&& forall|v: int|
        0 <= v < a.len() && marked[v] && root[v] != v ==> {
            &&& (#[trigger] parent[v]) < a.len()
            &&& marked[parent[v] as int]
            &&& has_edge(a, parent[v], v as usize)
            &&& root[parent[v] as int] == root[v]
            &&& depth[v] == depth[parent[v] as int] + 1
            &&& color[v] != color[parent[v] as int]
        }
}

/// Along the tree, a proper colouring agrees with the colours of the search everywhere
/// or nowhere.
proof fn lemma_parity(
    a: Seq<Seq<usize>>,
    marked: Seq<bool>,
    color: Seq<bool>,
    parent: Seq<usize>,
    root: Seq<usize>,
    depth: Seq<nat>,
    c: Seq<bool>,
    v: usize,
)
    requires
        alternating(a, marked, color, parent, root, depth),
        proper_coloring(a, c),
        v < a.len(),
        marked[v as int],
    ensures
        (c[v as int] == color[v as int]) == (c[root[v as int] as int]
            == color[root[v as int] as int]),
    decreases depth[v as int],
{
    if root[v as int] != v {
        let p = parent[v as int];
        lemma_parity(a, marked, color, parent, root, depth, c, p);
        let j = choose|j: int| 0 <= j < a[p as int].len() && a[p as int][j] == v;
        assert(c[p as int] != c[a[p as int][j] as int]);
    }
}

/// An edge between two vertices of one tree that have the same colour rules out every
/// proper colouring.
proof fn lemma_clash(
    a: Seq<Seq<usize>>,
    marked: Seq<bool>,
    color: Seq<bool>,
    parent: Seq<usize>,
    root: Seq<usize>,
    depth: Seq<nat>,
    v: usize,
    w: usize,
)
    requires
        alternating(a, marked, color, parent, root, depth),
        has_edge(a, v, w),
        marked[v as int],
        marked[w as int],
        root[v as int] == root[w as int],
        color[v as int] == color[w as int],
    ensures
        !is_bipartite(a),
{
    if is_bipartite(a) {
        let c = choose|c: Seq<bool>| #[trigger] proper_coloring(a, c);
        lemma_parity(a, marked, color, parent, root, depth, c, v);
        lemma_parity(a, marked, color, parent, root, depth, c, w);
        let j = choose|j: int| 0 <= j < a[v as int].len() && a[v as int][j] == w;
        assert(c[v as int] != c[a[v as int][j] as int]);
    }
}

/// The outcome of an attempt to colour an undirected graph with two colours.
pub struct TwoColor {
    marked: Vec<bool>,
    color: Vec<bool>,
    is_two_colorable: bool,
    next: Vec<usize>,
    stack: Vec<usize>,
    graph: Ghost<Seq<Seq<usize>>>,
    parent: Ghost<Seq<usize>>,
    root: Ghost<Seq<usize>>,
    depth: Ghost<Seq<nat>>,
    done: Ghost<Seq<bool>>,
    pos: Ghost<Seq<int>>,
}

impl TwoColor {
    /// The adjacency structure that was coloured.
    pub closed spec fn graph(&self) -> Seq<Seq<usize>> {
        self.graph@
    }

    /// The flag is set exactly when the graph is bipartite.
    pub closed spec fn wf(&self) -> bool {
        self.is_two_colorable == is_bipartite(self.graph@)
    }

    /// The state of the colouring while some vertices may still be on the stack.
    spec fn searching(&self) -> bool {
        let a = self.graph@;
        let n = a.len();
        &&& in_bounds(a)
        &&& symmetric(a)
        &&& self.marked@.len() == n
        &&& self.color@.len() == n
        &&& self.next@.len() == n
        &&& self.parent@.len() == n
        &&& self.root@.len() == n
        &&& self.depth@.len() == n
        &&& self.done@.len() == n
        &&& self.pos@.len() == n
        &&& progress_ok(a, self.marked@, self.next@)
        &&& forall|v: int| 0 <= v < n && !self.marked@[v] ==> (#[trigger] self.next@[v]) == 0
        &&& forall|v: int|
            0 <= v < n && #[trigger] self.done@[v] ==> self.marked@[v] && self.next@[v]
                == a[v].len()
        &&& stack_ok(a, self.marked@, self.done@, self.stack@, self.pos@)
        &&& alternating(a, self.marked@, self.color@, self.parent@, self.root@, self.depth@)
        &&& self.is_two_colorable ==> forall|v: int, j: int|
            0 <= v < n && 0 <= j < self.next@[v] ==> self.color@[v]
                != self.color@[#[trigger] a[v][j] as int]
        &&& !self.is_two_colorable ==> !is_bipartite(a)
    }

    /// Colours `g` tree by tree and notes whether two neighbours ever share a colour.
    pub fn new(g: &Graph) -> (c: TwoColor)
        requires
            g.wf(),
        ensures
            c.wf(),
            c.graph() == g@,
    {
        let lists = g.lists();
        let n = lists.len();
        let ghost a = g@;
        let mut marked: Vec<bool> = Vec::with_capacity(n);
        let mut color: Vec<bool> = Vec::with_capacity(n);
        let mut next: Vec<usize> = Vec::with_capacity(n);
        let mut i: usize = 0;
        while i < n
            invariant
                i <= n,
                marked@.len() == i,
                color@.len() == i,
                next@.len() == i,
                forall|k: int| 0 <= k < i ==> !(#[trigger] marked@[k]),
                forall|k: int| 0 <= k < i ==> (#[trigger] next@[k]) == 0,
            decreases n - i,
        {
            marked.push(false);
            color.push(false);
            next.push(0);
            i += 1;
        }
        let mut c = TwoColor {
            marked,
            color,
            is_two_colorable: true,
            next,
            stack: Vec::new(),
            graph: Ghost(a),
            parent: Ghost(Seq::new(n as nat, |k: int| 0usize)),
            root: Ghost(Seq::new(n as nat, |k: int| 0usize)),
            depth: Ghost(Seq::new(n as nat, |k: int| 0nat)),
            done: Ghost(Seq::new(n as nat, |k: int| false)),
            pos: Ghost(Seq::new(n as nat, |k: int| 0int)),
        };
        proof {
            g.lemma_wf();
        }
        let mut s: usize = 0;
        while s < n
            invariant
                a == lists_view(lists),
                a == c.graph@,
                n == a.len(),
                s <= n,
                c.searching(),
                c.stack@.len() == 0,
                forall|u: int| 0 <= u < s ==> #[trigger] c.marked@[u],
            decreases n - s,
        {
            if !c.marked[s] {
                c.dfs(lists, s);
            }
            s += 1;
        }
        proof {
            if c.is_two_colorable {
                assert forall|v: int, j: int| 0 <= v < n && 0 <= j < a[v].len() implies c.color@[v]
                    != c.color@[#[trigger] a[v][j] as int] by {
                    assert(c.marked@[v]);
                    assert(c.done@[v] || 0 <= c.pos@[v] < c.stack@.len());
                }
                assert(proper_coloring(a, c.color@));
            }
        }
        c
    }

    /// Colours the tree of the unmarked vertex `r`, giving every newly found vertex the
    /// colour opposite to that of the vertex it was found from.
    fn dfs(&mut self, lists: &Vec<Vec<usize>>, r: usize)
        requires
            old(self).searching(),
            old(self).stack@.len() == 0,
            lists_view(lists) == old(self).graph@,
            r < lists@.len(),
            !old(self).marked@[r as int],
        ensures
            final(self).graph@ == old(self).graph@,
            final(self).searching(),
            final(self).stack@.len() == 0,
            forall|u: int|
                0 <= u < lists@.len() && (old(self).marked@[u] || u == r)
                    ==> #[trigger] final(self).marked@[u],
    {
        let ghost a = self.graph@;
        let ghost before = *self;
        let n = lists.len();
        proof {
            lemma_unmarked_set(self.marked@, r as int);
            self.pos@ = self.pos@.update(r as int, 0);
            self.root@ = self.root@.update(r as int, r);
            self.depth@ = self.depth@.update(r as int, 0);
            assert(!self.done@[r as int]);
            assert forall|v: int, j: int|
                0 <= v < a.len() && 0 <= j < a[v].len() && before.marked@[v] implies
                    before.marked@[#[trigger] a[v][j] as int] by {
                assert(before.done@[v] || 0 <= before.pos@[v] < before.stack@.len());
            }
            assert(closed(a, before.marked@));
        }
        self.marked[r] = true;
        self.stack.push(r);
        while self.stack.len() > 0
            invariant
                a == lists_view(lists),
                a == self.graph@,
                n == a.len(),
                r < n,
                self.searching(),
                before.marked@.len() == n,
                closed(a, before.marked@),
                forall|u: int| 0 <= u < n && before.marked@[u] ==> #[trigger] self.done@[u],
                forall|u: int|
                    0 <= u < n && self.marked@[u] && !before.marked@[u] ==> #[trigger] self.root@[u]
                        == r,
                forall|u: int|
                    0 <= u < n && (before.marked@[u] || u == r) ==> #[trigger] self.marked@[u],
            decreases
                    unmarked(self.marked@),
                    self.stack@.len(),
                    (if self.stack@.len() > 0 {
                        a[self.stack@.last() as int].len() - self.next@[self.stack@.last() as int]
                    } else {
                        0
                    }),
        {
            let top = self.stack.len() - 1;
            let v = self.stack[top];
            let j = self.next[v];
            proof {
                assert(self.marked@[v as int]);
                assert(!self.done@[v as int]);
                assert(!before.marked@[v as int]);
                assert(self.root@[v as int] == r);
            }
            if j < lists[v].len() {
                let w = lists[v][j];
                assert(w == a[v as int][j as int]);
                assert(has_edge(a, v, w));
                self.next[v] = j + 1;
                if !self.marked[w] {
                    let ghost stack0 = self.stack@;
                    proof {
                        assert(!self.done@[w as int]);
                        assert(!before.marked@[w as int]);
                        lemma_unmarked_set(self.marked@, w as int);
                        self.pos@ = self.pos@.update(w as int, self.stack@.len() as int);
                        self.parent@ = self.parent@.update(w as int, v);
                        self.root@ = self.root@.update(w as int, r);
                        self.depth@ = self.depth@.update(w as int, self.depth@[v as int] + 1);
                    }
                    let shade = !self.color[v];
                    self.marked[w] = true;
                    self.color[w] = shade;
                    self.stack.push(w);
                    proof {
                        assert forall|k: int| 0 < k < self.stack@.len() implies #[trigger] chained(
                            a,
                            self.stack@,
                            k,
                        ) by {
                            if k < stack0.len() {
                                assert(chained(a, stack0, k));
                            }
                        }
                    }
                } else if self.color[v] == self.color[w] {
                    proof {
                        if before.marked@[w as int] {
                            lemma_edge_opposite(a, v, w);
                            let jj = choose|jj: int|
                                0 <= jj < a[w as int].len() && a[w as int][jj] == v;
                            assert(before.marked@[a[w as int][jj] as int]);
                        }
                        assert(self.root@[w as int] == r);
                        lemma_clash(
                            a,
                            self.marked@,
                            self.color@,
                            self.parent@,
                            self.root@,
                            self.depth@,
                            v,
                            w,
                        );
                    }
                    self.is_two_colorable = false;
                }
            } else {
                let ghost stack0 = self.stack@;
                proof {
                    self.done@ = self.done@.update(v as int, true);
                }
                self.stack.pop();
                proof {
                    assert(self.stack@ =~= stack0.drop_last());
                    assert forall|k: int| 0 < k < self.stack@.len() implies #[trigger] chained(
                        a,
                        self.stack@,
                        k,
                    ) by {
                        assert(chained(a, stack0, k));
                    }
                }
            }
        }
    }

    /// Whether the graph is bipartite.
    pub fn is_bipartite(&self) -> (r: bool)
        requires
            self.wf(),
        ensures
            r == is_bipartite(self.graph()),
    {
        self.is_two_colorable
    }
}

} // verus!
