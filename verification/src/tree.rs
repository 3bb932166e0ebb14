//! Search trees recorded as parent links, and the paths read off them.

use vstd::prelude::*;
use crate::paths::{has_edge, is_walk};

verus! {

/// The parent links lead from every marked vertex other than `s` over an edge of the
/// graph to a marked vertex one level closer to `s`.
pub open spec fn parents_ok(
    a: Seq<Seq<usize>>,
    marked: Seq<bool>,
    edge_to: Seq<usize>,
    s: usize,
    depth: Seq<nat>,
) -> bool {
    &&& marked.len() == a.len()
    &&& edge_to.len() == a.len()
    &&& depth.len() == a.len()
    &&& s < a.len()
    &&& marked[s as int]
    &&& depth[s as int] == 0
    &&& forall|v: int|
        0 <= v < a.len() && marked[v] && v != s ==> {
            &&& (#[trigger] edge_to[v]) < a.len()
            &&& marked[edge_to[v] as int]
            &&& has_edge(a, edge_to[v], v as usize)
            &&& depth[v] == depth[edge_to[v] as int] + 1
        }
}

/// Entry `i` of `p` has an edge to the entry before it.
pub open spec fn back_link(a: Seq<Seq<usize>>, p: Seq<usize>, i: int) -> bool {
    has_edge(a, p[i], p[i - 1])
}

/// `p` leads from `v` back to `s`: read from the end it is a walk from `s` to `v`, and no
/// vertex occurs twice.
pub open spec fn is_route_back(a: Seq<Seq<usize>>, p: Seq<usize>, s: usize, v: usize) -> bool {
    &&& p.len() >= 1
    &&& p[0] == v
    &&& p.last() == s
    &&& is_walk(a, p.reverse())
    &&& p.no_duplicates()
}

/// Each entry of `p` but the last is followed by the vertex that `edge_to` has for it.
pub open spec fn follows(edge_to: Seq<usize>, p: Seq<usize>) -> bool {
    forall|i: int| 0 <= i < p.len() - 1 ==> p[i + 1] == edge_to[#[trigger] p[i] as int]
}

/// Follows the parent links from `v` to `s` and returns the vertices passed, `v` first.
pub fn trace_back(
    edge_to: &Vec<usize>,
    s: usize,
    v: usize,
    Ghost(a): Ghost<Seq<Seq<usize>>>,
    Ghost(marked): Ghost<Seq<bool>>,
    Ghost(depth): Ghost<Seq<nat>>,
) -> (path: Vec<usize>)
    requires
        parents_ok(a, marked, edge_to@, s, depth),
        v < a.len(),
        marked[v as int],
    ensures
        is_route_back(a, path@, s, v),
        follows(edge_to@, path@),
        path@.len() == depth[v as int] + 1,
{
    let mut path: Vec<usize> = Vec::new();
    let mut x = v;
    while x != s
        invariant
            parents_ok(a, marked, edge_to@, s, depth),
            v < a.len(),
            x < a.len(),
            marked[x as int],
            path@.len() + depth[x as int] == depth[v as int],
            forall|i: int|
                0 <= i < path@.len() ==> (#[trigger] path@[i]) < a.len() && depth[path@[i] as int]
                    == depth[v as int] - i,
            path@.len() == 0 ==> x == v,
            path@.len() > 0 ==> path@[0] == v && has_edge(a, x, path@.last()) && x
                == edge_to@[path@.last() as int],
            follows(edge_to@, path@),
            forall|i: int| 0 < i < path@.len() ==> #[trigger] back_link(a, path@, i),
        decreases depth[x as int],
    {
        let ghost before = path@;
        path.push(x);
        proof {
            assert forall|i: int| 0 < i < path@.len() implies #[trigger] back_link(a, path@, i) by {
                if i < before.len() {
                    assert(back_link(a, before, i));
                }
            }
            let up = edge_to@[x as int];
            assert(has_edge(a, up, x));
            assert forall|i: int| 0 <= i < path@.len() - 1 implies path@[i + 1]
                == edge_to@[#[trigger] path@[i] as int] by {
                if i < before.len() - 1 {
                    assert(before[i + 1] == edge_to@[before[i] as int]);
                }
            }
        }
        x = edge_to[x];
    }
    let ghost before = path@;
    path.push(s);
    proof {
        let p = path@;
        let r = p.reverse();
        assert forall|i: int| 0 <= i < p.len() - 1 implies p[i + 1]
            == edge_to@[#[trigger] p[i] as int] by {
            if i < before.len() - 1 {
                assert(before[i + 1] == edge_to@[before[i] as int]);
            }
        }
        assert forall|i: int| 0 < i < p.len() implies #[trigger] back_link(a, p, i) by {
            if i < before.len() {
                assert(back_link(a, before, i));
            }
        }
        assert forall|i: int| 0 <= i < r.len() - 1 implies has_edge(a, #[trigger] r[i], r[i + 1])
            by {
            assert(back_link(a, p, p.len() - 1 - i));
        }
        assert forall|i: int, k: int| 0 <= i < p.len() && 0 <= k < p.len() && i != k implies p[i]
            != p[k] by {
            assert(depth[p[i] as int] == depth[v as int] - i);
            assert(depth[p[k] as int] == depth[v as int] - k);
        }
    }
    path
}

} // verus!
