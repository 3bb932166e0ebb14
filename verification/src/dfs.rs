//! Depth-first exploration with an explicit stack.
//!
//! A [`Forest`] explores a graph tree by tree. The neighbours of a vertex are examined in
//! list order and an unvisited neighbour is explored completely before the next one is
//! looked at, so the visiting order is that of the recursive formulation while the native
//! call stack stays flat.

use vstd::prelude::*;
use crate::paths::{
    closed, has_edge, in_bounds, is_walk, lemma_closed_reachable, lemma_reachable_self,
    lemma_reachable_step, lemma_reachable_trans, lemma_walk_take, lists_view, mutual, reachable,
};

verus! {

/// Number of `false` entries.
pub open spec fn unmarked(m: Seq<bool>) -> nat
    decreases m.len(),
{
    if m.len() == 0 {
        0
    } else {
        unmarked(m.drop_last()) + if m.last() {
            0nat
        } else {
            1nat
        }
    }
}

/// Marking an unmarked entry leaves one entry fewer unmarked.
pub proof fn lemma_unmarked_set(m: Seq<bool>, i: int)
    requires
        0 <= i < m.len(),
        !m[i],
    ensures
        unmarked(m.update(i, true)) + 1 == unmarked(m),
    decreases m.len(),
{
    let m2 = m.update(i, true);
    if i == m.len() - 1 {
        assert(m2.drop_last() =~= m.drop_last());
    } else {
        assert(m2.drop_last() =~= m.drop_last().update(i, true));
        lemma_unmarked_set(m.drop_last(), i);
    }
}

/// Where nothing is marked, every entry is unmarked.
pub proof fn lemma_unmarked_all(m: Seq<bool>)
    requires
        forall|i: int| 0 <= i < m.len() ==> !m[i],
    ensures
        unmarked(m) == m.len(),
    decreases m.len(),
{
    if m.len() > 0 {
        lemma_unmarked_all(m.drop_last());
    }
}

/// Where everything is marked, no entry is unmarked.
pub proof fn lemma_unmarked_none(m: Seq<bool>)
    requires
        forall|i: int| 0 <= i < m.len() ==> m[i],
    ensures
        unmarked(m) == 0,
    decreases m.len(),
{
    if m.len() > 0 {
        lemma_unmarked_none(m.drop_last());
    }
}

/// What a depth-first traversal has recorded: the marks, for each vertex the vertex it
/// was found from, and the vertices in the order of entering and of leaving them.
pub struct Trace {
    pub marked: Seq<bool>,
    pub edge_to: Seq<usize>,
    pub pre: Seq<usize>,
    pub post: Seq<usize>,
}

/// The record for `n` vertices before anything is visited.
pub open spec fn blank(n: nat) -> Trace {
    Trace {
        marked: Seq::new(n, |v: int| false),
        edge_to: Seq::new(n, |v: int| 0usize),
        pre: Seq::empty(),
        post: Seq::empty(),
    }
}

/// The record after `v` is entered.
pub open spec fn enter(t: Trace, v: usize) -> Trace {
    Trace { marked: t.marked.update(v as int, true), pre: t.pre.push(v), ..t }
}

/// The record after `v` is left.
pub open spec fn leave(t: Trace, v: usize) -> Trace {
    Trace { post: t.post.push(v), ..t }
}

/// The record after `w` is found from `v`.
pub open spec fn found(t: Trace, v: usize, w: usize) -> Trace {
    Trace { edge_to: t.edge_to.update(w as int, v), ..t }
}

/// The record after the unmarked vertex `v` is visited: it is entered, its neighbours
/// are examined in list order, each unmarked one being visited in turn, and it is left.
pub open spec fn visit(a: Seq<Seq<usize>>, t: Trace, v: usize) -> Trace
    decreases unmarked(t.marked), 0int,
{
    if v < t.marked.len() && !t.marked[v as int] {
        proof {
            lemma_unmarked_set(t.marked, v as int);
        }
        leave(scan(a, enter(t, v), v, 0), v)
    } else {
        t
    }
}

/// The record after the neighbours of `v` from position `j` on are examined.
pub open spec fn scan(a: Seq<Seq<usize>>, t: Trace, v: usize, j: int) -> Trace
    decreases unmarked(t.marked), a[v as int].len() - j + 1,
{
    if v < a.len() && 0 <= j < a[v as int].len() {
        let w = a[v as int][j];
        let t2 = if w < t.marked.len() && !t.marked[w as int] {
            visit(a, found(t, v, w), w)
        } else {
            t
        };
        // visiting only adds marks, so this holds always; it is asked for to show that
        // the examination comes to an end
        if unmarked(t2.marked) <= unmarked(t.marked) {
            scan(a, t2, v, j + 1)
        } else {
            t2
        }
    } else {
        t
    }
}

/// The record after the unmarked vertices below `upto` are visited in ascending order.
pub open spec fn sweep(a: Seq<Seq<usize>>, t: Trace, upto: nat) -> Trace
    decreases upto,
{
    if upto == 0 {
        t
    } else {
        visit(a, sweep(a, t, (upto - 1) as nat), (upto - 1) as usize)
    }
}

/// The record of the depth-first traversal of a whole graph, a new tree being started at
/// the smallest vertex not yet visited.
pub open spec fn depth_first(a: Seq<Seq<usize>>) -> Trace {
    sweep(a, blank(a.len()), a.len())
}

/// The record after the work on the vertices of `stack` is finished, the topmost first:
/// the rest of the neighbours of each is examined, from the position that `next` has for
/// it, and it is left.
pub open spec fn resume(a: Seq<Seq<usize>>, t: Trace, next: Seq<usize>, stack: Seq<usize>) -> Trace
    decreases stack.len(),
{
    if stack.len() == 0 {
        t
    } else {
        let v = stack.last();
        resume(a, leave(scan(a, t, v, next[v as int] as int), v), next, stack.drop_last())
    }
}

/// Fewer marks are missing from a sequence that has every mark of another.
pub proof fn lemma_unmarked_le(m1: Seq<bool>, m2: Seq<bool>)
    requires
        m1.len() == m2.len(),
        forall|i: int| 0 <= i < m1.len() && m1[i] ==> m2[i],
    ensures
        unmarked(m2) <= unmarked(m1),
    decreases m1.len(),
{
    if m1.len() > 0 {
        lemma_unmarked_le(m1.drop_last(), m2.drop_last());
    }
}

/// Visiting keeps every mark and the number of vertices.
pub proof fn lemma_visit_grows(a: Seq<Seq<usize>>, t: Trace, v: usize)
    ensures
        visit(a, t, v).marked.len() == t.marked.len(),
        forall|i: int| 0 <= i < t.marked.len() && t.marked[i] ==> visit(a, t, v).marked[i],
        unmarked(visit(a, t, v).marked) <= unmarked(t.marked),
    decreases unmarked(t.marked), 0int,
{
    let r = visit(a, t, v);
    if v < t.marked.len() && !t.marked[v as int] {
        lemma_unmarked_set(t.marked, v as int);
        lemma_scan_grows(a, enter(t, v), v, 0);
        let inner = scan(a, enter(t, v), v, 0);
        assert(r.marked == inner.marked);
        assert forall|i: int| 0 <= i < t.marked.len() && t.marked[i] implies r.marked[i] by {
            assert(enter(t, v).marked[i]);
        }
    }
    lemma_unmarked_le(t.marked, r.marked);
}

/// Examining neighbours keeps every mark and the number of vertices.
pub proof fn lemma_scan_grows(a: Seq<Seq<usize>>, t: Trace, v: usize, j: int)
    ensures
        scan(a, t, v, j).marked.len() == t.marked.len(),
        forall|i: int| 0 <= i < t.marked.len() && t.marked[i] ==> scan(a, t, v, j).marked[i],
        unmarked(scan(a, t, v, j).marked) <= unmarked(t.marked),
    decreases unmarked(t.marked), a[v as int].len() - j + 1,
{
    if v < a.len() && 0 <= j < a[v as int].len() {
        let w = a[v as int][j];
        let t2 = if w < t.marked.len() && !t.marked[w as int] {
            visit(a, found(t, v, w), w)
        } else {
            t
        };
        if w < t.marked.len() && !t.marked[w as int] {
            lemma_visit_grows(a, found(t, v, w), w);
        }
        lemma_scan_grows(a, t2, v, j + 1);
        let r = scan(a, t, v, j);
        assert(r == scan(a, t2, v, j + 1));
        assert forall|i: int| 0 <= i < t.marked.len() && t.marked[i] implies r.marked[i] by {
            assert(t2.marked[i]);
        }
    }
    lemma_unmarked_le(t.marked, scan(a, t, v, j).marked);
}

/// Examining the neighbour at `j` is visiting it, if it is unmarked, and examining the
/// rest of the neighbours then.
pub proof fn lemma_scan_step(a: Seq<Seq<usize>>, t: Trace, v: usize, j: int)
    requires
        v < a.len(),
        0 <= j < a[v as int].len(),
    ensures
        scan(a, t, v, j) == scan(
            a,
            if a[v as int][j] < t.marked.len() && !t.marked[a[v as int][j] as int] {
                visit(a, found(t, v, a[v as int][j]), a[v as int][j])
            } else {
                t
            },
            v,
            j + 1,
        ),
{
    let w = a[v as int][j];
    if w < t.marked.len() && !t.marked[w as int] {
        lemma_visit_grows(a, found(t, v, w), w);
    }
}

/// The position recorded for a vertex that is not on the stack does not matter.
pub proof fn lemma_resume_next(
    a: Seq<Seq<usize>>,
    t: Trace,
    next: Seq<usize>,
    stack: Seq<usize>,
    v: usize,
    j: usize,
)
    requires
        v < next.len(),
        forall|k: int| 0 <= k < stack.len() ==> (#[trigger] stack[k]) < next.len() && stack[k] != v,
    ensures
        resume(a, t, next.update(v as int, j), stack) == resume(a, t, next, stack),
    decreases stack.len(),
{
    if stack.len() > 0 {
        let u = stack.last();
        assert(stack[stack.len() - 1] != v);
        assert forall|k: int| 0 <= k < stack.drop_last().len() implies
            (#[trigger] stack.drop_last()[k])
            < next.len() && stack.drop_last()[k] != v by {
            assert(stack.drop_last()[k] == stack[k]);
        }
        lemma_resume_next(a, leave(scan(a, t, u, next[u as int] as int), u), next,
            stack.drop_last(), v, j);
        assert(next.update(v as int, j)[u as int] == next[u as int]);
    }
}

/// What remains to be done when only `v` is on the stack.
pub proof fn lemma_resume_one(a: Seq<Seq<usize>>, t: Trace, next: Seq<usize>, v: usize)
    ensures
        resume(a, t, next, seq![v]) == leave(scan(a, t, v, next[v as int] as int), v),
{
    assert(seq![v].drop_last() =~= Seq::<usize>::empty());
    assert(seq![v].last() == v);
    reveal_with_fuel(resume, 2);
}

/// For every vertex, the neighbours examined so far are marked.
pub open spec fn progress_ok(a: Seq<Seq<usize>>, marked: Seq<bool>, next: Seq<usize>) -> bool {
    &&& forall|v: int| 0 <= v < a.len() ==> (#[trigger] next[v]) <= a[v].len()
    &&& forall|v: int, j: int|
        0 <= v < a.len() && 0 <= j < next[v] ==> marked[#[trigger] a[v][j] as int]
}

/// Every marked vertex hangs in a tree below its root: it is the root itself, at depth 0,
/// or it was discovered over an edge from a marked vertex of the same tree, one level up
/// and earlier in the order of discovery.
pub open spec fn tree_ok(
    a: Seq<Seq<usize>>,
    marked: Seq<bool>,
    edge_to: Seq<usize>,
    root: Seq<usize>,
    depth: Seq<nat>,
    pre_at: Seq<int>,
) -> bool {
    &&& forall|v: int|
        0 <= v < a.len() && marked[v] ==> {
            &&& (#[trigger] root[v]) < a.len()
            &&& reachable(a, root[v], v as usize)
            &&& (root[v] == v ==> depth[v] == 0)
        }
    &&& forall|v: int|
        0 <= v < a.len() && marked[v] && root[v] != v ==> {
            &&& (#[trigger] edge_to[v]) < a.len()
            &&& marked[edge_to[v] as int]
            &&& has_edge(a, edge_to[v], v as usize)
            &&& root[edge_to[v] as int] == root[v]
            &&& depth[v] == depth[edge_to[v] as int] + 1
            &&& pre_at[edge_to[v] as int] < pre_at[v]
        }
}

/// `list` names every member exactly once, and `at` tells where.
pub open spec fn listing_ok(list: Seq<usize>, member: Seq<bool>, at: Seq<int>) -> bool {
    &&& forall|v: int|
        0 <= v < member.len() && #[trigger] member[v] ==> 0 <= at[v] < list.len() && list[at[v]]
            == v
    &&& forall|k: int|
        0 <= k < list.len() ==> (#[trigger] list[k]) < member.len() && member[list[k] as int]
            && at[list[k] as int] == k
}

/// Every edge that leaves a finished vertex leads to a vertex that finished earlier, or
/// to one from which the finished vertex can be reached.
pub open spec fn post_ok(a: Seq<Seq<usize>>, done: Seq<bool>, post_at: Seq<int>) -> bool {
    forall|v: int, j: int|
        0 <= v < a.len() && done[v] && 0 <= j < a[v].len() ==> {
            let w = #[trigger] a[v][j];
            (done[w as int] && post_at[w as int] < post_at[v]) || reachable(a, w, v as usize)
        }
}

/// Whatever `u` reaches has finished no later than some finished vertex that `u` can
/// reach and be reached from, unless such a vertex is still unfinished.
pub open spec fn outlived(
    a: Seq<Seq<usize>>,
    marked: Seq<bool>,
    done: Seq<bool>,
    post_at: Seq<int>,
    u: usize,
    y: usize,
) -> bool {
    ||| exists|g: usize|
        g < a.len() && #[trigger] mutual(a, u, g) && done[g as int] && y < a.len() && done[y as int]
            && post_at[y as int] <= post_at[g as int]
    ||| exists|g: usize| g < a.len() && #[trigger] mutual(a, u, g) && marked[g as int]
        && !done[g as int]
}

/// Every finished vertex is outlived with respect to everything it reaches.
pub open spec fn returns_ok(
    a: Seq<Seq<usize>>,
    marked: Seq<bool>,
    done: Seq<bool>,
    post_at: Seq<int>,
) -> bool {
    forall|u: usize, y: usize|
        u < a.len() && done[u as int] && reachable(a, u, y) ==> #[trigger] outlived(
            a,
            marked,
            done,
            post_at,
            u,
            y,
        )
}

/// Entry `k` of the stack was reached over an edge from the entry below it.
pub open spec fn chained(a: Seq<Seq<usize>>, stack: Seq<usize>, k: int) -> bool {
    has_edge(a, stack[k - 1], stack[k])
}

/// Entry `k` of the stack was discovered from the entry below it.
pub open spec fn linked(edge_to: Seq<usize>, stack: Seq<usize>, k: int) -> bool {
    edge_to[stack[k] as int] == stack[k - 1]
}

/// The stack holds the unfinished marked vertices, each once, each reached over an edge
/// from the one below it.
pub open spec fn stack_ok(
    a: Seq<Seq<usize>>,
    marked: Seq<bool>,
    done: Seq<bool>,
    stack: Seq<usize>,
    pos: Seq<int>,
) -> bool {
    &&& forall|k: int|
        0 <= k < stack.len() ==> (#[trigger] stack[k]) < a.len() && marked[stack[k] as int]
            && !done[stack[k] as int] && pos[stack[k] as int] == k
    &&& forall|v: int|
        0 <= v < a.len() && marked[v] && !#[trigger] done[v] ==> 0 <= pos[v] < stack.len()
            && stack[pos[v]] == v
    &&& forall|k: int| 0 < k < stack.len() ==> #[trigger] chained(a, stack, k)
}

/// Every vertex on the stack reaches the vertices above it.
pub proof fn lemma_stack_reaches(
    a: Seq<Seq<usize>>,
    marked: Seq<bool>,
    done: Seq<bool>,
    stack: Seq<usize>,
    pos: Seq<int>,
    lo: int,
    hi: int,
)
    requires
        stack_ok(a, marked, done, stack, pos),
        0 <= lo <= hi < stack.len(),
    ensures
        reachable(a, stack[lo], stack[hi]),
    decreases hi - lo,
{
    if lo == hi {
        lemma_reachable_self(a, stack[lo]);
    } else {
        lemma_stack_reaches(a, marked, done, stack, pos, lo, hi - 1);
        assert(chained(a, stack, hi));
        lemma_reachable_step(a, stack[lo], stack[hi - 1], stack[hi]);
    }
}

/// Marking more vertices keeps every finished vertex outlived.
pub proof fn lemma_returns_grow(
    a: Seq<Seq<usize>>,
    marked: Seq<bool>,
    done: Seq<bool>,
    post_at: Seq<int>,
    marked2: Seq<bool>,
)
    requires
        returns_ok(a, marked, done, post_at),
        marked.len() == a.len(),
        marked2.len() == a.len(),
        forall|v: int| 0 <= v < a.len() && marked[v] ==> #[trigger] marked2[v],
    ensures
        returns_ok(a, marked2, done, post_at),
{
    assert forall|u: usize, y: usize|
        u < a.len() && done[u as int] && reachable(a, u, y) implies #[trigger] outlived(
        a,
        marked2,
        done,
        post_at,
        u,
        y,
    ) by {
        assert(outlived(a, marked, done, post_at, u, y));
        if exists|g: usize|
            g < a.len() && #[trigger] mutual(a, u, g) && marked[g as int] && !done[g as int] {
            let g = choose|g: usize|
                g < a.len() && #[trigger] mutual(a, u, g) && marked[g as int] && !done[g as int];
            assert(marked2[g as int]);
        }
    }
}

/// When the top of the stack `v` finishes at time `t`, a walk from `v` stays among
/// finished vertices, or it meets a vertex lower on the stack.
pub proof fn lemma_walk_settles(
    a: Seq<Seq<usize>>,
    marked: Seq<bool>,
    done: Seq<bool>,
    next: Seq<usize>,
    stack: Seq<usize>,
    pos: Seq<int>,
    post_at: Seq<int>,
    v: usize,
    t: int,
    q: Seq<usize>,
    i: int,
)
    requires
        in_bounds(a),
        marked.len() == a.len(),
        done.len() == a.len(),
        next.len() == a.len(),
        pos.len() == a.len(),
        post_at.len() == a.len(),
        progress_ok(a, marked, next),
        stack_ok(a, marked, done, stack, pos),
        stack.len() > 0,
        v == stack.last(),
        next[v as int] == a[v as int].len(),
        forall|x: int|
            0 <= x < a.len() && #[trigger] done[x] ==> marked[x] && next[x] == a[x].len()
                && post_at[x]
                < t,
        is_walk(a, q),
        q[0] == v,
        0 <= i < q.len(),
    ensures
        q[i] < a.len(),
        (done.update(v as int, true)[q[i] as int] && post_at.update(v as int, t)[q[i] as int] <= t)
            || (exists|g: usize|
            g < a.len() && #[trigger] mutual(a, v, g) && marked[g as int] && !done.update(
                v as int,
                true,
            )[g as int]),
    decreases i,
{
    let top = stack.len() - 1;
    assert(stack[top] == v);
    if i > 0 {
        lemma_walk_settles(a, marked, done, next, stack, pos, post_at, v, t, q, i - 1);
        assert(has_edge(a, q[i - 1], q[i - 1 + 1]));
        let x = q[i - 1];
        let y = q[i];
        if done.update(v as int, true)[x as int] {
            let j = choose|j: int| 0 <= j < a[x as int].len() && a[x as int][j] == y;
            assert(next[x as int] == a[x as int].len());
            assert(marked[a[x as int][j] as int]);
            if y != v && !done[y as int] {
                let k = pos[y as int];
                assert(stack[k] == y);
                lemma_stack_reaches(a, marked, done, stack, pos, k, top);
                lemma_walk_take(a, q, i);
                assert(is_walk(a, q.take(i + 1)));
                assert(q.take(i + 1)[0] == v && q.take(i + 1).last() == y);
                assert(mutual(a, v, y));
            }
        }
    }
}

/// Finishing the top of the stack keeps every finished vertex outlived.
pub proof fn lemma_returns_pop(
    a: Seq<Seq<usize>>,
    marked: Seq<bool>,
    done: Seq<bool>,
    next: Seq<usize>,
    stack: Seq<usize>,
    pos: Seq<int>,
    post_at: Seq<int>,
    v: usize,
    t: int,
)
    requires
        in_bounds(a),
        marked.len() == a.len(),
        done.len() == a.len(),
        next.len() == a.len(),
        pos.len() == a.len(),
        post_at.len() == a.len(),
        progress_ok(a, marked, next),
        stack_ok(a, marked, done, stack, pos),
        stack.len() > 0,
        v == stack.last(),
        next[v as int] == a[v as int].len(),
        forall|x: int|
            0 <= x < a.len() && #[trigger] done[x] ==> marked[x] && next[x] == a[x].len()
                && post_at[x]
                < t,
        returns_ok(a, marked, done, post_at),
    ensures
        returns_ok(a, marked, done.update(v as int, true), post_at.update(v as int, t)),
{
    let done2 = done.update(v as int, true);
    let post2 = post_at.update(v as int, t);
    let top = stack.len() - 1;
    assert(stack[top] == v);
    assert(!done[v as int]);
    lemma_reachable_self(a, v);
    assert forall|u: usize, y: usize|
        u < a.len() && done2[u as int] && reachable(a, u, y) implies #[trigger] outlived(
        a,
        marked,
        done2,
        post2,
        u,
        y,
    ) by {
        // does the pair rest on `v`, which finishes now?
        let through_v = if u == v {
            true
        } else {
            assert(outlived(a, marked, done, post_at, u, y));
            if exists|g: usize|
                g < a.len() && #[trigger] mutual(a, u, g) && done[g as int] && y < a.len()
                    && done[y as int] && post_at[y as int] <= post_at[g as int] {
                let g = choose|g: usize|
                    g < a.len() && #[trigger] mutual(a, u, g) && done[g as int] && y < a.len()
                        && done[y as int] && post_at[y as int] <= post_at[g as int];
                assert(mutual(a, u, g) && done2[g as int] && done2[y as int] && post2[y as int]
                    <= post2[g as int]);
                false
            } else {
                let g = choose|g: usize|
                    g < a.len() && #[trigger] mutual(a, u, g) && marked[g as int]
                        && !done[g as int];
                if g != v {
                    assert(mutual(a, u, g) && marked[g as int] && !done2[g as int]);
                    false
                } else {
                    true
                }
            }
        };
        if through_v {
            assert(mutual(a, u, v));
            lemma_reachable_trans(a, v, u, y);
            let q = choose|q: Seq<usize>| #[trigger] is_walk(a, q) && q[0] == v && q.last() == y;
            lemma_walk_settles(a, marked, done, next, stack, pos, post_at, v, t, q, q.len() - 1);
            if done2[y as int] && post2[y as int] <= t {
                assert(mutual(a, u, v) && done2[v as int] && post2[y as int] <= post2[v as int]);
            } else {
                let g = choose|g: usize|
                    g < a.len() && #[trigger] mutual(a, v, g) && marked[g as int]
                        && !done2[g as int];
                lemma_reachable_trans(a, u, v, g);
                lemma_reachable_trans(a, g, v, u);
                assert(mutual(a, u, g) && marked[g as int] && !done2[g as int]);
            }
        }
    }
}

/// Passing over a marked neighbour does not change what remains to be done.
pub proof fn lemma_resume_skip(a: Seq<Seq<usize>>, t: Trace, next: Seq<usize>, stack: Seq<usize>)
    requires
        stack.len() > 0,
        stack.last() < a.len(),
        next.len() == a.len(),
        next[stack.last() as int] < a[stack.last() as int].len(),
        next[stack.last() as int] < usize::MAX,
        ({
            let w = a[stack.last() as int][next[stack.last() as int] as int];
            w < t.marked.len() && t.marked[w as int]
        }),
        forall|k: int|
            0 <= k < stack.len() - 1 ==> (#[trigger] stack[k]) < a.len() && stack[k]
                != stack.last(),
    ensures
        resume(
            a,
            t,
            next.update(stack.last() as int, (next[stack.last() as int] + 1) as usize),
            stack,
        ) == resume(a, t, next, stack),
{
    let v = stack.last();
    let j = next[v as int];
    let next2 = next.update(v as int, (j + 1) as usize);
    assert forall|k: int| 0 <= k < stack.drop_last().len() implies (#[trigger] stack.drop_last()[k])
        < next.len() && stack.drop_last()[k] != v by {
        assert(stack.drop_last()[k] == stack[k]);
    }
    lemma_resume_next(a, leave(scan(a, t, v, j + 1), v), next, stack.drop_last(), v,
        (j + 1) as usize);
    lemma_scan_step(a, t, v, j as int);
    assert(next2[v as int] == j + 1);
}

/// Going down to an unmarked neighbour does not change what remains to be done.
pub proof fn lemma_resume_discover(
    a: Seq<Seq<usize>>,
    t: Trace,
    next: Seq<usize>,
    stack: Seq<usize>,
    w: usize,
)
    requires
        stack.len() > 0,
        stack.last() < a.len(),
        next.len() == a.len(),
        t.marked.len() == a.len(),
        next[stack.last() as int] < a[stack.last() as int].len(),
        w == a[stack.last() as int][next[stack.last() as int] as int],
        w < a.len(),
        !t.marked[w as int],
        next[w as int] == 0,
        next[stack.last() as int] < usize::MAX,
        forall|k: int|
            0 <= k < stack.len() - 1 ==> (#[trigger] stack[k]) < a.len() && stack[k]
                != stack.last(),
        w != stack.last(),
    ensures
        resume(
            a,
            enter(found(t, stack.last(), w), w),
            next.update(stack.last() as int, (next[stack.last() as int] + 1) as usize),
            stack.push(w),
        ) == resume(a, t, next, stack),
{
    let v = stack.last();
    let j = next[v as int];
    let next2 = next.update(v as int, (j + 1) as usize);
    let below = visit(a, found(t, v, w), w);
    lemma_visit_grows(a, found(t, v, w), w);
    assert(stack.push(w).drop_last() =~= stack);
    assert(stack.push(w).last() == w);
    assert(next2[w as int] == 0);
    assert(next2[v as int] == j + 1);
    // the work on `w` is the visit of `w`
    assert(leave(scan(a, enter(found(t, v, w), w), w, 0), w) == below);
    // after it, the work on `v` goes on behind `w`
    assert(scan(a, t, v, j as int) == scan(a, below, v, j + 1));
    assert forall|k: int| 0 <= k < stack.drop_last().len() implies (#[trigger] stack.drop_last()[k])
        < next.len() && stack.drop_last()[k] != v by {
        assert(stack.drop_last()[k] == stack[k]);
    }
    lemma_resume_next(a, leave(scan(a, below, v, j + 1), v), next, stack.drop_last(), v,
        (j + 1) as usize);
    let start = enter(found(t, v, w), w);
    assert(resume(a, start, next2, stack.push(w)) == resume(
        a,
        leave(scan(a, start, w, next2[w as int] as int), w),
        next2,
        stack.push(w).drop_last(),
    ));
    assert(resume(a, below, next2, stack) == resume(
        a,
        leave(scan(a, below, v, next2[v as int] as int), v),
        next2,
        stack.drop_last(),
    ));
    assert(resume(a, t, next, stack) == resume(
        a,
        leave(scan(a, t, v, next[v as int] as int), v),
        next,
        stack.drop_last(),
    ));
}

/// Leaving a vertex whose neighbours have all been examined is what remains to be done
/// for it.
pub proof fn lemma_resume_leave(a: Seq<Seq<usize>>, t: Trace, next: Seq<usize>, stack: Seq<usize>)
    requires
        stack.len() > 0,
        stack.last() < a.len(),
        next.len() == a.len(),
        next[stack.last() as int] == a[stack.last() as int].len(),
    ensures
        resume(a, leave(t, stack.last()), next, stack.drop_last()) == resume(a, t, next, stack),
{
    let v = stack.last();
    assert(scan(a, t, v, next[v as int] as int) == t);
}

/// The state of a depth-first exploration between two trees.
pub struct Forest {
    pub marked: Vec<bool>,
    pub edge_to: Vec<usize>,
    pub next: Vec<usize>,
    pub stack: Vec<usize>,
    pub pre: Vec<usize>,
    pub post: Vec<usize>,
    pub root: Ghost<Seq<usize>>,
    pub depth: Ghost<Seq<nat>>,
    pub pre_at: Ghost<Seq<int>>,
    pub post_at: Ghost<Seq<int>>,
}

impl Forest {
    /// What has been recorded so far.
    pub open spec fn trace(&self) -> Trace {
        Trace { marked: self.marked@, edge_to: self.edge_to@, pre: self.pre@, post: self.post@ }
    }

    /// Every tree begun so far has been explored to the end.
    pub open spec fn settled(&self, a: Seq<Seq<usize>>) -> bool {
        &&& in_bounds(a)
        &&& self.marked@.len() == a.len()
        &&& self.edge_to@.len() == a.len()
        &&& self.next@.len() == a.len()
        &&& self.root@.len() == a.len()
        &&& self.depth@.len() == a.len()
        &&& self.pre_at@.len() == a.len()
        &&& self.post_at@.len() == a.len()
        &&& self.stack@.len() == 0
        &&& progress_ok(a, self.marked@, self.next@)
        &&& forall|v: int| 0 <= v < a.len() && #[trigger] self.marked@[v] ==> self.next@[v]
            == a[v].len()
        &&& forall|v: int| 0 <= v < a.len() && !self.marked@[v] ==> (#[trigger] self.next@[v]) == 0
        &&& tree_ok(a, self.marked@, self.edge_to@, self.root@, self.depth@, self.pre_at@)
        &&& listing_ok(self.pre@, self.marked@, self.pre_at@)
        &&& listing_ok(self.post@, self.marked@, self.post_at@)
        &&& post_ok(a, self.marked@, self.post_at@)
        &&& returns_ok(a, self.marked@, self.marked@, self.post_at@)
    }

    /// Between two trees no edge leaves the set of marked vertices.
    pub proof fn lemma_settled_closed(&self, a: Seq<Seq<usize>>)
        requires
            self.settled(a),
        ensures
            closed(a, self.marked@),
    {
        assert forall|v: int, j: int|
            0 <= v < a.len() && 0 <= j < a[v].len() && self.marked@[v] implies
                self.marked@[#[trigger] a[v][j] as int] by {
            assert(self.next@[v] == a[v].len());
        }
    }

    /// Nothing has been explored yet.
    pub open spec fn fresh(&self, n: nat) -> bool {
        &&& self.marked@.len() == n
        &&& self.edge_to@.len() == n
        &&& self.next@.len() == n
        &&& self.root@.len() == n
        &&& self.depth@.len() == n
        &&& self.pre_at@.len() == n
        &&& self.post_at@.len() == n
        &&& self.stack@.len() == 0
        &&& self.pre@.len() == 0
        &&& self.post@.len() == 0
        &&& forall|v: int| 0 <= v < n ==> !(#[trigger] self.marked@[v])
        &&& forall|v: int| 0 <= v < n ==> (#[trigger] self.next@[v]) == 0
        &&& self.trace() == blank(n)
    }

    /// A forest in which nothing is explored is settled for every graph of its size.
    pub proof fn lemma_fresh_settled(&self, a: Seq<Seq<usize>>)
        requires
            self.fresh(a.len()),
            in_bounds(a),
        ensures
            self.settled(a),
    {
    }

    /// A forest over `n` vertices with nothing explored.
    pub fn new(n: usize) -> (f: Forest)
        ensures
            f.fresh(n as nat),
    {
        let mut marked: Vec<bool> = Vec::with_capacity(n);
        let mut edge_to: Vec<usize> = Vec::with_capacity(n);
        let mut next: Vec<usize> = Vec::with_capacity(n);
        let mut i: usize = 0;
        while i < n
            invariant
                i <= n,
                marked@.len() == i,
                edge_to@.len() == i,
                next@.len() == i,
                forall|k: int| 0 <= k < i ==> !marked@[k] && next@[k] == 0 && edge_to@[k] == 0,
            decreases n - i,
        {
            marked.push(false);
            edge_to.push(0);
            next.push(0);
            i += 1;
        }
        proof {
            assert(marked@ =~= blank(n as nat).marked);
            assert(edge_to@ =~= blank(n as nat).edge_to);
        }
        Forest {
            marked,
            edge_to,
            next,
            stack: Vec::new(),
            pre: Vec::new(),
            post: Vec::new(),
            root: Ghost(Seq::new(n as nat, |k: int| 0usize)),
            depth: Ghost(Seq::new(n as nat, |k: int| 0nat)),
            pre_at: Ghost(Seq::new(n as nat, |k: int| 0int)),
            post_at: Ghost(Seq::new(n as nat, |k: int| 0int)),
        }
    }

    /// Explores the tree of everything that can be reached from the unmarked vertex `r`
    /// without passing through a vertex marked before.
    pub fn explore(&mut self, lists: &Vec<Vec<usize>>, r: usize)
        requires
            old(self).settled(lists_view(lists)),
            r < lists@.len(),
            !old(self).marked@[r as int],
        ensures
            final(self).settled(lists_view(lists)),
            final(self).trace() == visit(lists_view(lists), old(self).trace(), r),
            forall|v: int|
                0 <= v < lists@.len() ==> #[trigger] final(self).marked@[v] == (old(self).marked@[v]
                    || reachable(lists_view(lists), r, v as usize)),
            forall|v: int|
                0 <= v < lists@.len() && #[trigger] old(self).marked@[v] ==> {
                    &&& final(self).root@[v] == old(self).root@[v]
                    &&& final(self).depth@[v] == old(self).depth@[v]
                    &&& final(self).edge_to@[v] == old(self).edge_to@[v]
                    &&& final(self).pre_at@[v] == old(self).pre_at@[v]
                    &&& final(self).post_at@[v] == old(self).post_at@[v]
                },
            forall|v: int|
                0 <= v < lists@.len() && !old(self).marked@[v] && final(self).marked@[v]
                    ==> #[trigger] final(self).root@[v] == r,
            old(self).pre@.len() <= final(self).pre@.len(),
            final(self).pre@.take(old(self).pre@.len() as int) == old(self).pre@,
            old(self).post@.len() <= final(self).post@.len(),
            final(self).post@.take(old(self).post@.len() as int) == old(self).post@,
    {
        let ghost a = lists_view(lists);
        let ghost before = *self;
        let n = lists.len();
        let ghost mut done = self.marked@;
        let ghost mut pos = Seq::new(n as nat, |k: int| 0int);
        let ghost marked0 = self.marked@;
        let ghost target = visit(a, self.trace(), r);
        proof {
            lemma_returns_grow(a, marked0, done, self.post_at@, marked0.update(r as int, true));
            lemma_unmarked_set(self.marked@, r as int);
            lemma_reachable_self(a, r);
            self.root@ = self.root@.update(r as int, r);
            self.depth@ = self.depth@.update(r as int, 0);
            self.pre_at@ = self.pre_at@.update(r as int, self.pre@.len() as int);
            pos = pos.update(r as int, 0);
        }
        self.marked[r] = true;
        self.pre.push(r);
        self.stack.push(r);
        proof {
            assert(self.trace() == enter(before.trace(), r));
            assert(self.stack@ =~= seq![r]);
            assert(self.next@[r as int] == 0);
            lemma_resume_one(a, self.trace(), self.next@, r);
        }
        while self.stack.len() > 0
            invariant
                a == lists_view(lists),
                n == a.len(),
                r < n,
                in_bounds(a),
                resume(a, self.trace(), self.next@, self.stack@) == target,
                forall|v: int| 0 <= v < n && !self.marked@[v] ==> (#[trigger] self.next@[v]) == 0,
                before.settled(a),
                self.marked@.len() == n,
                self.edge_to@.len() == n,
                self.next@.len() == n,
                self.root@.len() == n,
                self.depth@.len() == n,
                self.pre_at@.len() == n,
                self.post_at@.len() == n,
                done.len() == n,
                pos.len() == n,
                progress_ok(a, self.marked@, self.next@),
                forall|v: int| 0 <= v < n && #[trigger] done[v] ==> self.marked@[v] && self.next@[v]
                    == a[v].len(),
                tree_ok(a, self.marked@, self.edge_to@, self.root@, self.depth@, self.pre_at@),
                listing_ok(self.pre@, self.marked@, self.pre_at@),
                listing_ok(self.post@, done, self.post_at@),
                post_ok(a, done, self.post_at@),
                returns_ok(a, self.marked@, done, self.post_at@),
                forall|x: int| 0 <= x < n && #[trigger] done[x] ==> self.post_at@[x]
                    < self.post@.len(),
                stack_ok(a, self.marked@, done, self.stack@, pos),
                self.marked@[r as int],
                forall|v: int| 0 <= v < n && before.marked@[v] ==> #[trigger] done[v],
                forall|v: int|
                    0 <= v < n && before.marked@[v] ==> #[trigger] self.root@[v] == before.root@[v],
                forall|v: int|
                    0 <= v < n && before.marked@[v] ==> #[trigger] self.depth@[v]
                        == before.depth@[v],
                forall|v: int|
                    0 <= v < n && before.marked@[v] ==> #[trigger] self.edge_to@[v]
                        == before.edge_to@[v],
                forall|v: int|
                    0 <= v < n && before.marked@[v] ==> #[trigger] self.pre_at@[v]
                        == before.pre_at@[v],
                forall|v: int|
                    0 <= v < n && before.marked@[v] ==> #[trigger] self.post_at@[v]
                        == before.post_at@[v],
                forall|v: int|
                    0 <= v < n && !before.marked@[v] && self.marked@[v] ==> #[trigger] self.root@[v]
                        == r,
                before.pre@.len() <= self.pre@.len(),
                self.pre@.take(before.pre@.len() as int) == before.pre@,
                before.post@.len() <= self.post@.len(),
                self.post@.take(before.post@.len() as int) == before.post@,
            decreases
                    unmarked(self.marked@),
                    self.stack@.len(),
                    (if self.stack@.len() > 0 {
                        a[self.stack@.last() as int].len() - self.next@[self.stack@.last() as int]
                    } else {
                        0
                    }),
        {
            let top = self.stack.len() - 1;
            let v = self.stack[top];
            let j = self.next[v];
            proof {
                assert(!done[v as int]);
                assert(!before.marked@[v as int]);
                assert(self.root@[v as int] == r);
                assert(self.marked@[v as int]);
                assert(self.pre_at@[v as int] < self.pre@.len());
            }
            if j < lists[v].len() {
                let w = lists[v][j];
                assert(w == a[v as int][j as int]);
                assert(has_edge(a, v, w));
                let ghost trace0 = self.trace();
                let ghost next0 = self.next@;
                proof {
                    assert forall|k: int| 0 <= k < self.stack@.len() - 1 implies
                        (#[trigger] self.stack@[k])
                        < a.len() && self.stack@[k] != self.stack@.last() by {
                        assert(pos[self.stack@[k] as int] == k);
                    }
                    if self.marked@[w as int] {
                        lemma_resume_skip(a, trace0, next0, self.stack@);
                    } else {
                        lemma_resume_discover(a, trace0, next0, self.stack@, w);
                    }
                }
                self.next[v] = j + 1;
                if !self.marked[w] {
                    proof {
                        assert(!done[w as int]);
                        assert(!before.marked@[w as int]);
                        lemma_unmarked_set(self.marked@, w as int);
                        lemma_reachable_step(a, r, v, w);
                        self.root@ = self.root@.update(w as int, r);
                        self.depth@ = self.depth@.update(w as int, self.depth@[v as int] + 1);
                        self.pre_at@ = self.pre_at@.update(w as int, self.pre@.len() as int);
                        pos = pos.update(w as int, self.stack@.len() as int);
                    }
                    let ghost pre0 = self.pre@;
                    let ghost stack0 = self.stack@;
                    let ghost marked0 = self.marked@;
                    self.marked[w] = true;
                    proof {
                        lemma_returns_grow(a, marked0, done, self.post_at@, self.marked@);
                    }
                    self.edge_to[w] = v;
                    self.pre.push(w);
                    self.stack.push(w);
                    proof {
                        assert(self.pre@.take(before.pre@.len() as int) =~= pre0.take(
                            before.pre@.len() as int,
                        ));
                        assert(self.trace() == enter(found(trace0, v, w), w));
                        assert forall|k: int| 0 < k < self.stack@.len() implies #[trigger] chained(
                            a,
                            self.stack@,
                            k,
                        ) by {
                            if k < stack0.len() {
                                assert(chained(a, stack0, k));
                            }
                        }
                    }
                }
            } else {
                let ghost post0 = self.post@;
                let ghost stack0 = self.stack@;
                let ghost trace0 = self.trace();
                proof {
                    lemma_resume_leave(a, trace0, self.next@, self.stack@);
                    assert forall|jj: int| 0 <= jj < a[v as int].len() implies {
                        let w = #[trigger] a[v as int][jj];
                        (done.update(v as int, true)[w as int] && self.post_at@.update(
                            v as int,
                            self.post@.len() as int,
                        )[w as int] < self.post@.len()) || reachable(a, w, v)
                    } by {
                        let w = a[v as int][jj];
                        assert(self.marked@[w as int]);
                        if done[w as int] {
                            assert(0 <= self.post_at@[w as int] < self.post@.len());
                        } else {
                            lemma_stack_reaches(a, self.marked@, done, self.stack@, pos,
                                pos[w as int], top as int);
                        }
                    }
                    lemma_returns_pop(
                        a,
                        self.marked@,
                        done,
                        self.next@,
                        self.stack@,
                        pos,
                        self.post_at@,
                        v,
                        self.post@.len() as int,
                    );
                    self.post_at@ = self.post_at@.update(v as int, self.post@.len() as int);
                    done = done.update(v as int, true);
                }
                self.stack.pop();
                self.post.push(v);
                proof {
                    assert(self.post@.take(before.post@.len() as int) =~= post0.take(
                        before.post@.len() as int,
                    ));
                    assert(self.stack@ =~= stack0.drop_last());
                    assert(self.trace() == leave(trace0, v));
                    assert forall|k: int| 0 < k < self.stack@.len() implies #[trigger] chained(
                        a,
                        self.stack@,
                        k,
                    ) by {
                        assert(chained(a, stack0, k));
                    }
                }
            }
        }
        proof {
            assert forall|v: int| 0 <= v < n && #[trigger] self.marked@[v] implies done[v] by {}
            assert(done =~= self.marked@);
            self.lemma_settled_closed(a);
            assert forall|v: int| 0 <= v < n implies #[trigger] self.marked@[v]
                == (before.marked@[v]
                || reachable(a, r, v as usize)) by {
                if reachable(a, r, v as usize) {
                    lemma_closed_reachable(a, self.marked@, r, v as usize);
                }
                if self.marked@[v] && !before.marked@[v] {
                    assert(self.root@[v] == r);
                }
            }
        }
    }
}

} // verus!
