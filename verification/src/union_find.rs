//! Union-find with union by size and no path compression.

use vstd::prelude::*;
use vstd::set_lib::{lemma_int_range, lemma_len_subset, lemma_set_disjoint_lens, set_int_range};

verus! {

/// The parent links form a forest: every link stays in range and leads to an element of
/// strictly greater rank, so a walk along the links ends at a root.
pub open spec fn links_ok(id: Seq<usize>, rank: Seq<nat>, top: nat) -> bool {
    &&& id.len() == rank.len()
    &&& forall|i: int| 0 <= i < id.len() ==> (#[trigger] rank[i]) <= top
    &&& forall|i: int|
        0 <= i < id.len() ==> {
            &&& (#[trigger] id[i]) < id.len()
            &&& (id[i] != i ==> rank[i] < rank[id[i] as int])
        }
}

/// The root that the parent links lead to from `p`.
pub open spec fn root_of(id: Seq<usize>, rank: Seq<nat>, top: nat, p: usize) -> usize
    decreases top - rank[p as int],
    when links_ok(id, rank, top) && p < id.len()
{
    if id[p as int] == p {
        p
    } else {
        root_of(id, rank, top, id[p as int])
    }
}

/// The elements whose representative is `r`.
pub open spec fn members(reps: Seq<usize>, r: usize) -> Set<int> {
    Set::new(|x: int| 0 <= x < reps.len() && reps[x] == r)
}

/// The elements that represent their own component.
pub open spec fn leaders(reps: Seq<usize>) -> Set<int> {
    Set::new(|r: int| 0 <= r < reps.len() && reps[r] == r)
}

/// The representatives after the component led by `loser` is merged into that of `winner`.
pub open spec fn merged(reps: Seq<usize>, loser: usize, winner: usize) -> Seq<usize> {
    Seq::new(
        reps.len(),
        |x: int|
            if reps[x] == loser {
                winner
            } else {
                reps[x]
            },
    )
}

/// The root that the links lead to is an element, is its own parent, and ranks no lower
/// than the element the walk began at.
proof fn lemma_root_is_root(id: Seq<usize>, rank: Seq<nat>, top: nat, p: usize)
    requires
        links_ok(id, rank, top),
        p < id.len(),
    ensures
        root_of(id, rank, top, p) < id.len(),
        id[root_of(id, rank, top, p) as int] == root_of(id, rank, top, p),
        rank[p as int] <= rank[root_of(id, rank, top, p) as int],
    decreases top - rank[p as int],
{
    if id[p as int] != p {
        lemma_root_is_root(id, rank, top, id[p as int]);
    }
}

/// Hanging the root `i` below the root `j` redirects exactly the elements that `i` led.
proof fn lemma_root_after_link(
    id: Seq<usize>,
    rank: Seq<nat>,
    top: nat,
    i: usize,
    j: usize,
    rank2: Seq<nat>,
    top2: nat,
    x: usize,
)
    requires
        links_ok(id, rank, top),
        i < id.len(),
        j < id.len(),
        i != j,
        id[i as int] == i,
        id[j as int] == j,
        rank2 == rank.update(j as int, top2),
        top2 > top,
        x < id.len(),
    ensures
        links_ok(id.update(i as int, j), rank2, top2),
        root_of(id.update(i as int, j), rank2, top2, x) == if root_of(id, rank, top, x) == i {
            j
        } else {
            root_of(id, rank, top, x)
        },
    decreases top - rank[x as int],
{
    let id2 = id.update(i as int, j);
    assert(links_ok(id2, rank2, top2)) by {
        assert forall|k: int| 0 <= k < id2.len() implies (#[trigger] rank2[k]) <= top2 by {
            assert(rank[k] <= top);
        }
        assert forall|k: int| 0 <= k < id2.len() implies {
            &&& (#[trigger] id2[k]) < id2.len()
            &&& (id2[k] != k ==> rank2[k] < rank2[id2[k] as int])
        } by {
            assert(id[k] < id.len());
            assert(rank[k] <= top);
            assert(rank[id[k] as int] <= top);
        }
    }
    if x == i {
        assert(root_of(id2, rank2, top2, j) == j);
    } else if id[x as int] == x {
    } else {
        lemma_root_after_link(id, rank, top, i, j, rank2, top2, id[x as int]);
    }
}

/// The representatives after the components of `p` and `q` are united: nothing changes
/// when they have the same representative already; otherwise the representative of the
/// component with more members, that of `p` on a tie, takes over the members of the other
/// one.
pub open spec fn united(reps: Seq<usize>, p: usize, q: usize) -> Seq<usize> {
    let i = reps[p as int];
    let j = reps[q as int];
    if i == j {
        reps
    } else if members(reps, i).len() < members(reps, j).len() {
        merged(reps, i, j)
    } else {
        merged(reps, j, i)
    }
}

/// A partition of `0..n` into components, each with one representative.
///
/// The view gives every element its representative.
pub struct UF {
    id: Vec<usize>,
    sz: Vec<usize>,
    count: usize,
    rank: Ghost<Seq<nat>>,
    top: Ghost<nat>,
}

impl View for UF {
    type V = Seq<usize>;

    closed spec fn view(&self) -> Seq<usize> {
        Seq::new(self.id@.len(), |x: int| root_of(self.id@, self.rank@, self.top@, x as usize))
    }
}

impl UF {
    /// The representation invariant: the links form a forest, each root knows the size of
    /// its component, and the counter is the number of components.
    pub closed spec fn wf(&self) -> bool {
        &&& links_ok(self.id@, self.rank@, self.top@)
        &&& self.sz@.len() == self.id@.len()
        &&& forall|r: int|
            0 <= r < self.id@.len() && self.id@[r] == r ==> (#[trigger] self.sz@[r]) == members(
                self@,
                r as usize,
            ).len()
        &&& self.count == leaders(self@).len()
    }

    /// Number of components.
    pub open spec fn components(&self) -> nat {
        leaders(self@).len()
    }

    /// Every representative is an element and represents itself.
    pub proof fn lemma_representative(&self, p: usize)
        requires
            self.wf(),
            p < self@.len(),
        ensures
            self@[p as int] < self@.len(),
            self@[self@[p as int] as int] == self@[p as int],
    {
        lemma_root_is_root(self.id@, self.rank@, self.top@, p);
    }

    /// When there is at most one component, any two elements have the same
    /// representative.
    pub proof fn lemma_one_component(&self, p: usize, q: usize)
        requires
            self.wf(),
            p < self@.len(),
            q < self@.len(),
            self.components() <= 1,
        ensures
            self@[p as int] == self@[q as int],
    {
        let a = self@[p as int];
        let b = self@[q as int];
        self.lemma_representative(p);
        self.lemma_representative(q);
        let all = leaders(self@);
        lemma_int_range(0, self@.len() as int);
        lemma_len_subset(all, set_int_range(0, self@.len() as int));
        if a != b {
            assert(all.contains(a as int) && all.contains(b as int));
            let rest = all.remove(a as int);
            assert(rest.contains(b as int));
            assert(rest.len() >= 1) by {
                if rest.len() == 0 {
                    assert(rest =~= Set::<int>::empty());
                }
            }
        }
    }

    /// There is a component if there is an element, and only one if all elements have
    /// the same representative.
    pub proof fn lemma_component_count(&self)
        requires
            self.wf(),
        ensures
            self@.len() > 0 ==> self.components() >= 1,
            (forall|p: int, q: int|
                0 <= p < self@.len() && 0 <= q < self@.len() ==> self@[p] == self@[q])
                ==> self.components() <= 1,
    {
        let all = leaders(self@);
        lemma_int_range(0, self@.len() as int);
        lemma_len_subset(all, set_int_range(0, self@.len() as int));
        if self@.len() > 0 {
            self.lemma_representative(0);
            let r = self@[0] as int;
            assert(all.contains(r));
            if all.len() == 0 {
                assert(all =~= Set::<int>::empty());
            }
            if forall|p: int, q: int|
                0 <= p < self@.len() && 0 <= q < self@.len() ==> self@[p] == self@[q] {
                assert forall|x: int| all.contains(x) implies x == r by {
                    assert(self@[x] == self@[0]);
                }
                assert(all =~= Set::<int>::empty().insert(r));
            }
        } else {
            assert(all =~= Set::<int>::empty());
        }
    }

    /// `n` elements, each alone in its component.
    pub fn new(n: usize) -> (u: UF)
        ensures
            u.wf(),
            u@.len() == n,
            forall|i: int| 0 <= i < n ==> u@[i] == i,
            u.components() == n,
    {
        let mut id: Vec<usize> = Vec::with_capacity(n);
        let mut sz: Vec<usize> = Vec::with_capacity(n);
        let mut i: usize = 0;
        while i < n
            invariant
                i <= n,
                id@.len() == i,
                sz@.len() == i,
                forall|k: int| 0 <= k < i ==> id@[k] == k && sz@[k] == 1,
            decreases n - i,
        {
            id.push(i);
            sz.push(1);
            i += 1;
        }
        let u = UF { id, sz, count: n, rank: Ghost(Seq::new(n as nat, |k: int| 0nat)),
            top: Ghost(0nat) };
        proof {
            assert(links_ok(u.id@, u.rank@, u.top@));
            assert forall|k: int| 0 <= k < n implies u@[k] == k by {
                assert(root_of(u.id@, u.rank@, u.top@, k as usize) == k);
            }
            assert(leaders(u@) =~= set_int_range(0, n as int));
            lemma_int_range(0, n as int);
            assert forall|r: int| 0 <= r < u.id@.len() && u.id@[r] == r implies
                (#[trigger] u.sz@[r])
                == members(u@, r as usize).len() by {
                assert(members(u@, r as usize) =~= Set::empty().insert(r));
            }
        }
        u
    }

    /// Number of elements.
    pub fn len(&self) -> (r: usize)
        ensures
            r == self@.len(),
    {
        self.id.len()
    }

    /// Number of components.
    pub fn count(&self) -> (r: usize)
        requires
            self.wf(),
        ensures
            r == self.components(),
    {
        self.count
    }

    /// The representative of the component of `p`.
    pub fn find(&self, p: usize) -> (r: usize)
        requires
            self.wf(),
            p < self@.len(),
        ensures
            r == self@[p as int],
    {
        let mut x = p;
        while x != self.id[x]
            invariant
                self.wf(),
                x < self.id@.len(),
                root_of(self.id@, self.rank@, self.top@, x) == root_of(
                    self.id@,
                    self.rank@,
                    self.top@,
                    p,
                ),
            decreases self.top@ - self.rank@[x as int],
        {
            x = self.id[x];
        }
        x
    }

    /// Whether `p` and `q` are in the same component.
    pub fn connected(&self, p: usize, q: usize) -> (r: bool)
        requires
            self.wf(),
            p < self@.len(),
            q < self@.len(),
        ensures
            r == (self@[p as int] == self@[q as int]),
    {
        self.find(p) == self.find(q)
    }

    /// Merges the components of `p` and `q`.
    ///
    /// Nothing changes when they already share a representative. Otherwise the
    /// representative of the larger component (that of `p` on a tie) takes over the
    /// members of the other one, and there is one component fewer.
    pub fn union(&mut self, p: usize, q: usize)
        requires
            old(self).wf(),
            p < old(self)@.len(),
            q < old(self)@.len(),
        ensures
            final(self).wf(),
            final(self)@ == united(old(self)@, p, q),
            final(self)@.len() == old(self)@.len(),
            final(self)@[p as int] == final(self)@[q as int],
            final(self).components() == old(self).components() - if old(self)@[p as int] == old(
                self,
            )@[q as int] {
                0int
            } else {
                1int
            },
    {
        let i = self.find(p);
        let j = self.find(q);
        if i == j {
            return ;
        }
        proof {
            lemma_root_is_root(self.id@, self.rank@, self.top@, p);
            lemma_root_is_root(self.id@, self.rank@, self.top@, q);
            self.lemma_sizes_fit(i, j);
            assert(self.id@[i as int] == i && self.id@[j as int] == j);
            assert(self.sz@[i as int] == members(self@, i).len());
            assert(self.sz@[j as int] == members(self@, j).len());
            assert(self@.len() == self.id.len());
        }
        if self.sz[i] < self.sz[j] {
            let total = self.sz[j] + self.sz[i];
            self.id[i] = j;
            self.sz[j] = total;
            proof {
                self.top@ = self.top@ + 1;
                self.rank@ = self.rank@.update(j as int, self.top@);
                Self::lemma_link(*old(self), *self, i, j);
            }
        } else {
            let total = self.sz[i] + self.sz[j];
            self.id[j] = i;
            self.sz[i] = total;
            proof {
                self.top@ = self.top@ + 1;
                self.rank@ = self.rank@.update(i as int, self.top@);
                Self::lemma_link(*old(self), *self, j, i);
            }
        }
        self.count -= 1;
    }

    /// A component has no more members than there are elements.
    proof fn lemma_members_finite(&self, r: usize)
        ensures
            members(self@, r).finite(),
            members(self@, r).len() <= self@.len(),
    {
        lemma_int_range(0, self@.len() as int);
        lemma_len_subset(members(self@, r), set_int_range(0, self@.len() as int));
    }

    /// Two components with different representatives have no more members together than
    /// there are elements.
    proof fn lemma_sizes_fit(&self, i: usize, j: usize)
        requires
            self.wf(),
            i < self@.len(),
            j < self@.len(),
            i != j,
        ensures
            members(self@, i).len() + members(self@, j).len() <= self@.len(),
            members(self@, i).finite(),
            members(self@, j).finite(),
            (members(self@, i) + members(self@, j)).len() == members(self@, i).len() + members(
                self@,
                j,
            ).len(),
    {
        let a = members(self@, i);
        let b = members(self@, j);
        self.lemma_members_finite(i);
        self.lemma_members_finite(j);
        assert(a.disjoint(b));
        lemma_set_disjoint_lens(a, b);
        lemma_int_range(0, self@.len() as int);
        lemma_len_subset(a + b, set_int_range(0, self@.len() as int));
    }

    /// What hanging the root `i` below the root `j` does to a well-formed structure,
    /// before the component counter is adjusted.
    proof fn lemma_link(before: UF, after: UF, i: usize, j: usize)
        requires
            before.wf(),
            i < before@.len(),
            j < before@.len(),
            i != j,
            before.id@[i as int] == i,
            before.id@[j as int] == j,
            after.id@ == before.id@.update(i as int, j),
            after.top@ == before.top@ + 1,
            after.rank@ == before.rank@.update(j as int, after.top@),
            after.sz@ == before.sz@.update(
                j as int,
                (before.sz@[j as int] + before.sz@[i as int]) as usize,
            ),
            before.sz@[j as int] + before.sz@[i as int] <= usize::MAX,
            after.count == before.count,
        ensures
            after@ == merged(before@, i, j),
            before@[i as int] == i,
            before@[j as int] == j,
            links_ok(after.id@, after.rank@, after.top@),
            after.sz@.len() == after.id@.len(),
            forall|r: int|
                0 <= r < after.id@.len() && after.id@[r] == r ==> (#[trigger] after.sz@[r])
                    == members(after@, r as usize).len(),
            leaders(after@).len() == leaders(before@).len() - 1,
            leaders(before@).len() >= 1,
    {
        let n = before@.len();
        assert forall|x: int| 0 <= x < n implies after@[x] == merged(before@, i, j)[x] by {
            lemma_root_after_link(
                before.id@,
                before.rank@,
                before.top@,
                i,
                j,
                after.rank@,
                after.top@,
                x as usize,
            );
        }
        assert(after@ =~= merged(before@, i, j));
        lemma_root_after_link(before.id@, before.rank@, before.top@, i, j, after.rank@, after.top@,
            i);
        assert(root_of(before.id@, before.rank@, before.top@, i) == i);
        assert(root_of(before.id@, before.rank@, before.top@, j) == j);
        before.lemma_sizes_fit(i, j);
        assert forall|r: int| 0 <= r < n && after.id@[r] == r implies (#[trigger] after.sz@[r])
            == members(after@, r as usize).len() by {
            assert(before.id@[r] == r);
            assert(r != i);
            if r == j {
                assert(members(after@, j) =~= members(before@, i) + members(before@, j));
            } else {
                assert(members(after@, r as usize) =~= members(before@, r as usize));
            }
        }
        lemma_int_range(0, n as int);
        lemma_len_subset(leaders(before@), set_int_range(0, n as int));
        assert(leaders(after@) =~= leaders(before@).remove(i as int)) by {
            assert forall|r: int| leaders(after@).contains(r) <==> leaders(before@).remove(
                i as int,
            ).contains(r) by {
                if 0 <= r < n {
                    before.lemma_representative(r as usize);
                }
            }
        }
        assert(leaders(before@).contains(i as int));
    }
}

} // verus!
