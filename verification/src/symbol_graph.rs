//! Graphs whose vertices are named by symbols.

use vstd::prelude::*;
use vstd::string::StringSliceAdditionalSpecFns;
use crate::graph::{with_edge, Graph};

verus! {

/// Whether `b` is an ASCII whitespace byte: tab, line feed, form feed, carriage return
/// or space.
pub open spec fn is_space(b: u8) -> bool {
    b == 9 || b == 10 || b == 12 || b == 13 || b == 32
}

/// Number of leading bytes of `s` that are whitespace (`space`) or are not (`!space`).
pub open spec fn run(s: Seq<u8>, space: bool) -> nat
    decreases s.len(),
{
    if s.len() > 0 && is_space(s[0]) == space {
        1 + run(s.skip(1), space)
    } else {
        0
    }
}

/// A run is no longer than the sequence.
pub proof fn lemma_run_bound(s: Seq<u8>, space: bool)
    ensures
        run(s, space) <= s.len(),
    decreases s.len(),
{
    if s.len() > 0 && is_space(s[0]) == space {
        lemma_run_bound(s.skip(1), space);
    }
}

/// The maximal runs of bytes other than whitespace in `s`, in order.
pub open spec fn tokens(s: Seq<u8>) -> Seq<Seq<u8>>
    decreases s.len(),
{
    let t = s.skip(run(s, true) as int);
    let k = run(t, false);
    if k == 0 {
        Seq::empty()
    } else {
        proof {
            lemma_run_bound(s, true);
            lemma_run_bound(t, false);
        }
        seq![t.take(k as int)] + tokens(t.skip(k as int))
    }
}

/// `keys` with `name` added at the end unless it is there already.
pub open spec fn interned(keys: Seq<Seq<u8>>, name: Seq<u8>) -> Seq<Seq<u8>> {
    if keys.contains(name) {
        keys
    } else {
        keys.push(name)
    }
}

/// `keys` after each of `toks` has been interned in turn.
pub open spec fn intern_all(keys: Seq<Seq<u8>>, toks: Seq<Seq<u8>>) -> Seq<Seq<u8>>
    decreases toks.len(),
{
    if toks.len() == 0 {
        keys
    } else {
        intern_all(interned(keys, toks[0]), toks.skip(1))
    }
}

/// The number of the symbol `name`.
pub open spec fn position(keys: Seq<Seq<u8>>, name: Seq<u8>) -> usize {
    keys.index_of(name) as usize
}

/// The adjacency structure after an edge from `v` to each of `toks` has been added in
/// turn.
pub open spec fn link_all(
    a: Seq<Seq<usize>>,
    keys: Seq<Seq<u8>>,
    v: usize,
    toks: Seq<Seq<u8>>,
) -> Seq<Seq<usize>>
    decreases toks.len(),
{
    if toks.len() == 0 {
        a
    } else {
        link_all(with_edge(a, v, position(keys, toks[0])), keys, v, toks.skip(1))
    }
}

/// The adjacency structure of `n` vertices without edges.
pub open spec fn edgeless(n: nat) -> Seq<Seq<usize>> {
    Seq::new(n, |v: int| Seq::empty())
}

/// The symbols and the adjacency structure after the lines have been read in turn: the
/// tokens of a line are interned, then its first token is joined to each of the others.
pub open spec fn build(lines: Seq<Seq<u8>>, keys: Seq<Seq<u8>>, a: Seq<Seq<usize>>) -> (
    Seq<Seq<u8>>,
    Seq<Seq<usize>>,
)
    decreases lines.len(),
{
    if lines.len() == 0 {
        (keys, a)
    } else {
        let toks = tokens(lines[0]);
        let keys2 = intern_all(keys, toks);
        let a2 = link_all(a, keys2, position(keys2, toks[0]), toks.skip(1));
        build(lines.skip(1), keys2, a2)
    }
}

/// The number of edges that reading the lines adds.
pub open spec fn edge_total(lines: Seq<Seq<u8>>) -> nat
    decreases lines.len(),
{
    if lines.len() == 0 {
        0
    } else {
        (tokens(lines[0]).len() - 1) as nat + edge_total(lines.skip(1))
    }
}

/// Every line names a vertex, there are no more symbols than lines, and the number of
/// edges fits the counter.
pub open spec fn admissible(lines: Seq<Seq<u8>>) -> bool {
    &&& forall|i: int| 0 <= i < lines.len() ==> (#[trigger] tokens(lines[i])).len() > 0
    &&& build(lines, Seq::empty(), edgeless(lines.len())).0.len() <= lines.len()
    &&& edge_total(lines) <= usize::MAX
}

/// The byte strings of the lines.
pub open spec fn lines_of(list: Seq<&str>) -> Seq<Seq<u8>> {
    list.map_values(|s: &str| s.spec_bytes())
}

/// The byte strings held by `keys`.
pub open spec fn keys_view(keys: Seq<Vec<u8>>) -> Seq<Seq<u8>> {
    keys.map_values(|k: Vec<u8>| k@)
}

/// A run that stops at `b` has length `b - a`.
proof fn lemma_run_scan(s: Seq<u8>, a: int, b: int, space: bool)
    requires
        0 <= a <= b <= s.len(),
        forall|i: int| a <= i < b ==> is_space(#[trigger] s[i]) == space,
        b == s.len() || is_space(s[b]) != space,
    ensures
        run(s.skip(a), space) == b - a,
    decreases b - a,
{
    let t = s.skip(a);
    if a < b {
        assert(t[0] == s[a]);
        assert(t.skip(1) =~= s.skip(a + 1));
        lemma_run_scan(s, a + 1, b, space);
    } else if b < s.len() {
        assert(t[0] == s[b]);
    }
}

/// Whether `b` is an ASCII whitespace byte.
fn is_space_byte(b: u8) -> (r: bool)
    ensures
        r == is_space(b),
{
    b == 9 || b == 10 || b == 12 || b == 13 || b == 32
}

/// Whether two byte strings are equal.
fn bytes_eq(a: &[u8], b: &[u8]) -> (r: bool)
    ensures
        r == (a@ == b@),
{
    if a.len() != b.len() {
        return false;
    }
    let mut i: usize = 0;
    while i < a.len()
        invariant
            a@.len() == b@.len(),
            i <= a@.len(),
            forall|k: int| 0 <= k < i ==> a@[k] == b@[k],
        decreases a@.len() - i,
    {
        if a[i] != b[i] {
            return false;
        }
        i += 1;
    }
    assert(a@ =~= b@);
    true
}

/// Splits a line into its tokens.
pub fn tokenize(line: &[u8]) -> (out: Vec<Vec<u8>>)
    ensures
        keys_view(out@) == tokens(line@),
{
    let n = line.len();
    let mut out: Vec<Vec<u8>> = Vec::new();
    let mut i: usize = 0;
    let ghost s = line@;
    proof {
        assert(s.skip(0) =~= s);
        assert(keys_view(out@) =~= Seq::<Seq<u8>>::empty());
        assert(Seq::<Seq<u8>>::empty() + tokens(s) =~= tokens(s));
    }
    loop
        invariant
            s == line@,
            n == s.len(),
            i <= n,
            tokens(s) == keys_view(out@) + tokens(s.skip(i as int)),
        ensures
            keys_view(out@) == tokens(s),
        decreases n - i,
    {
        let from = i;
        while i < n && is_space_byte(line[i])
            invariant
                s == line@,
                n == s.len(),
                from <= i <= n,
                forall|k: int| from <= k < i ==> is_space(#[trigger] s[k]),
            decreases n - i,
        {
            i += 1;
        }
        let start = i;
        let mut tok: Vec<u8> = Vec::new();
        while i < n && !is_space_byte(line[i])
            invariant
                s == line@,
                n == s.len(),
                start <= i <= n,
                forall|k: int| start <= k < i ==> !is_space(#[trigger] s[k]),
                tok@ == s.subrange(start as int, i as int),
            decreases n - i,
        {
            tok.push(line[i]);
            proof {
                assert(tok@ =~= s.subrange(start as int, i as int + 1));
            }
            i += 1;
        }
        proof {
            let rest = s.skip(from as int);
            lemma_run_scan(rest, 0, start - from, true);
            assert(rest.skip(0) =~= rest);
            let t = rest.skip((start - from) as int);
            assert(t =~= s.skip(start as int));
            lemma_run_scan(t, 0, i - start, false);
            assert(t.skip(0) =~= t);
            assert(t.take((i - start) as int) =~= s.subrange(start as int, i as int));
            assert(t.skip((i - start) as int) =~= s.skip(i as int));
        }
        if start == i {
            proof {
                assert(tokens(s.skip(from as int)) =~= Seq::<Seq<u8>>::empty());
                assert(keys_view(out@) + Seq::<Seq<u8>>::empty() =~= keys_view(out@));
            }
            break;
        }
        let ghost before = keys_view(out@);
        out.push(tok);
        proof {
            assert(keys_view(out@) =~= before.push(tok@));
            assert(tokens(s.skip(from as int)) =~= seq![tok@] + tokens(s.skip(i as int)));
            assert(before + (seq![tok@] + tokens(s.skip(i as int))) =~= before.push(tok@) + tokens(
                s.skip(i as int),
            ));
        }
    }
    out
}

/// A graph together with names for its vertices.
///
/// Symbols are byte strings; they are numbered in the order of their first occurrence.
pub struct SymbolGraph {
    keys: Vec<Vec<u8>>,
    g: Graph,
}

impl SymbolGraph {
    /// The symbols in the order of their numbers.
    pub closed spec fn names(&self) -> Seq<Seq<u8>> {
        keys_view(self.keys@)
    }

    /// The adjacency structure of the graph.
    pub closed spec fn adjacency(&self) -> Seq<Seq<usize>> {
        self.g@
    }

    /// The representation invariant: no symbol is listed twice, and every symbol has a
    /// vertex.
    pub closed spec fn wf(&self) -> bool {
        &&& self.g.wf()
        &&& self.names().no_duplicates()
        &&& self.names().len() <= self.g@.len()
    }

    /// The position of `name` among `keys`, if it is there.
    fn find(keys: &Vec<Vec<u8>>, name: &[u8]) -> (r: Option<usize>)
        ensures
            match r {
                Some(i) => i < keys@.len() && keys_view(keys@)[i as int] == name@,
                None => !keys_view(keys@).contains(name@),
            },
    {
        let mut i: usize = 0;
        while i < keys.len()
            invariant
                i <= keys@.len(),
                forall|k: int| 0 <= k < i ==> keys_view(keys@)[k] != name@,
            decreases keys@.len() - i,
        {
            if bytes_eq(keys[i].as_slice(), name) {
                return Some(i);
            }
            i += 1;
        }
        None
    }

    /// Reads a graph from lines of symbols separated by whitespace. The first symbol of
    /// a line names a vertex, the others name its neighbours.
    pub fn new(list: &[&str]) -> (s: SymbolGraph)
        requires
            admissible(lines_of(list@)),
        ensures
            s.wf(),
            s.adjacency().len() == list@.len(),
            (s.names(), s.adjacency()) == build(lines_of(list@), Seq::empty(),
                edgeless(list@.len())),
    {
        Self::try_new(list).unwrap()
    }

    /// Reads a graph as [`SymbolGraph::new`] does, if the lines are admissible; `None`
    /// if they are not.
    pub fn try_new(list: &[&str]) -> (r: Option<SymbolGraph>)
        ensures
            r.is_some() == admissible(lines_of(list@)),
            match r {
                Some(s) => s.wf() && s.adjacency().len() == list@.len() && (s.names(),
                    s.adjacency())
                    == build(lines_of(list@), Seq::empty(), edgeless(list@.len())),
                None => true,
            },
    {
        let ghost lines = lines_of(list@);
        let n = list.len();
        let mut keys: Vec<Vec<u8>> = Vec::with_capacity(n);
        let mut g = Graph::new(n);
        let ghost empty = edgeless(n as nat);
        proof {
            assert forall|v: int| 0 <= v < n implies #[trigger] g@[v] == empty[v] by {
                assert(g@[v] =~= Seq::<usize>::empty());
            }
            assert(g@ =~= empty);
            assert(keys_view(keys@) =~= Seq::<Seq<u8>>::empty());
            assert(lines.skip(0) =~= lines);
        }
        let mut i: usize = 0;
        while i < n
            invariant
                lines == lines_of(list@),
                n == lines.len(),
                empty == edgeless(n as nat),
                i <= n,
                g.wf(),
                g@.len() == n,
                keys_view(keys@).no_duplicates(),
                keys_view(keys@).len() <= n,
                forall|k: int| 0 <= k < i ==> (#[trigger] tokens(lines[k])).len() > 0,
                build(lines, Seq::empty(), empty) == build(lines.skip(i as int), keys_view(keys@),
                    g@),
                g.edge_count() + edge_total(lines.skip(i as int)) == edge_total(lines),
            decreases n - i,
        {
            let line = list[i];
            let toks = tokenize(line.as_bytes());
            let ghost rest = lines.skip(i as int);
            let ghost spec_toks = tokens(lines[i as int]);
            proof {
                assert(rest[0] == lines[i as int]);
                assert(rest.skip(1) =~= lines.skip(i as int + 1));
                assert(keys_view(toks@) == spec_toks);
                assert(spec_toks.skip(0) =~= spec_toks);
            }
            if toks.len() == 0 {
                return None;
            }
            let ghost keys0 = keys_view(keys@);
            let mut j: usize = 0;
            while j < toks.len()
                invariant
                    lines == lines_of(list@),
                    n == lines.len(),
                    i < n,
                    empty == edgeless(n as nat),
                    rest == lines.skip(i as int),
                    rest[0] == lines[i as int],
                    spec_toks == tokens(lines[i as int]),
                    build(lines, Seq::empty(), empty) == build(rest, keys0, g@),
                    j <= toks@.len(),
                    keys_view(toks@) == spec_toks,
                    keys_view(keys@).no_duplicates(),
                    keys_view(keys@).len() <= n,
                    intern_all(keys0, spec_toks) == intern_all(keys_view(keys@),
                        spec_toks.skip(j as int)),
                decreases toks@.len() - j,
            {
                let found = Self::find(&keys, toks[j].as_slice());
                let ghost before = keys_view(keys@);
                proof {
                    assert(spec_toks.skip(j as int)[0] == toks@[j as int]@);
                    assert(spec_toks.skip(j as int).skip(1) =~= spec_toks.skip(j as int + 1));
                }
                if found.is_none() {
                    if keys.len() >= n {
                        proof {
                            // one symbol too many, and reading on only adds symbols
                            let more = before.push(toks@[j as int]@);
                            Self::lemma_interned_all(more, spec_toks.skip(j as int + 1));
                            let keys2 = intern_all(keys0, spec_toks);
                            let a2 = link_all(
                                g@,
                                keys2,
                                position(keys2, spec_toks[0]),
                                spec_toks.skip(1),
                            );
                            Self::lemma_build_keys(rest.skip(1), keys2, a2);
                        }
                        return None;
                    }
                    let copy = toks[j].clone();
                    keys.push(copy);
                    proof {
                        assert(keys_view(keys@) =~= before.push(toks@[j as int]@));
                    }
                } else {
                    proof {
                        let at = found.unwrap() as int;
                        assert(before[at] == toks@[j as int]@);
                    }
                }
                j += 1;
            }
            let ghost keys2 = keys_view(keys@);
            proof {
                assert(spec_toks.skip(toks@.len() as int) =~= Seq::<Seq<u8>>::empty());
                assert(keys2 == intern_all(keys0, spec_toks));
                Self::lemma_interned_all(keys0, spec_toks);
            }
            let v = Self::find(&keys, toks[0].as_slice()).unwrap();
            proof {
                assert(keys2[v as int] == spec_toks[0]);
                assert(keys2.index_of(spec_toks[0]) == v) by {
                    let k = keys2.index_of(spec_toks[0]);
                    assert(keys2.contains(spec_toks[0]));
                    assert(keys2[k] == spec_toks[0]);
                }
                assert(spec_toks.skip(1).skip(0) =~= spec_toks.skip(1));
            }
            let ghost a0 = g@;
            let mut j: usize = 1;
            while j < toks.len()
                invariant
                    lines == lines_of(list@),
                    n == lines.len(),
                    i < n,
                    1 <= j <= toks@.len(),
                    keys_view(toks@) == spec_toks,
                    spec_toks == tokens(lines[i as int]),
                    rest == lines.skip(i as int),
                    rest[0] == lines[i as int],
                    keys2 == keys_view(keys@),
                    keys2.no_duplicates(),
                    keys2.len() <= n,
                    v < n,
                    g.wf(),
                    g@.len() == n,
                    forall|k: int| 0 <= k < spec_toks.len()
                        ==> keys2.contains(#[trigger] spec_toks[k]),
                    link_all(a0, keys2, v, spec_toks.skip(1)) == link_all(
                        g@,
                        keys2,
                        v,
                        spec_toks.skip(j as int),
                    ),
                    g.edge_count() + (toks@.len() - j) + edge_total(lines.skip(i as int + 1))
                        == edge_total(lines),
                decreases toks@.len() - j,
            {
                let w = Self::find(&keys, toks[j].as_slice()).unwrap();
                proof {
                    let name = spec_toks[j as int];
                    assert(keys2.contains(name));
                    assert(keys2[w as int] == name);
                    let k = keys2.index_of(name);
                    assert(keys2[k] == name);
                    assert(k == w);
                    assert(spec_toks.skip(j as int)[0] == name);
                    assert(spec_toks.skip(j as int).skip(1) =~= spec_toks.skip(j as int + 1));
                }
                if g.e() == usize::MAX {
                    return None;
                }
                g.add_edge(v, w);
                j += 1;
            }
            proof {
                assert(spec_toks.skip(toks@.len() as int) =~= Seq::<Seq<u8>>::empty());
            }
            i += 1;
        }
        proof {
            assert(lines.skip(n as int) =~= Seq::<Seq<u8>>::empty());
            assert(build(lines, Seq::empty(), empty) == (keys_view(keys@), g@));
            assert(edge_total(lines.skip(n as int)) == 0);
            assert forall|k: int| 0 <= k < lines.len() implies
                (#[trigger] tokens(lines[k])).len() > 0 by {}
            g.lemma_wf();
        }
        Some(SymbolGraph { keys, g })
    }

    /// Reading more lines only adds symbols.
    proof fn lemma_build_keys(lines: Seq<Seq<u8>>, keys: Seq<Seq<u8>>, a: Seq<Seq<usize>>)
        ensures
            keys.len() <= build(lines, keys, a).0.len(),
        decreases lines.len(),
    {
        if lines.len() > 0 {
            let toks = tokens(lines[0]);
            let keys2 = intern_all(keys, toks);
            let a2 = link_all(a, keys2, position(keys2, toks[0]), toks.skip(1));
            Self::lemma_interned_all(keys, toks);
            Self::lemma_build_keys(lines.skip(1), keys2, a2);
        }
    }

    /// Interning keeps what was there and makes every token present.
    proof fn lemma_interned_all(keys: Seq<Seq<u8>>, toks: Seq<Seq<u8>>)
        ensures
            keys.len() <= intern_all(keys, toks).len(),
            forall|name: Seq<u8>| keys.contains(name) ==> intern_all(keys, toks).contains(name),
            forall|k: int| 0 <= k < toks.len() ==> intern_all(keys,
                toks).contains(#[trigger] toks[k]),
        decreases toks.len(),
    {
        if toks.len() > 0 {
            let keys1 = interned(keys, toks[0]);
            Self::lemma_interned_all(keys1, toks.skip(1));
            let all = intern_all(keys, toks);
            assert forall|name: Seq<u8>| keys.contains(name) implies all.contains(name) by {
                let i = choose|i: int| 0 <= i < keys.len() && keys[i] == name;
                assert(keys1[i] == name);
                assert(keys1.contains(name));
            }
            assert forall|k: int| 0 <= k < toks.len() implies all.contains(#[trigger] toks[k]) by {
                if k == 0 {
                    if keys.contains(toks[0]) {
                    } else {
                        assert(keys1[keys.len() as int] == toks[0]);
                    }
                    assert(keys1.contains(toks[0]));
                } else {
                    assert(toks.skip(1)[k - 1] == toks[k]);
                }
            }
        }
    }

    /// Number of symbols.
    pub fn name_count(&self) -> (r: usize)
        ensures
            r == self.names().len(),
    {
        self.keys.len()
    }

    /// Whether `s` is one of the symbols.
    pub fn contains(&self, s: &str) -> (r: bool)
        requires
            self.wf(),
        ensures
            r == self.names().contains(s.spec_bytes()),
    {
        Self::find(&self.keys, s.as_bytes()).is_some()
    }

    /// The number of the symbol `s`.
    pub fn index(&self, s: &str) -> (r: usize)
        requires
            self.wf(),
            self.names().contains(s.spec_bytes()),
        ensures
            r < self.names().len(),
            self.names()[r as int] == s.spec_bytes(),
    {
        Self::find(&self.keys, s.as_bytes()).unwrap()
    }

    /// The symbol with the number `v`.
    pub fn name(&self, v: usize) -> (r: &[u8])
        requires
            self.wf(),
            v < self.names().len(),
        ensures
            r@ == self.names()[v as int],
    {
        self.keys[v].as_slice()
    }

    /// The graph.
    pub fn graph(&self) -> (r: &Graph)
        requires
            self.wf(),
        ensures
            r.wf(),
            r@ == self.adjacency(),
    {
        &self.g
    }
}

} // verus!
