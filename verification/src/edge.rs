//! Weighted undirected edges.

use vstd::prelude::*;

verus! {

/// An undirected edge between two vertices with a weight.
///
/// The weight is an unsigned integer; edges are ordered by weight alone.
#[derive(Clone, Copy, Debug, PartialEq, Eq, Structural)]
pub struct Edge {
    pub v: usize,
    pub w: usize,
    pub weight: u64,
}

impl Edge {
    /// The end of the edge opposite to `vertex`, if `vertex` is an end of it.
    pub open spec fn spec_other(&self, vertex: usize) -> Option<usize> {
        if vertex == self.v {
            Some(self.w)
        } else if vertex == self.w {
            Some(self.v)
        } else {
            None
        }
    }

    /// Whether `x` is an end of the edge.
    pub open spec fn touches(&self, x: usize) -> bool {
        self.v == x || self.w == x
    }

    /// Whether the edge joins `x` and `y`.
    pub open spec fn joins(&self, x: usize, y: usize) -> bool {
        (self.v == x && self.w == y) || (self.v == y && self.w == x)
    }

    /// An edge between `v` and `w` with the given weight.
    pub fn new(v: usize, w: usize, weight: u64) -> (e: Edge)
        ensures
            e == (Edge { v, w, weight }),
    {
        Edge { v, w, weight }
    }

    /// The weight of the edge.
    pub fn weight(&self) -> (r: u64)
        ensures
            r == self.weight,
    {
        self.weight
    }

    /// One end of the edge.
    pub fn either(&self) -> (r: usize)
        ensures
            r == self.v,
    {
        self.v
    }

    /// The end opposite to `vertex`; `None` when `vertex` is not an end of the edge.
    pub fn other(&self, vertex: usize) -> (r: Option<usize>)
        ensures
            r == self.spec_other(vertex),
    {
        if vertex == self.v {
            Some(self.w)
        } else if vertex == self.w {
            Some(self.v)
        } else {
            None
        }
    }
}

} // verus!
