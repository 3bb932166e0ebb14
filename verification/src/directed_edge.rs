//! Weighted directed edges.

use vstd::prelude::*;

verus! {

/// A directed edge from one vertex to another with a weight.
#[derive(Clone, Copy, Debug, PartialEq, Eq, Structural)]
pub struct DirectedEdge {
    pub v: usize,
    pub w: usize,
    pub weight: u64,
}

impl DirectedEdge {
    /// An edge from `v` to `w` with the given weight.
    pub fn new(v: usize, w: usize, weight: u64) -> (e: DirectedEdge)
        ensures
            e == (DirectedEdge { v, w, weight }),
    {
        DirectedEdge { v, w, weight }
    }

    /// The weight of the edge.
    pub fn weight(&self) -> (r: u64)
        ensures
            r == self.weight,
    {
        self.weight
    }

    /// The vertex the edge leaves.
    pub fn from(&self) -> (r: usize)
        ensures
            r == self.v,
    {
        self.v
    }

    /// The vertex the edge leads to.
    pub fn to(&self) -> (r: usize)
        ensures
            r == self.w,
    {
        self.w
    }
}

} // verus!
