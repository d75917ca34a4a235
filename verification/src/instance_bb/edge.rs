use vstd::prelude::*;

use crate::branch_bound::traits::SolutionCost;
use crate::branch_bound::traits::Variable;

verus! {

/// An undirected edge, stored canonically with `u <= v`.
#[derive(PartialEq, Eq, Structural, Clone, Copy, Debug)]
pub struct Edge {
    pub u: usize,
    pub v: usize,
}

/// An edge as a pair of vertex indices.
pub type EdgeTuple = (usize, usize);

/// An edge as a pair of mathematical integers.
pub open spec fn edge_view(e: Edge) -> (int, int) {
    (e.u as int, e.v as int)
}

/// A sequence of edges as integer pairs.
pub open spec fn edge_views(s: Seq<Edge>) -> Seq<(int, int)> {
    s.map_values(|e: Edge| edge_view(e))
}

/// The set of integer pairs of a sequence of edges.
pub open spec fn edge_view_set(s: Seq<Edge>) -> Set<(int, int)> {
    edge_views(s).to_set()
}

impl Variable for Edge {
    type ValueType = bool;
}

/// The total weight of a set of chosen edges.
#[derive(PartialEq, Eq, Structural, Clone, Copy, Debug)]
pub struct EdgeWeight {
    pub weight: u128,
}

impl SolutionCost for EdgeWeight {
    open spec fn spec_value(&self) -> int {
        self.weight as int
    }

    fn lt(&self, other: &Self) -> (r: bool) {
        self.weight < other.weight
    }

    fn le(&self, other: &Self) -> (r: bool) {
        self.weight <= other.weight
    }

    fn eq_value(&self, other: &Self) -> (r: bool) {
        self.weight == other.weight
    }

    fn duplicate(&self) -> (r: Self) {
        EdgeWeight { weight: self.weight }
    }
}

} // verus!
