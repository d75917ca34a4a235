use vstd::prelude::*;

use crate::instance::BoundMap;

verus! {

/// How the lower dependency bound of each edge is drawn.
pub enum LowerBoundDependencyType {
    /// drawn from the given half-open interval
    Interval((usize, usize)),
    /// below the size of the edge's dependency set
    NearlyStrong,
    /// the size of the edge's dependency set
    Strong,
}

/// How the upper dependency bound of each edge is drawn.
pub enum UpperBoundDependencyType {
    /// drawn from the given half-open interval
    Interval((usize, usize)),
    /// below the size of the edge's dependency set, when possible
    NearlyWeak,
    /// the size of the edge's dependency set
    Weak,
}

/// How the dependency bounds of an instance are produced.
pub enum DependencyBoundsType {
    /// the same lower and upper bound on every edge
    Constant(usize, usize),
    /// both bounds drawn from the given half-open interval
    Interval((usize, usize)),
    /// bounds given directly
    Custom(BoundMap, BoundMap),
}

} // verus!
