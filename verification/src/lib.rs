pub mod algorithms;
pub mod branch_bound;
pub mod connectivity;
pub mod dependency_bounds;
mod digraph;
mod disjoint_set;
mod edge_set;
pub mod files;
pub mod generator;
mod graph;
mod instance;
pub mod instance_bb;
mod matrix;
pub mod minimality;
pub mod neighbors;
pub mod parsing;
pub mod properties;
pub mod random;
mod subgraph;
pub mod traits;
mod triangular_matrix;
mod weighted_graph;

pub use crate::digraph::Digraph;
pub use crate::disjoint_set::DisjointSet;
pub use crate::edge_set::EdgeSet;
pub use crate::graph::Graph;
pub use crate::instance::BoundMap;
pub use crate::instance::Instance;
pub use crate::matrix::Matrix;
pub use crate::subgraph::Subgraph;
pub use crate::traits::GraphImpl;
pub use crate::triangular_matrix::UpperTriangularMatrix;
pub use crate::weighted_graph::WeightedGraph;

use vstd::prelude::*;

verus! {

/// Swaps the endpoints of an edge when given in decreasing order, so
/// that they name an upper-triangle position.
pub fn adjust_endpoints(i: &mut usize, j: &mut usize)
    ensures
        *final(i) <= *final(j),
        (*final(i), *final(j)) == (if *old(i) <= *old(j) { (*old(i), *old(j)) } else {
            (*old(j), *old(i))
        }),
{
    if *i > *j {
        let t = *i;
        *i = *j;
        *j = t;
    }
}

} // verus!
