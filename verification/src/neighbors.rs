use vstd::prelude::*;

use crate::traits::GraphImpl;

verus! {

/// Returns the number of in-neighbours of vertex `v` in `graph`. This
/// equals `num_out_neighbors` when the graph is undirected.
pub fn num_in_neighbors<'a, T: GraphImpl>(graph: &'a T, v: usize) -> (r: usize)
    requires
        graph.wf(),
        v < graph.spec_verts(),
    ensures
        r == Set::new(
            |u: int|
                0 <= u < graph.spec_verts() && graph.edge_set().contains(
                    T::canon(u, v as int),
                ),
        ).len(),
{
    crate::properties::num_in_neighbors(graph, v)
}

/// Returns the number of out-neighbours of vertex `u` in `graph`. This
/// equals `num_in_neighbors` when the graph is undirected.
pub fn num_out_neighbors<'a, T: GraphImpl>(graph: &'a T, u: usize) -> (r: usize)
    requires
        graph.wf(),
        u < graph.spec_verts(),
    ensures
        r == Set::new(
            |x: int|
                0 <= x < graph.spec_verts() && graph.edge_set().contains(
                    T::canon(u as int, x),
                ),
        ).len(),
{
    crate::properties::num_out_neighbors(graph, u)
}

/// Returns the in-neighbours of vertex `v` in ascending order: the
/// vertices `u` with an edge from `u` to `v`.
pub fn in_neighbors<'a, T: GraphImpl>(graph: &'a T, v: usize) -> (r: Vec<usize>)
    requires
        graph.wf(),
        v < graph.spec_verts(),
    ensures
        forall|k1: int, k2: int| 0 <= k1 < k2 < r@.len() ==> r@[k1] < r@[k2],
        forall|k: int|
            0 <= k < r@.len() ==> (#[trigger] r@[k]) < graph.spec_verts()
                && graph.edge_set().contains(T::canon(r@[k] as int, v as int)),
        forall|u: int|
            0 <= u < graph.spec_verts() && graph.edge_set().contains(
                #[trigger] T::canon(u, v as int),
            ) ==> exists|k: int| 0 <= k < r@.len() && r@[k] == u,
{
    let n = graph.num_verts();
    let mut result: Vec<usize> = Vec::new();
    let mut u: usize = 0;
    while u < n
        invariant
            graph.wf(),
            v < graph.spec_verts(),
            n == graph.spec_verts(),
            u <= n,
            forall|k1: int, k2: int|
                0 <= k1 < k2 < result@.len() ==> result@[k1] < result@[k2],
            forall|k: int| 0 <= k < result@.len() ==> (#[trigger] result@[k]) < u,
            forall|k: int|
                0 <= k < result@.len() ==> graph.edge_set().contains(
                    T::canon(#[trigger] result@[k] as int, v as int),
                ),
            forall|x: int|
                0 <= x < u && graph.edge_set().contains(
                    #[trigger] T::canon(x, v as int),
                ) ==> exists|k: int| 0 <= k < result@.len() && result@[k] == x,
        decreases n - u,
    {
        let ghost prev = result@;
        if graph.has_edge(u, v) {
            result.push(u);
        }
        proof {
            assert forall|x: int|
                0 <= x < u + 1 && graph.edge_set().contains(
                    #[trigger] T::canon(x, v as int),
                ) implies exists|k: int|
                0 <= k < result@.len() && result@[k] == x by {
                if x == u as int {
                    assert(result@[result@.len() - 1] == u);
                } else {
                    let k = choose|k: int| 0 <= k < prev.len() && prev[k] == x;
                    assert(result@[k] == x);
                }
            }
        }
        u = u + 1;
    }
    result
}

/// Returns the out-neighbours of vertex `u` in ascending order: the
/// vertices `v` with an edge from `u` to `v`.
pub fn out_neighbors<'a, T: GraphImpl>(graph: &'a T, u: usize) -> (r: Vec<usize>)
    requires
        graph.wf(),
        u < graph.spec_verts(),
    ensures
        forall|k1: int, k2: int| 0 <= k1 < k2 < r@.len() ==> r@[k1] < r@[k2],
        forall|k: int|
            0 <= k < r@.len() ==> (#[trigger] r@[k]) < graph.spec_verts()
                && graph.edge_set().contains(T::canon(u as int, r@[k] as int)),
        forall|x: int|
            0 <= x < graph.spec_verts() && graph.edge_set().contains(
                #[trigger] T::canon(u as int, x),
            ) ==> exists|k: int| 0 <= k < r@.len() && r@[k] == x,
{
    let n = graph.num_verts();
    let mut result: Vec<usize> = Vec::new();
    let mut v: usize = 0;
    while v < n
        invariant
            graph.wf(),
            u < graph.spec_verts(),
            n == graph.spec_verts(),
            v <= n,
            forall|k1: int, k2: int|
                0 <= k1 < k2 < result@.len() ==> result@[k1] < result@[k2],
            forall|k: int| 0 <= k < result@.len() ==> (#[trigger] result@[k]) < v,
            forall|k: int|
                0 <= k < result@.len() ==> graph.edge_set().contains(
                    T::canon(u as int, #[trigger] result@[k] as int),
                ),
            forall|x: int|
                0 <= x < v && graph.edge_set().contains(
                    #[trigger] T::canon(u as int, x),
                ) ==> exists|k: int| 0 <= k < result@.len() && result@[k] == x,
        decreases n - v,
    {
        let ghost prev = result@;
        if graph.has_edge(u, v) {
            result.push(v);
        }
        proof {
            assert forall|x: int|
                0 <= x < v + 1 && graph.edge_set().contains(
                    #[trigger] T::canon(u as int, x),
                ) implies exists|k: int|
                0 <= k < result@.len() && result@[k] == x by {
                if x == v as int {
                    assert(result@[result@.len() - 1] == v);
                } else {
                    let k = choose|k: int| 0 <= k < prev.len() && prev[k] == x;
                    assert(result@[k] == x);
                }
            }
        }
        v = v + 1;
    }
    result
}

} // verus!
