use vstd::prelude::*;

use crate::digraph::Digraph;
use crate::generator::LowerBoundDependencyType;
use crate::generator::UpperBoundDependencyType;
use crate::instance::BoundMap;
use crate::random::random_in_range;
use crate::traits::pair_view;
use crate::traits::GraphImpl;
use crate::weighted_graph::WeightedGraph;

verus! {

/// Both bound maps cover exactly the graph's edges and on each edge
/// the lower bound is at most the upper one.
pub open spec fn bounds_cover(
    g: WeightedGraph,
    l: Map<(int, int), usize>,
    u: Map<(int, int), usize>,
) -> bool {
    &&& (forall|e: (int, int)| #[trigger]
        g.edge_set().contains(e) ==> l.dom().contains(e) && u.dom().contains(e) && l[e]
            <= u[e])
}

/// Gives every edge of `g` the lower bound `l` and the upper bound `u`.
pub fn create_constant_bounds(g: &WeightedGraph, l: usize, u: usize) -> (r: (
    BoundMap,
    BoundMap,
))
    requires
        g.wf(),
        l <= u,
    ensures
        r.0.wf(),
        r.1.wf(),
        bounds_cover(*g, r.0.spec_map(), r.1.spec_map()),
        forall|e: (int, int)| #[trigger]
            g.edge_set().contains(e) ==> r.0.spec_map()[e] == l && r.1.spec_map()[e]
                == u,
{
    let mut l_bound = BoundMap::new();
    let mut u_bound = BoundMap::new();
    let edges = g.edges();
    let mut k: usize = 0;
    while k < edges.len()
        invariant
            g.wf(),
            k <= edges@.len(),
            l_bound.wf(),
            u_bound.wf(),
            forall|m: int|
                0 <= m < edges@.len() ==> g.edge_set().contains(pair_view(
                    #[trigger] edges@[m],
                )),
            forall|e: (int, int)| #[trigger]
                g.edge_set().contains(e) ==> exists|m: int|
                    0 <= m < edges@.len() && pair_view(edges@[m]) == e,
            forall|m: int|
                0 <= m < k ==> l_bound.spec_map().dom().contains(pair_view(
                    #[trigger] edges@[m],
                )) && u_bound.spec_map().dom().contains(pair_view(edges@[m]))
                    && l_bound.spec_map()[pair_view(edges@[m])] == l
                    && u_bound.spec_map()[pair_view(edges@[m])] == u,
        decreases edges@.len() - k,
    {
        let (a, b) = edges[k];
        l_bound.insert(a, b, l);
        u_bound.insert(a, b, u);
        k = k + 1;
    }
    proof {
        assert forall|e: (int, int)| #[trigger] g.edge_set().contains(e)
            implies l_bound.spec_map().dom().contains(e)
            && u_bound.spec_map().dom().contains(e) && l_bound.spec_map()[e] == l
            && u_bound.spec_map()[e] == u by {
            let m = choose|m: int|
                0 <= m < edges@.len() && pair_view(edges@[m]) == e;
        }
    }
    (l_bound, u_bound)
}

/// Draws, for every edge of `g`, a lower bound in `[lb, ub)` and an
/// upper bound between it and `ub`.
pub fn create_interval_bounds(g: &WeightedGraph, lb: usize, ub: usize) -> (r: (
    BoundMap,
    BoundMap,
))
    requires
        g.wf(),
        lb < ub,
    ensures
        r.0.wf(),
        r.1.wf(),
        bounds_cover(*g, r.0.spec_map(), r.1.spec_map()),
        forall|e: (int, int)| #[trigger]
            g.edge_set().contains(e) ==> lb <= r.0.spec_map()[e] && r.1.spec_map()[e]
                < ub,
{
    let mut l_bound = BoundMap::new();
    let mut u_bound = BoundMap::new();
    let edges = g.edges();
    let mut k: usize = 0;
    while k < edges.len()
        invariant
            g.wf(),
            lb < ub,
            k <= edges@.len(),
            l_bound.wf(),
            u_bound.wf(),
            forall|m: int|
                0 <= m < edges@.len() ==> g.edge_set().contains(pair_view(
                    #[trigger] edges@[m],
                )),
            forall|e: (int, int)| #[trigger]
                g.edge_set().contains(e) ==> exists|m: int|
                    0 <= m < edges@.len() && pair_view(edges@[m]) == e,
            forall|m: int|
                0 <= m < k ==> l_bound.spec_map().dom().contains(pair_view(
                    #[trigger] edges@[m],
                )) && u_bound.spec_map().dom().contains(pair_view(edges@[m]))
                    && l_bound.spec_map()[pair_view(edges@[m])] <= u_bound.spec_map()[
                    pair_view(edges@[m])
                ] && lb <= l_bound.spec_map()[pair_view(edges@[m])]
                    && u_bound.spec_map()[pair_view(edges@[m])] < ub,
        decreases edges@.len() - k,
    {
        let (a, b) = edges[k];
        let l = random_in_range(lb, ub);
        let u = random_in_range(l, ub);
        l_bound.insert(a, b, l);
        u_bound.insert(a, b, u);
        k = k + 1;
    }
    proof {
        assert forall|e: (int, int)| #[trigger] g.edge_set().contains(e)
            implies l_bound.spec_map().dom().contains(e)
            && u_bound.spec_map().dom().contains(e) && l_bound.spec_map()[e]
            <= u_bound.spec_map()[e] by {
            let m = choose|m: int|
                0 <= m < edges@.len() && pair_view(edges@[m]) == e;
        }
    }
    (l_bound, u_bound)
}

/// Draws, for every edge of `g`, dependency bounds shaped by the given
/// parameters, against the dependency counts of the digraph `d`. Each
/// drawn pair respects the lower-before-upper invariant; a draw whose
/// interval would be empty falls back to its lower end.
pub fn create_from_custom_bounds(
    g: &WeightedGraph,
    d: &Digraph,
    lb_param: &LowerBoundDependencyType,
    ub_param: &UpperBoundDependencyType,
) -> (r: (BoundMap, BoundMap))
    requires
        g.wf(),
        d.wf(),
        d.spec_verts() == g.edge_set().len(),
    ensures
        r.0.wf(),
        r.1.wf(),
        bounds_cover(*g, r.0.spec_map(), r.1.spec_map()),
{
    let mut l_bound = BoundMap::new();
    let mut u_bound = BoundMap::new();
    let edges = g.edges();
    let mut k: usize = 0;
    while k < edges.len()
        invariant
            g.wf(),
            d.wf(),
            d.spec_verts() == g.edge_set().len(),
            k <= edges@.len(),
            edges@.len() == g.edge_set().len(),
            l_bound.wf(),
            u_bound.wf(),
            forall|m: int|
                0 <= m < edges@.len() ==> g.edge_set().contains(pair_view(
                    #[trigger] edges@[m],
                )),
            forall|e: (int, int)| #[trigger]
                g.edge_set().contains(e) ==> exists|m: int|
                    0 <= m < edges@.len() && pair_view(edges@[m]) == e,
            forall|m: int|
                0 <= m < k ==> l_bound.spec_map().dom().contains(pair_view(
                    #[trigger] edges@[m],
                )) && u_bound.spec_map().dom().contains(pair_view(edges@[m]))
                    && l_bound.spec_map()[pair_view(edges@[m])] <= u_bound.spec_map()[
                    pair_view(edges@[m])
                ],
        decreases edges@.len() - k,
    {
        let (a, b) = edges[k];
        let num_deps = crate::properties::num_in_neighbors(d, k);
        let l = match lb_param {
            LowerBoundDependencyType::Interval((min_l, max_l)) => {
                if *min_l < *max_l {
                    random_in_range(*min_l, *max_l)
                } else {
                    *min_l
                }
            },
            LowerBoundDependencyType::NearlyStrong => {
                if 0 < num_deps {
                    random_in_range(0, num_deps)
                } else {
                    0
                }
            },
            LowerBoundDependencyType::Strong => num_deps,
        };
        let u = match ub_param {
            UpperBoundDependencyType::Interval((min_u, max_u)) => {
                let low = if l >= *min_u {
                    l
                } else {
                    *min_u
                };
                if low < *max_u {
                    random_in_range(low, *max_u)
                } else {
                    low
                }
            },
            UpperBoundDependencyType::NearlyWeak => {
                if l >= num_deps {
                    l
                } else {
                    random_in_range(l, num_deps)
                }
            },
            UpperBoundDependencyType::Weak => {
                if num_deps >= l {
                    num_deps
                } else {
                    l
                }
            },
        };
        l_bound.insert(a, b, l);
        u_bound.insert(a, b, u);
        k = k + 1;
    }
    proof {
        assert forall|e: (int, int)| #[trigger] g.edge_set().contains(e)
            implies l_bound.spec_map().dom().contains(e)
            && u_bound.spec_map().dom().contains(e) && l_bound.spec_map()[e]
            <= u_bound.spec_map()[e] by {
            let m = choose|m: int|
                0 <= m < edges@.len() && pair_view(edges@[m]) == e;
        }
    }
    (l_bound, u_bound)
}

} // verus!
