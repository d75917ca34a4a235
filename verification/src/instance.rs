use vstd::prelude::*;

use crate::digraph::Digraph;
use crate::traits::pair_view;
use crate::traits::GraphImpl;
use crate::weighted_graph::WeightedGraph;

verus! {

/// A mapping from edges to dependency bounds, backed by a
/// duplicate-free association list keyed by the edge pair.
pub struct BoundMap {
    entries: Vec<((usize, usize), usize)>,
    bmap: Ghost<Map<(int, int), usize>>,
}

impl BoundMap {
    /// The bound of every edge in the domain.
    pub closed spec fn spec_map(&self) -> Map<(int, int), usize> {
        self.bmap@
    }

    pub closed spec fn wf(&self) -> bool {
        &&& (forall|k1: int, k2: int|
            0 <= k1 < k2 < self.entries@.len() ==> pair_view(
                #[trigger] self.entries@[k1].0,
            ) != pair_view(#[trigger] self.entries@[k2].0))
        &&& (forall|k: int|
            0 <= k < self.entries@.len() ==> self.bmap@.dom().contains(pair_view(
                #[trigger] self.entries@[k].0,
            )) && self.bmap@[pair_view(self.entries@[k].0)] == self.entries@[k].1)
        &&& (forall|e: (int, int)| #[trigger]
            self.bmap@.dom().contains(e) ==> exists|k: int|
                0 <= k < self.entries@.len() && pair_view(#[trigger] self.entries@[k].0)
                    == e)
    }

    /// Creates an empty mapping.
    pub fn new() -> (r: Self)
        ensures
            r.wf(),
            r.spec_map() == Map::<(int, int), usize>::empty(),
    {
        Self { entries: Vec::new(), bmap: Ghost(Map::empty()) }
    }

    /// Sets the bound of the edge `(u, v)` to `b`.
    pub fn insert(&mut self, u: usize, v: usize, b: usize)
        requires
            old(self).wf(),
        ensures
            final(self).wf(),
            final(self).spec_map() == old(self).spec_map().insert((u as int, v as int), b),
    {
        let n = self.entries.len();
        let mut k: usize = 0;
        while k < n
            invariant
                self == old(self),
                self.wf(),
                k <= n,
                n == self.entries@.len(),
                forall|m: int|
                    0 <= m < k ==> pair_view(#[trigger] self.entries@[m].0) != (
                    u as int,
                    v as int,
                ),
            decreases n - k,
        {
            let entry = self.entries[k];
            if entry.0.0 == u && entry.0.1 == v {
                self.entries[k] = ((u, v), b);
                proof {
                    self.bmap = Ghost(self.bmap@.insert((u as int, v as int), b));
                    assert forall|e: (int, int)| #[trigger]
                        self.bmap@.dom().contains(e) implies exists|m: int|
                        0 <= m < self.entries@.len() && pair_view(
                            #[trigger] self.entries@[m].0,
                        ) == e by {
                        if e == (u as int, v as int) {
                            assert(pair_view(self.entries@[k as int].0) == e);
                        } else {
                            let m = choose|m: int|
                                0 <= m < old(self).entries@.len() && pair_view(
                                    #[trigger] old(self).entries@[m].0,
                                ) == e;
                            assert(pair_view(self.entries@[m].0) == e);
                        }
                    }
                }
                return ;
            }
            k = k + 1;
        }
        let ghost prev = self.entries@;
        self.entries.push(((u, v), b));
        proof {
            self.bmap = Ghost(self.bmap@.insert((u as int, v as int), b));
            assert forall|e: (int, int)| #[trigger] self.bmap@.dom().contains(e)
                implies exists|m: int|
                0 <= m < self.entries@.len() && pair_view(#[trigger] self.entries@[m].0)
                    == e by {
                if e == (u as int, v as int) {
                    assert(pair_view(self.entries@[self.entries@.len() - 1].0) == e);
                } else {
                    let m = choose|m: int|
                        0 <= m < prev.len() && pair_view(#[trigger] prev[m].0) == e;
                    assert(pair_view(self.entries@[m].0) == e);
                }
            }
        }
    }

    /// Returns the bound of the edge `(u, v)`, or `None` when the edge
    /// has none.
    pub fn get(&self, u: usize, v: usize) -> (r: Option<usize>)
        requires
            self.wf(),
        ensures
            r == (if self.spec_map().dom().contains((u as int, v as int)) {
                Some(self.spec_map()[(u as int, v as int)])
            } else {
                None::<usize>
            }),
    {
        let n = self.entries.len();
        let mut k: usize = 0;
        while k < n
            invariant
                self.wf(),
                k <= n,
                n == self.entries@.len(),
                forall|m: int|
                    0 <= m < k ==> pair_view(#[trigger] self.entries@[m].0) != (
                    u as int,
                    v as int,
                ),
            decreases n - k,
        {
            let entry = self.entries[k];
            if entry.0.0 == u && entry.0.1 == v {
                return Some(entry.1);
            }
            k = k + 1;
        }
        proof {
            if self.spec_map().dom().contains((u as int, v as int)) {
                let m = choose|m: int|
                    0 <= m < self.entries@.len() && pair_view(
                        #[trigger] self.entries@[m].0,
                    ) == (u as int, v as int);
                assert(false);
            }
        }
        None
    }
}

/// An instance of the minimum spanning tree problem with dependency
/// constraints: a weighted graph, a dependency digraph whose vertices
/// stand for the graph's edges in canonical order, and per-edge lower
/// and upper bounds on the number of chosen dependencies.
pub struct Instance {
    graph: WeightedGraph,
    dependencies: Digraph,
    dep_lb: BoundMap,
    dep_ub: BoundMap,
}

impl Instance {
    pub closed spec fn spec_graph(&self) -> WeightedGraph {
        self.graph
    }

    pub closed spec fn spec_dependencies(&self) -> Digraph {
        self.dependencies
    }

    pub closed spec fn spec_dep_lb(&self) -> Map<(int, int), usize> {
        self.dep_lb.spec_map()
    }

    pub closed spec fn spec_dep_ub(&self) -> Map<(int, int), usize> {
        self.dep_ub.spec_map()
    }

    pub closed spec fn wf(&self) -> bool {
        &&& self.graph.wf()
        &&& self.dependencies.wf()
        &&& self.dep_lb.wf()
        &&& self.dep_ub.wf()
        &&& self.dependencies.spec_verts() == self.graph.edge_set().len()
        &&& (forall|e: (int, int)| #[trigger]
            self.graph.edge_set().contains(e) ==> self.dep_lb.spec_map().dom().contains(
                e,
            ) && self.dep_ub.spec_map().dom().contains(e)
                && self.dep_lb.spec_map()[e] <= self.dep_ub.spec_map()[e])
    }

    /// Exposes the instance's well-formedness pieces to its users.
    pub proof fn lemma_wf(&self)
        requires
            self.wf(),
        ensures
            self.spec_graph().wf(),
            self.spec_dependencies().wf(),
            self.spec_dependencies().spec_verts() == self.spec_graph().edge_set().len(),
            forall|e: (int, int)| #[trigger]
                self.spec_graph().edge_set().contains(e) ==> self.spec_dep_lb(
                ).dom().contains(e) && self.spec_dep_ub().dom().contains(e)
                    && self.spec_dep_lb()[e] <= self.spec_dep_ub()[e],
    {
    }

    /// Creates an instance from a weighted graph, a dependency digraph
    /// with one vertex per edge, and lower and upper dependency bounds
    /// covering every edge, the lower one never above the upper one.
    pub fn new(g: WeightedGraph, d: Digraph, l: BoundMap, u: BoundMap) -> (r: Self)
        requires
            g.wf(),
            d.wf(),
            l.wf(),
            u.wf(),
            d.spec_verts() == g.edge_set().len(),
            forall|e: (int, int)| #[trigger]
                g.edge_set().contains(e) ==> l.spec_map().dom().contains(e)
                    && u.spec_map().dom().contains(e) && l.spec_map()[e]
                    <= u.spec_map()[e],
        ensures
            r.wf(),
            r.spec_graph() == g,
            r.spec_dependencies() == d,
            r.spec_dep_lb() == l.spec_map(),
            r.spec_dep_ub() == u.spec_map(),
    {
        Self { graph: g, dependencies: d, dep_lb: l, dep_ub: u }
    }

    /// The weighted graph.
    pub fn graph(&self) -> (r: &WeightedGraph)
        ensures
            *r == self.spec_graph(),
    {
        &self.graph
    }

    /// The dependency digraph.
    pub fn dependencies(&self) -> (r: &Digraph)
        ensures
            *r == self.spec_dependencies(),
    {
        &self.dependencies
    }

    /// The per-edge lower dependency bounds.
    pub fn dep_lb(&self) -> (r: &BoundMap)
        requires
            self.wf(),
        ensures
            r.spec_map() == self.spec_dep_lb(),
            r.wf(),
    {
        &self.dep_lb
    }

    /// The per-edge upper dependency bounds.
    pub fn dep_ub(&self) -> (r: &BoundMap)
        requires
            self.wf(),
        ensures
            r.spec_map() == self.spec_dep_ub(),
            r.wf(),
    {
        &self.dep_ub
    }
}

} // verus!
