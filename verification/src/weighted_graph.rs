use vstd::prelude::*;

use crate::graph::graph_capacity_ok;
use crate::graph::Graph;
use crate::traits::pair_view;
use crate::traits::GraphImpl;

verus! {

/// An undirected graph together with a weight for every edge. Weights
/// live in an association list keyed by the canonically ordered edge;
/// the ghost field `wmap` is its view as a map, whose domain is always
/// exactly the edge set. A freshly added edge weighs zero.
pub struct WeightedGraph {
    graph: Graph,
    weights: Vec<((usize, usize), u64)>,
    wmap: Ghost<Map<(int, int), u64>>,
}

impl WeightedGraph {
    /// The weight of every edge, keyed by canonically ordered pairs.
    pub closed spec fn spec_weights(self) -> Map<(int, int), u64> {
        self.wmap@
    }

    closed spec fn wf_weights(self) -> bool {
        &&& self.wmap@.dom() == self.graph.edge_set()
        &&& (forall|k1: int, k2: int|
            0 <= k1 < k2 < self.weights@.len() ==> pair_view(
                #[trigger] self.weights@[k1].0,
            ) != pair_view(#[trigger] self.weights@[k2].0))
        &&& (forall|k: int|
            0 <= k < self.weights@.len() ==> self.graph.edge_set().contains(pair_view(
                #[trigger] self.weights@[k].0,
            )) && self.wmap@[pair_view(self.weights@[k].0)] == self.weights@[k].1)
        &&& (forall|e: (int, int)| #[trigger]
            self.graph.edge_set().contains(e) ==> exists|k: int|
                0 <= k < self.weights@.len() && pair_view(#[trigger] self.weights@[k].0)
                    == e)
    }

    /// Creates a weighted graph with `num_verts` vertices and no edges.
    pub fn new(num_verts: usize) -> (r: Self)
        requires
            graph_capacity_ok(num_verts as int),
        ensures
            r.wf(),
            r.spec_verts() == num_verts,
            r.edge_set() == Set::<(int, int)>::empty(),
            r.spec_weights() == Map::<(int, int), u64>::empty(),
    {
        let graph = Graph::new(num_verts);
        let r = Self { graph, weights: Vec::new(), wmap: Ghost(Map::empty()) };
        proof {
            assert(r.wmap@.dom() =~= r.graph.edge_set());
        }
        r
    }

    /// Creates a weighted graph with `num_verts` vertices and the given
    /// weighted edges.
    pub fn from_weighted_edges(num_verts: usize, edges: Vec<(usize, usize, u64)>) -> (r:
        Self)
        requires
            graph_capacity_ok(num_verts as int),
            forall|k: int|
                0 <= k < edges@.len() ==> (#[trigger] edges@[k]).0 < num_verts
                    && edges@[k].1 < num_verts,
            forall|k1: int, k2: int|
                0 <= k1 < k2 < edges@.len() ==> Graph::canon(
                    (#[trigger] edges@[k1]).0 as int,
                    edges@[k1].1 as int,
                ) != Graph::canon((#[trigger] edges@[k2]).0 as int, edges@[k2].1 as int),
        ensures
            r.wf(),
            r.spec_verts() == num_verts,
            forall|k: int|
                0 <= k < edges@.len() ==> r.edge_set().contains(Graph::canon(
                    (#[trigger] edges@[k]).0 as int,
                    edges@[k].1 as int,
                )) && r.spec_weights()[Graph::canon(
                    edges@[k].0 as int,
                    edges@[k].1 as int,
                )] == edges@[k].2,
            forall|e: (int, int)| #[trigger]
                r.edge_set().contains(e) ==> exists|k: int|
                    0 <= k < edges@.len() && Graph::canon(
                        (#[trigger] edges@[k]).0 as int,
                        edges@[k].1 as int,
                    ) == e,
    {
        let mut wg = Self::new(num_verts);
        let mut k: usize = 0;
        while k < edges.len()
            invariant
                k <= edges@.len(),
                wg.wf(),
                wg.spec_verts() == num_verts,
                graph_capacity_ok(num_verts as int),
                forall|m: int|
                    0 <= m < edges@.len() ==> (#[trigger] edges@[m]).0 < num_verts
                        && edges@[m].1 < num_verts,
                forall|k1: int, k2: int|
                    0 <= k1 < k2 < edges@.len() ==> Graph::canon(
                        (#[trigger] edges@[k1]).0 as int,
                        edges@[k1].1 as int,
                    ) != Graph::canon(
                        (#[trigger] edges@[k2]).0 as int,
                        edges@[k2].1 as int,
                    ),
                forall|m: int|
                    0 <= m < k ==> wg.edge_set().contains(Graph::canon(
                        (#[trigger] edges@[m]).0 as int,
                        edges@[m].1 as int,
                    )) && wg.spec_weights()[Graph::canon(
                        edges@[m].0 as int,
                        edges@[m].1 as int,
                    )] == edges@[m].2,
                forall|e: (int, int)| #[trigger]
                    wg.edge_set().contains(e) ==> exists|m: int|
                        0 <= m < k && Graph::canon(
                            (#[trigger] edges@[m]).0 as int,
                            edges@[m].1 as int,
                        ) == e,
            decreases edges@.len() - k,
        {
            let (u, v, w) = edges[k];
            let res = wg.add_weighted_edge(u, v, w);
            proof {
                if res is Err {
                    let e = Graph::canon(u as int, v as int);
                    let m = choose|m: int|
                        0 <= m < k && Graph::canon(
                            (#[trigger] edges@[m]).0 as int,
                            edges@[m].1 as int,
                        ) == e;
                    assert(false);
                }
            }
            k = k + 1;
        }
        wg
    }

    /// Adds the edge with endpoints `i` and `j` and weight `w`. Fails
    /// exactly when the edge is already present, leaving the graph
    /// unchanged.
    pub fn add_weighted_edge(&mut self, i: usize, j: usize, w: u64) -> (r: Result<
        (),
        &'static str,
    >)
        requires
            old(self).wf(),
            i < old(self).spec_verts(),
            j < old(self).spec_verts(),
        ensures
            final(self).wf(),
            final(self).spec_verts() == old(self).spec_verts(),
            r is Ok <==> !old(self).edge_set().contains(
                Graph::canon(i as int, j as int),
            ),
            r is Ok ==> final(self).edge_set() == old(self).edge_set().insert(
                Graph::canon(i as int, j as int),
            ) && final(self).spec_weights() == old(self).spec_weights().insert(
                Graph::canon(i as int, j as int),
                w,
            ),
            r is Err ==> final(self).edge_set() == old(self).edge_set() && final(self).spec_weights() == old(self).spec_weights(),
    {
        let (a, b) = if i <= j {
            (i, j)
        } else {
            (j, i)
        };
        match self.graph.add_edge(a, b) {
            Ok(()) => {
                self.weights.push(((a, b), w));
                proof {
                    self.wmap = Ghost(self.wmap@.insert((a as int, b as int), w));
                    assert(self.wmap@.dom() =~= self.graph.edge_set());
                    assert forall|e: (int, int)| #[trigger]
                        self.graph.edge_set().contains(e) implies exists|k: int|
                        0 <= k < self.weights@.len() && pair_view(
                            #[trigger] self.weights@[k].0,
                        ) == e by {
                        if e == (a as int, b as int) {
                            assert(pair_view(
                                self.weights@[self.weights@.len() - 1].0,
                            ) == e);
                        } else {
                            let k = choose|k: int|
                                0 <= k < old(self).weights@.len() && pair_view(
                                    #[trigger] old(self).weights@[k].0,
                                ) == e;
                            assert(pair_view(self.weights@[k].0) == e);
                        }
                    }
                }
                Ok(())
            },
            Err(_) => Err("WeightedGraph: attempt to add an existent edge"),
        }
    }

    /// Returns the weight of the edge with endpoints `i` and `j`, or
    /// `None` when there is no such edge.
    pub fn get_edge_weight(&self, i: usize, j: usize) -> (r: Option<u64>)
        requires
            self.wf(),
            i < self.spec_verts(),
            j < self.spec_verts(),
        ensures
            r == (if self.edge_set().contains(Graph::canon(i as int, j as int)) {
                Some(self.spec_weights()[Graph::canon(i as int, j as int)])
            } else {
                None::<u64>
            }),
    {
        let (a, b) = if i <= j {
            (i, j)
        } else {
            (j, i)
        };
        let mut k: usize = 0;
        while k < self.weights.len()
            invariant
                self.wf(),
                k <= self.weights@.len(),
                a == if i <= j {
                    i
                } else {
                    j
                },
                b == if i <= j {
                    j
                } else {
                    i
                },
                forall|m: int|
                    0 <= m < k ==> pair_view(#[trigger] self.weights@[m].0) != (
                    a as int,
                    b as int,
                ),
            decreases self.weights@.len() - k,
        {
            let (key, w) = self.weights[k];
            if key.0 == a && key.1 == b {
                return Some(w);
            }
            k = k + 1;
        }
        proof {
            if self.edge_set().contains((a as int, b as int)) {
                let m = choose|m: int|
                    0 <= m < self.weights@.len() && pair_view(
                        #[trigger] self.weights@[m].0,
                    ) == (a as int, b as int);
                assert(false);
            }
        }
        None
    }

    /// Sets the weight of the edge with endpoints `i` and `j` to `w` and
    /// returns the previous weight, or returns `None` and changes
    /// nothing when there is no such edge.
    pub fn set_edge_weight(&mut self, i: usize, j: usize, w: u64) -> (r: Option<u64>)
        requires
            old(self).wf(),
            i < old(self).spec_verts(),
            j < old(self).spec_verts(),
        ensures
            final(self).wf(),
            final(self).spec_verts() == old(self).spec_verts(),
            final(self).edge_set() == old(self).edge_set(),
            old(self).edge_set().contains(Graph::canon(i as int, j as int)) ==> r
                == Some(old(self).spec_weights()[Graph::canon(i as int, j as int)])
                && final(self).spec_weights() == old(self).spec_weights().insert(
                Graph::canon(i as int, j as int),
                w,
            ),
            !old(self).edge_set().contains(Graph::canon(i as int, j as int)) ==> r
                is None && final(self).spec_weights() == old(self).spec_weights(),
    {
        let (a, b) = if i <= j {
            (i, j)
        } else {
            (j, i)
        };
        let mut k: usize = 0;
        while k < self.weights.len()
            invariant
                self.wf(),
                self == old(self),
                k <= self.weights@.len(),
                a == if i <= j {
                    i
                } else {
                    j
                },
                b == if i <= j {
                    j
                } else {
                    i
                },
                forall|m: int|
                    0 <= m < k ==> pair_view(#[trigger] self.weights@[m].0) != (
                    a as int,
                    b as int,
                ),
            decreases self.weights@.len() - k,
        {
            let (key, old_w) = self.weights[k];
            if key.0 == a && key.1 == b {
                self.weights[k] = ((a, b), w);
                proof {
                    self.wmap = Ghost(self.wmap@.insert((a as int, b as int), w));
                    assert(self.wmap@.dom() =~= self.graph.edge_set());
                    assert forall|e: (int, int)| #[trigger]
                        self.graph.edge_set().contains(e) implies exists|m: int|
                        0 <= m < self.weights@.len() && pair_view(
                            #[trigger] self.weights@[m].0,
                        ) == e by {
                        let m = choose|m: int|
                            0 <= m < old(self).weights@.len() && pair_view(
                                #[trigger] old(self).weights@[m].0,
                            ) == e;
                        assert(pair_view(self.weights@[m].0) == e);
                    }
                }
                return Some(old_w);
            }
            k = k + 1;
        }
        proof {
            if self.edge_set().contains((a as int, b as int)) {
                let m = choose|m: int|
                    0 <= m < self.weights@.len() && pair_view(
                        #[trigger] self.weights@[m].0,
                    ) == (a as int, b as int);
                assert(false);
            }
        }
        None
    }

    /// Applies every entry of `weighting` through `set_edge_weight`;
    /// entries whose edge is absent are ignored.
    pub fn set_weighting(&mut self, weighting: Vec<((usize, usize), u64)>)
        requires
            old(self).wf(),
            forall|k: int|
                0 <= k < weighting@.len() ==> (#[trigger] weighting@[k]).0.0 < old(self).spec_verts() && weighting@[k].0.1 < old(self).spec_verts(),
            forall|k1: int, k2: int|
                0 <= k1 < k2 < weighting@.len() ==> Graph::canon(
                    (#[trigger] weighting@[k1]).0.0 as int,
                    weighting@[k1].0.1 as int,
                ) != Graph::canon(
                    (#[trigger] weighting@[k2]).0.0 as int,
                    weighting@[k2].0.1 as int,
                ),
        ensures
            final(self).wf(),
            final(self).spec_verts() == old(self).spec_verts(),
            final(self).edge_set() == old(self).edge_set(),
            forall|k: int|
                0 <= k < weighting@.len() && old(self).edge_set().contains(Graph::canon(
                    (#[trigger] weighting@[k]).0.0 as int,
                    weighting@[k].0.1 as int,
                )) ==> final(self).spec_weights()[Graph::canon(
                    weighting@[k].0.0 as int,
                    weighting@[k].0.1 as int,
                )] == weighting@[k].1,
            forall|e: (int, int)|
                old(self).edge_set().contains(e) && (forall|k: int|
                    0 <= k < weighting@.len() ==> Graph::canon(
                        (#[trigger] weighting@[k]).0.0 as int,
                        weighting@[k].0.1 as int,
                    ) != e) ==> final(self).spec_weights()[e] == old(self).spec_weights()[e],
    {
        let mut k: usize = 0;
        while k < weighting.len()
            invariant
                k <= weighting@.len(),
                self.wf(),
                self.spec_verts() == old(self).spec_verts(),
                self.edge_set() == old(self).edge_set(),
                forall|m: int|
                    0 <= m < weighting@.len() ==> (#[trigger] weighting@[m]).0.0 < old(self).spec_verts() && weighting@[m].0.1 < old(self).spec_verts(),
                forall|k1: int, k2: int|
                    0 <= k1 < k2 < weighting@.len() ==> Graph::canon(
                        (#[trigger] weighting@[k1]).0.0 as int,
                        weighting@[k1].0.1 as int,
                    ) != Graph::canon(
                        (#[trigger] weighting@[k2]).0.0 as int,
                        weighting@[k2].0.1 as int,
                    ),
                forall|m: int|
                    0 <= m < k && old(self).edge_set().contains(Graph::canon(
                        (#[trigger] weighting@[m]).0.0 as int,
                        weighting@[m].0.1 as int,
                    )) ==> self.spec_weights()[Graph::canon(
                        weighting@[m].0.0 as int,
                        weighting@[m].0.1 as int,
                    )] == weighting@[m].1,
                forall|e: (int, int)|
                    old(self).edge_set().contains(e) && (forall|m: int|
                        0 <= m < k ==> Graph::canon(
                            (#[trigger] weighting@[m]).0.0 as int,
                            weighting@[m].0.1 as int,
                        ) != e) ==> self.spec_weights()[e] == old(self).spec_weights()[e],
            decreases weighting@.len() - k,
        {
            let ((u, v), w) = weighting[k];
            self.set_edge_weight(u, v, w);
            k = k + 1;
        }
    }
}

impl WeightedGraph {
    /// A well-formed weighted graph's vertex count is within the
    /// storage capacity, so another graph of the same size can be made.
    pub proof fn lemma_capacity_ok(&self)
        requires
            self.wf(),
        ensures
            graph_capacity_ok(self.spec_verts()),
    {
        self.graph.lemma_capacity_ok();
    }
}

impl GraphImpl for WeightedGraph {
    closed spec fn spec_verts(&self) -> int {
        self.graph.spec_verts()
    }

    closed spec fn edge_set(&self) -> Set<(int, int)> {
        self.graph.edge_set()
    }

    open spec fn canon(u: int, v: int) -> (int, int) {
        if u <= v {
            (u, v)
        } else {
            (v, u)
        }
    }

    closed spec fn wf(&self) -> bool {
        &&& self.graph.wf()
        &&& self.wf_weights()
    }

    proof fn lemma_edge_set_props(&self) {
        self.graph.lemma_edge_set_props();
    }

    fn num_verts(&self) -> (r: usize) {
        self.graph.num_verts()
    }

    fn num_edges(&self) -> (r: usize) {
        self.graph.num_edges()
    }

    fn has_edge(&self, u: usize, v: usize) -> (r: bool) {
        self.graph.has_edge(u, v)
    }

    fn edges(&self) -> (r: Vec<(usize, usize)>)
        ensures
            forall|k1: int, k2: int|
                0 <= k1 < k2 < r@.len() ==> crate::traits::lex_lt(
                    pair_view(#[trigger] r@[k1]),
                    pair_view(#[trigger] r@[k2]),
                ),
    {
        self.graph.edges()
    }

    fn add_edge(&mut self, i: usize, j: usize) -> (r: Result<(), &'static str>)
        ensures
            r is Ok ==> final(self).spec_weights() == old(self).spec_weights().insert(
                Self::canon(i as int, j as int),
                0,
            ),
            r is Err ==> final(self).spec_weights() == old(self).spec_weights(),
    {
        match self.add_weighted_edge(i, j, 0) {
            Ok(()) => Ok(()),
            Err(_) => Err("WeightedGraph: attempt to add existing edge"),
        }
    }

    fn remove_edge(&mut self, i: usize, j: usize) -> (r: Result<(), &'static str>)
        ensures
            r is Ok ==> final(self).spec_weights() == old(self).spec_weights().remove(
                Self::canon(i as int, j as int),
            ),
            r is Err ==> final(self).spec_weights() == old(self).spec_weights(),
    {
        let (a, b) = if i <= j {
            (i, j)
        } else {
            (j, i)
        };
        let ghost removed = (a as int, b as int);
        if !self.graph.has_edge(a, b) {
            return Err("WeightedGraph: attempt to remove nonexisting edge");
        }
        // locate the weight entry while nothing is modified yet
        let n = self.weights.len();
        let mut k: usize = 0;
        let mut idx: usize = n;
        while k < n
            invariant
                self == old(self),
                self.wf(),
                k <= n,
                n == self.weights@.len(),
                removed == (a as int, b as int),
                idx <= n,
                idx == n ==> (forall|m: int|
                    0 <= m < k ==> pair_view(#[trigger] self.weights@[m].0) != removed),
                idx < n ==> pair_view(self.weights@[idx as int].0) == removed,
            decreases n - k,
        {
            let entry = self.weights[k];
            if idx == n && entry.0.0 == a && entry.0.1 == b {
                idx = k;
            }
            k = k + 1;
        }
        proof {
            if idx == n {
                assert(self.graph.edge_set().contains(removed));
                let m = choose|m: int|
                    0 <= m < self.weights@.len() && pair_view(
                        #[trigger] self.weights@[m].0,
                    ) == removed;
                assert(false);
            }
        }
        let res = self.graph.remove_edge(a, b);
        proof {
            assert(res is Ok);
        }
        let ghost prev = self.weights@;
        self.weights.remove(idx);
        proof {
            self.wmap = Ghost(self.wmap@.remove(removed));
            assert(self.wmap@.dom() =~= self.graph.edge_set());
            prev.remove_ensures(idx as int);
            assert(pair_view(prev[idx as int].0) == removed);
            assert forall|o: int|
                0 <= o < prev.len() && o != idx as int implies pair_view(
                #[trigger] prev[o].0,
            ) != removed by {
                if o < idx as int {
                    assert(pair_view(prev[o].0) != pair_view(prev[idx as int].0));
                } else {
                    assert(pair_view(prev[idx as int].0) != pair_view(prev[o].0));
                }
            }
            assert forall|k1: int, k2: int|
                0 <= k1 < k2 < self.weights@.len() implies pair_view(
                #[trigger] self.weights@[k1].0,
            ) != pair_view(#[trigger] self.weights@[k2].0) by {
                let o1 = if k1 < idx as int {
                    k1
                } else {
                    k1 + 1
                };
                let o2 = if k2 < idx as int {
                    k2
                } else {
                    k2 + 1
                };
                assert(self.weights@[k1] == prev[o1]);
                assert(self.weights@[k2] == prev[o2]);
            }
            assert forall|k: int|
                0 <= k < self.weights@.len() implies self.graph.edge_set().contains(
                pair_view(#[trigger] self.weights@[k].0),
            ) && self.wmap@[pair_view(self.weights@[k].0)] == self.weights@[k].1 by {
                let o = if k < idx as int {
                    k
                } else {
                    k + 1
                };
                assert(self.weights@[k] == prev[o]);
                assert(pair_view(prev[o].0) != removed);
            }
            assert forall|e: (int, int)| #[trigger] self.graph.edge_set().contains(e)
                implies exists|k: int|
                0 <= k < self.weights@.len() && pair_view(#[trigger] self.weights@[k].0)
                    == e by {
                let m = choose|m: int|
                    0 <= m < prev.len() && pair_view(#[trigger] prev[m].0) == e;
                if m < idx as int {
                    assert(pair_view(self.weights@[m].0) == e);
                } else {
                    assert(m > idx as int);
                    assert(pair_view(self.weights@[m - 1].0) == e);
                }
            }
        }
        Ok(())
    }
}

} // verus!
