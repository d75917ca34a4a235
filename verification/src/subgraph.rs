use vstd::prelude::*;

use crate::digraph::digraph_capacity_ok;
use crate::digraph::lemma_arc_count_bound;
use crate::edge_set::EdgeSet;
use crate::traits::pair_view;
use crate::traits::pairs_view;
use crate::traits::GraphImpl;

verus! {

/// The size of a union of disjoint finite sets is the sum of their
/// sizes.
pub proof fn lemma_len_disjoint_union<A>(s1: Set<A>, s2: Set<A>)
    requires
        s1.finite(),
        s2.finite(),
        s1.disjoint(s2),
    ensures
        s1.union(s2).len() == s1.len() + s2.len(),
        s1.union(s2).finite(),
    decreases s2.len(),
{
    if s2.len() == 0 {
        assert(s2 =~= Set::empty());
        assert(s1.union(s2) =~= s1);
    } else {
        let a = s2.choose();
        assert(s2.contains(a));
        lemma_len_disjoint_union(s1, s2.remove(a));
        assert(s1.union(s2) =~= s1.union(s2.remove(a)).insert(a));
        assert(!s1.union(s2.remove(a)).contains(a));
    }
}

/// Taking a subset away from a finite set lowers its size by exactly
/// the subset's size.
pub proof fn lemma_len_subset_difference<A>(s1: Set<A>, s2: Set<A>)
    requires
        s1.finite(),
        s2.finite(),
        s2.subset_of(s1),
    ensures
        s1.difference(s2).len() == s1.len() - s2.len(),
        s1.difference(s2).finite(),
    decreases s2.len(),
{
    if s2.len() == 0 {
        assert(s2 =~= Set::empty());
        assert(s1.difference(s2) =~= s1);
    } else {
        let a = s2.choose();
        assert(s2.contains(a));
        lemma_len_subset_difference(s1.remove(a), s2.remove(a));
        assert(s1.difference(s2) =~= s1.remove(a).difference(s2.remove(a)));
    }
}

/// A subgraph of an undirected graph: an overlay that adds the edges of
/// `included_edges` to the parent's and takes those of `removed_edges`
/// away, without mutating the parent. Included edges are disjoint from
/// the parent's; removed edges are a subset of them.
pub struct Subgraph<'a, G: GraphImpl> {
    parent: &'a G,
    included_edges: EdgeSet,
    removed_edges: EdgeSet,
}

impl<'a, G: GraphImpl> Subgraph<'a, G> {
    /// The overlay's own included edges.
    pub closed spec fn spec_included(self) -> Set<(int, int)> {
        self.included_edges.view_set()
    }

    /// The overlay's own removed edges.
    pub closed spec fn spec_removed(self) -> Set<(int, int)> {
        self.removed_edges.view_set()
    }

    /// The parent graph.
    pub closed spec fn spec_parent(self) -> G {
        *self.parent
    }

    /// Returns a subgraph of `parent` with the same vertex and edge
    /// sets.
    pub fn from_graph(parent: &'a G) -> (r: Self)
        requires
            parent.wf(),
            digraph_capacity_ok(parent.spec_verts()),
            forall|e: (int, int)| #[trigger]
                parent.edge_set().contains(e) ==> e.0 <= e.1,
        ensures
            r.wf(),
            r.spec_parent() == *parent,
            r.spec_verts() == parent.spec_verts(),
            r.edge_set() == parent.edge_set(),
            r.spec_included() == Set::<(int, int)>::empty(),
            r.spec_removed() == Set::<(int, int)>::empty(),
    {
        let r = Self {
            parent,
            included_edges: EdgeSet::new(),
            removed_edges: EdgeSet::new(),
        };
        proof {
            parent.lemma_edge_set_props();
            assert(r.edge_set() =~= parent.edge_set());
        }
        r
    }

    /// Returns a copy of `parent` backed by the same parent graph, with
    /// the same vertex and edge sets.
    pub fn from_subgraph(parent: &Self) -> (r: Self)
        requires
            parent.wf(),
        ensures
            r.wf(),
            r.spec_parent() == parent.spec_parent(),
            r.spec_verts() == parent.spec_verts(),
            r.edge_set() == parent.edge_set(),
            r.spec_included() == parent.spec_included(),
            r.spec_removed() == parent.spec_removed(),
    {
        Self {
            parent: parent.parent,
            included_edges: parent.included_edges.clone(),
            removed_edges: parent.removed_edges.clone(),
        }
    }

    /// The overlay law: the subgraph has exactly the parent's edges
    /// with its own included edges added and its removed edges taken
    /// away, so it has an edge exactly when the edge is included, or
    /// inherited and not removed.
    pub proof fn lemma_overlay(&self)
        requires
            self.wf(),
        ensures
            self.edge_set() == self.spec_parent().edge_set().union(
                self.spec_included(),
            ).difference(self.spec_removed()),
            forall|e: (int, int)|
                #[trigger] self.edge_set().contains(e) <==> (self.spec_included(
                ).contains(e) || (self.spec_parent().edge_set().contains(e)
                    && !self.spec_removed().contains(e))),
    {
        assert forall|e: (int, int)|
            #[trigger] self.edge_set().contains(e) <==> (self.spec_included().contains(
                e,
            ) || (self.spec_parent().edge_set().contains(e)
                && !self.spec_removed().contains(e))) by {
            if self.spec_included().contains(e) {
                assert(!self.spec_removed().contains(e));
            }
        }
    }

    /// Returns a reference to the parent graph.
    pub fn parent(&self) -> (r: &'a G)
        ensures
            *r == self.spec_parent(),
    {
        self.parent
    }
}

impl<'a, G: GraphImpl> GraphImpl for Subgraph<'a, G> {
    closed spec fn spec_verts(&self) -> int {
        self.parent.spec_verts()
    }

    closed spec fn edge_set(&self) -> Set<(int, int)> {
        self.parent.edge_set().union(self.included_edges.view_set()).difference(
            self.removed_edges.view_set(),
        )
    }

    open spec fn canon(u: int, v: int) -> (int, int) {
        if u <= v {
            (u, v)
        } else {
            (v, u)
        }
    }

    closed spec fn wf(&self) -> bool {
        &&& self.parent.wf()
        &&& digraph_capacity_ok(self.parent.spec_verts())
        &&& self.included_edges.wf()
        &&& self.removed_edges.wf()
        &&& (forall|e: (int, int)| #[trigger]
            self.included_edges.view_set().contains(e) ==> 0 <= e.0 <= e.1
                < self.parent.spec_verts())
        &&& (forall|e: (int, int)| #[trigger]
            self.parent.edge_set().contains(e) ==> e.0 <= e.1)
        &&& self.included_edges.view_set().disjoint(self.parent.edge_set())
        &&& self.removed_edges.view_set().subset_of(self.parent.edge_set())
    }

    proof fn lemma_edge_set_props(&self) {
        self.parent.lemma_edge_set_props();
        self.included_edges.lemma_finite();
        self.removed_edges.lemma_finite();
        assert forall|e: (int, int)| #[trigger] self.edge_set().contains(e) implies 0
            <= e.0 < self.spec_verts() && 0 <= e.1 < self.spec_verts() && Self::canon(
            e.0,
            e.1,
        ) == e by {
        }
    }

    fn num_verts(&self) -> (r: usize) {
        self.parent.num_verts()
    }

    fn num_edges(&self) -> (r: usize) {
        proof {
            self.parent.lemma_edge_set_props();
            self.included_edges.lemma_finite();
            self.removed_edges.lemma_finite();
            lemma_len_disjoint_union(
                self.parent.edge_set(),
                self.included_edges.view_set(),
            );
            let combined = self.parent.edge_set().union(self.included_edges.view_set());
            lemma_len_subset_difference(combined, self.removed_edges.view_set());
            lemma_arc_count_bound(self.parent.spec_verts(), combined);
        }
        let parent_edges = self.parent.num_edges();
        let plus_edges = self.included_edges.len();
        let minus_edges = self.removed_edges.len();
        parent_edges + plus_edges - minus_edges
    }

    fn has_edge(&self, i: usize, j: usize) -> (r: bool) {
        let (a, b) = if i <= j {
            (i, j)
        } else {
            (j, i)
        };
        proof {
            self.parent.lemma_edge_set_props();
        }
        if self.included_edges.contains(a, b) {
            true
        } else if self.removed_edges.contains(a, b) {
            false
        } else {
            self.parent.has_edge(a, b)
        }
    }

    fn edges(&self) -> (r: Vec<(usize, usize)>)
        ensures
            // the overlay's own included edges come first, then the
            // parent's edges that were not removed, in the parent's order
            self.spec_included().len() <= r@.len(),
            forall|k: int|
                0 <= k < self.spec_included().len() ==> self.spec_included().contains(
                    pair_view(#[trigger] r@[k]),
                ),
            forall|k: int|
                self.spec_included().len() <= k < r@.len() ==> self.spec_parent(
                ).edge_set().contains(pair_view(#[trigger] r@[k]))
                    && !self.spec_removed().contains(pair_view(r@[k])),
    {
        proof {
            self.parent.lemma_edge_set_props();
            self.included_edges.lemma_finite();
            self.removed_edges.lemma_finite();
        }
        // the overlay's own edges come first, then the parent's order
        let mut result = self.included_edges.to_vec();
        let ghost inc_len = result@.len();
        proof {
            assert(result@.subrange(0, inc_len as int) =~= result@);
        }
        let parent_edges = self.parent.edges();
        let ghost pv = parent_edges@;
        let mut k: usize = 0;
        while k < parent_edges.len()
            invariant
                self.wf(),
                k <= pv.len(),
                pv == parent_edges@,
                forall|m: int|
                    0 <= m < pv.len() ==> self.parent.edge_set().contains(pair_view(
                        #[trigger] pv[m],
                    )),
                forall|m1: int, m2: int|
                    0 <= m1 < m2 < pv.len() ==> pair_view(#[trigger] pv[m1])
                        != pair_view(#[trigger] pv[m2]),
                inc_len <= result@.len(),
                inc_len == self.spec_included().len(),
                result@.subrange(0, inc_len as int) == self.included_edges.spec_items(),
                pairs_view(result@.subrange(0, inc_len as int)).to_set()
                    == self.included_edges.view_set(),
                forall|m: int|
                    0 <= m < inc_len ==> self.spec_included().contains(pair_view(
                        #[trigger] result@[m],
                    )),
                forall|m: int|
                    inc_len <= m < result@.len() ==> self.spec_parent(
                    ).edge_set().contains(pair_view(#[trigger] result@[m]))
                        && !self.spec_removed().contains(pair_view(result@[m])),
                forall|m1: int, m2: int|
                    0 <= m1 < m2 < result@.len() ==> pair_view(#[trigger] result@[m1])
                        != pair_view(#[trigger] result@[m2]),
                pairs_view(result@).to_set() == self.included_edges.view_set().union(
                    pairs_view(pv.subrange(0, k as int)).to_set().difference(
                        self.removed_edges.view_set(),
                    ),
                ),
            decreases pv.len() - k,
        {
            let e = parent_edges[k];
            let ghost prev = result@;
            if !self.removed_edges.contains(e.0, e.1) {
                result.push(e);
                proof {
                    assert(pairs_view(result@) =~= pairs_view(prev).push(pair_view(e)));
                    pairs_view(prev).lemma_push_to_set_commute(pair_view(e));
                    assert(result@.subrange(0, inc_len as int) =~= prev.subrange(
                        0,
                        inc_len as int,
                    ));
                    // the new entry collides with nothing already there
                    assert forall|m1: int|
                        0 <= m1 < prev.len() implies pair_view(#[trigger] prev[m1])
                        != pair_view(e) by {
                        if pairs_view(prev).to_set().contains(pair_view(e)) {
                        } else {
                            assert(pairs_view(prev)[m1] == pair_view(prev[m1]));
                            if pair_view(prev[m1]) == pair_view(e) {
                                assert(pairs_view(prev).contains(pair_view(e)));
                            }
                        }
                        if self.included_edges.view_set().contains(pair_view(e)) {
                            assert(self.parent.edge_set().contains(pair_view(e)));
                            assert(false);
                        }
                        if pairs_view(pv.subrange(0, k as int)).to_set().contains(
                            pair_view(e),
                        ) {
                            let m = choose|m: int|
                                0 <= m < k && pairs_view(pv.subrange(0, k as int))[m]
                                    == pair_view(e);
                            assert(pair_view(pv[m]) == pair_view(pv[k as int]));
                            assert(false);
                        }
                    }
                    assert(pairs_view(pv.subrange(0, k as int + 1)) =~= pairs_view(
                        pv.subrange(0, k as int),
                    ).push(pair_view(pv[k as int])));
                    pairs_view(pv.subrange(0, k as int)).lemma_push_to_set_commute(
                        pair_view(pv[k as int]),
                    );
                    assert(pairs_view(result@).to_set()
                        =~= self.included_edges.view_set().union(
                        pairs_view(pv.subrange(0, k as int + 1)).to_set().difference(
                            self.removed_edges.view_set(),
                        ),
                    ));
                }
            } else {
                proof {
                    assert(pairs_view(pv.subrange(0, k as int + 1)) =~= pairs_view(
                        pv.subrange(0, k as int),
                    ).push(pair_view(pv[k as int])));
                    pairs_view(pv.subrange(0, k as int)).lemma_push_to_set_commute(
                        pair_view(pv[k as int]),
                    );
                    assert(pairs_view(result@).to_set()
                        =~= self.included_edges.view_set().union(
                        pairs_view(pv.subrange(0, k as int + 1)).to_set().difference(
                            self.removed_edges.view_set(),
                        ),
                    ));
                }
            }
            k = k + 1;
        }
        proof {
            assert(pv.subrange(0, pv.len() as int) =~= pv);
            // the parent's edge list views exactly its edge set
            assert forall|e: (int, int)| #[trigger] self.parent.edge_set().contains(e)
                implies pairs_view(pv).to_set().contains(e) by {
                let m = choose|m: int| 0 <= m < pv.len() && pair_view(pv[m]) == e;
                assert(pairs_view(pv)[m] == e);
            }
            assert forall|e: (int, int)| #[trigger]
                pairs_view(pv).to_set().contains(e)
                implies self.parent.edge_set().contains(e) by {
                let m = choose|m: int|
                    0 <= m < pairs_view(pv).len() && pairs_view(pv)[m] == e;
                assert(pair_view(pv[m]) == e);
            }
            assert(pairs_view(pv).to_set() =~= self.parent.edge_set());
            assert(pairs_view(result@).to_set() =~= self.edge_set());
            let mapped = pairs_view(result@);
            assert(mapped.no_duplicates()) by {
                assert forall|k1: int, k2: int|
                    0 <= k1 < mapped.len() && 0 <= k2 < mapped.len() && k1 != k2
                    implies mapped[k1] != mapped[k2] by {
                    if k1 < k2 {
                        assert(pair_view(result@[k1]) != pair_view(result@[k2]));
                    } else {
                        assert(pair_view(result@[k2]) != pair_view(result@[k1]));
                    }
                }
            }
            mapped.unique_seq_to_set();
            assert forall|k: int| 0 <= k < result@.len() implies self.edge_set().contains(
                pair_view(#[trigger] result@[k]),
            ) by {
                assert(mapped[k] == pair_view(result@[k]));
                assert(mapped.contains(mapped[k]));
            }
            assert forall|e: (int, int)| #[trigger] self.edge_set().contains(e)
                implies exists|k: int|
                0 <= k < result@.len() && pair_view(result@[k]) == e by {
                assert(mapped.to_set().contains(e));
                let k = choose|k: int| 0 <= k < mapped.len() && mapped[k] == e;
                assert(pair_view(result@[k]) == e);
            }
        }
        result
    }

    fn add_edge(&mut self, i: usize, j: usize) -> (r: Result<(), &'static str>) {
        let (a, b) = if i <= j {
            (i, j)
        } else {
            (j, i)
        };
        proof {
            self.parent.lemma_edge_set_props();
        }
        if self.removed_edges.contains(a, b) {
            self.removed_edges.remove(a, b);
            proof {
                assert(final(self).edge_set() =~= old(self).edge_set().insert((
                    a as int,
                    b as int,
                )));
            }
            Ok(())
        } else if self.parent.has_edge(a, b) {
            Err("Subgraph: attempt to add an existent edge")
        } else {
            if self.included_edges.contains(a, b) {
                Err("Subgraph: attempt to add an existent edge")
            } else {
                self.included_edges.insert(a, b);
                proof {
                    assert(final(self).edge_set() =~= old(self).edge_set().insert((
                        a as int,
                        b as int,
                    )));
                }
                Ok(())
            }
        }
    }

    fn remove_edge(&mut self, i: usize, j: usize) -> (r: Result<(), &'static str>) {
        let (a, b) = if i <= j {
            (i, j)
        } else {
            (j, i)
        };
        proof {
            self.parent.lemma_edge_set_props();
        }
        if self.included_edges.contains(a, b) {
            self.included_edges.remove(a, b);
            proof {
                assert(final(self).edge_set() =~= old(self).edge_set().remove((
                    a as int,
                    b as int,
                )));
            }
            Ok(())
        } else if !self.parent.has_edge(a, b) {
            Err("Subgraph: attempt to remove a nonexistent edge")
        } else {
            if self.removed_edges.contains(a, b) {
                Err("Subgraph: attempt to remove a nonexistent edge")
            } else {
                self.removed_edges.insert(a, b);
                proof {
                    assert(final(self).edge_set() =~= old(self).edge_set().remove((
                        a as int,
                        b as int,
                    )));
                }
                Ok(())
            }
        }
    }
}

} // verus!
