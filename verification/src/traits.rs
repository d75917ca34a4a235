use vstd::prelude::*;

verus! {

/// Lexicographic order on vertex pairs: the canonical order in which
/// edge lists are produced.
pub open spec fn lex_lt(p: (int, int), q: (int, int)) -> bool {
    p.0 < q.0 || (p.0 == q.0 && p.1 < q.1)
}

/// A vertex pair as mathematical integers.
pub open spec fn pair_view(p: (usize, usize)) -> (int, int) {
    (p.0 as int, p.1 as int)
}

/// A sequence of vertex pairs as mathematical integers.
pub open spec fn pairs_view(s: Seq<(usize, usize)>) -> Seq<(int, int)> {
    s.map_values(|p: (usize, usize)| pair_view(p))
}

/// The first `k` entries of an edge list, as a set of integer pairs.
pub open spec fn prefix_edge_set(ev: Seq<(usize, usize)>, k: int) -> Set<(int, int)> {
    pairs_view(ev.subrange(0, k)).to_set()
}

/// The edges of `es` that lie lexicographically below the position
/// `(i, j)` of a row-by-row scan.
pub open spec fn edges_below(es: Set<(int, int)>, i: int, j: int) -> Set<(int, int)> {
    es.filter(|e: (int, int)| lex_lt(e, (i, j)))
}

/// A common interface to the graph representations. A graph is a number
/// of vertices together with a finite set of stored edges; `canon`
/// says which of the two orientations of a queried pair is stored
/// (undirected representations sort the endpoints, directed ones keep
/// them). All views below speak about `edge_set`.
pub trait GraphImpl: Sized {
    /// Number of vertices.
    spec fn spec_verts(&self) -> int;

    /// The set of stored edges, in canonical orientation.
    spec fn edge_set(&self) -> Set<(int, int)>;

    /// Well-formedness of the representation.
    spec fn wf(&self) -> bool;

    /// The stored orientation of the pair `(u, v)`.
    spec fn canon(u: int, v: int) -> (int, int);

    /// The edge set of a well-formed graph is finite, bounded by the
    /// vertex range and closed under `canon`, and `canon` keeps a pair
    /// whose endpoints are already in increasing order.
    proof fn lemma_edge_set_props(&self)
        requires
            self.wf(),
        ensures
            self.spec_verts() >= 0,
            self.edge_set().finite(),
            forall|e: (int, int)| #[trigger]
                self.edge_set().contains(e) ==> 0 <= e.0 < self.spec_verts() && 0 <= e.1
                    < self.spec_verts() && Self::canon(e.0, e.1) == e,
            forall|u: int, v: int| u <= v ==> #[trigger] Self::canon(u, v) == (u, v),
    ;

    /// Returns the number of vertices.
    fn num_verts(&self) -> (r: usize)
        requires
            self.wf(),
        ensures
            r == self.spec_verts(),
    ;

    /// Returns the number of edges.
    fn num_edges(&self) -> (r: usize)
        requires
            self.wf(),
        ensures
            r == self.edge_set().len(),
    ;

    /// Determines whether the graph has an edge with endpoints `u`, `v`.
    fn has_edge(&self, u: usize, v: usize) -> (r: bool)
        requires
            self.wf(),
            u < self.spec_verts(),
            v < self.spec_verts(),
        ensures
            r == self.edge_set().contains(Self::canon(u as int, v as int)),
    ;

    /// Returns every edge exactly once. The order is deterministic and
    /// each representation states its own: the matrix-backed graphs
    /// produce increasing lexicographic order, a subgraph view lists its
    /// own included edges first.
    fn edges(&self) -> (r: Vec<(usize, usize)>)
        requires
            self.wf(),
        ensures
            r@.len() == self.edge_set().len(),
            forall|k1: int, k2: int|
                0 <= k1 < k2 < r@.len() ==> pair_view(#[trigger] r@[k1]) != pair_view(
                    #[trigger] r@[k2],
                ),
            forall|k: int|
                0 <= k < r@.len() ==> self.edge_set().contains(pair_view(
                    #[trigger] r@[k],
                )),
            forall|e: (int, int)| #[trigger]
                self.edge_set().contains(e) ==> exists|k: int|
                    0 <= k < r@.len() && pair_view(#[trigger] r@[k]) == e,
    ;

    /// Adds the edge with endpoints `i` and `j`. Fails exactly when the
    /// edge is already present, leaving the graph unchanged.
    fn add_edge(&mut self, i: usize, j: usize) -> (r: Result<(), &'static str>)
        requires
            old(self).wf(),
            i < old(self).spec_verts(),
            j < old(self).spec_verts(),
        ensures
            final(self).wf(),
            final(self).spec_verts() == old(self).spec_verts(),
            r is Ok <==> !old(self).edge_set().contains(
                Self::canon(i as int, j as int),
            ),
            r is Ok ==> final(self).edge_set() == old(self).edge_set().insert(
                Self::canon(i as int, j as int),
            ),
            r is Err ==> final(self).edge_set() == old(self).edge_set(),
    ;

    /// Removes the edge with endpoints `i` and `j`. Fails exactly when
    /// the edge is absent, leaving the graph unchanged.
    fn remove_edge(&mut self, i: usize, j: usize) -> (r: Result<(), &'static str>)
        requires
            old(self).wf(),
            i < old(self).spec_verts(),
            j < old(self).spec_verts(),
        ensures
            final(self).wf(),
            final(self).spec_verts() == old(self).spec_verts(),
            r is Ok <==> old(self).edge_set().contains(Self::canon(i as int, j as int)),
            r is Ok ==> final(self).edge_set() == old(self).edge_set().remove(
                Self::canon(i as int, j as int),
            ),
            r is Err ==> final(self).edge_set() == old(self).edge_set(),
    ;
}

} // verus!
