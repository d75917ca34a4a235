use vstd::prelude::*;

use vstd::relations::injective_on;
use vstd::set_lib::lemma_int_range;
use vstd::set_lib::lemma_len_subset;
use vstd::set_lib::lemma_map_size;
use vstd::set_lib::set_int_range;

use crate::matrix::Matrix;
use crate::traits::edges_below;
use crate::traits::lex_lt;
use crate::traits::pair_view;
use crate::traits::pairs_view;
use crate::traits::GraphImpl;

verus! {

/// A digraph with this many vertices fits its adjacency matrix in
/// memory.
pub open spec fn digraph_capacity_ok(n: int) -> bool {
    n * n <= usize::MAX
}

/// A set of arcs over `n` vertices has at most as many members as the
/// adjacency matrix has cells.
pub proof fn lemma_arc_count_bound(n: int, es: Set<(int, int)>)
    requires
        n >= 0,
        es.finite(),
        forall|e: (int, int)| #[trigger]
            es.contains(e) ==> 0 <= e.0 < n && 0 <= e.1 < n,
    ensures
        es.len() <= n * n,
{
    let f = |p: (int, int)| p.0 * n + p.1;
    let image = es.map(f);
    assert(injective_on(f, es)) by {
        assert forall|p: (int, int), q: (int, int)|
            #![trigger f(p), f(q)]
            es.contains(p) && es.contains(q) && f(p) == f(q) implies p == q by {
            assert(p.0 == q.0 && p.1 == q.1) by (nonlinear_arith)
                requires
                    p.0 * n + p.1 == q.0 * n + q.1,
                    0 <= p.1 < n,
                    0 <= q.1 < n,
                    0 <= p.0,
                    0 <= q.0,
            ;
        }
    }
    lemma_map_size(es, image, f);
    assert(image.subset_of(set_int_range(0, n * n))) by {
        assert forall|b: int| #[trigger] image.contains(b) implies 0 <= b < n * n by {
            let p = choose|p: (int, int)| es.contains(p) && b == f(p);
            assert(0 <= p.0 * n + p.1 < n * n) by (nonlinear_arith)
                requires
                    0 <= p.0 < n,
                    0 <= p.1 < n,
            ;
        }
    }
    assert(0 <= n * n) by (nonlinear_arith)
        requires
            0 <= n,
    ;
    lemma_int_range(0, n * n);
    lemma_len_subset(image, set_int_range(0, n * n));
}

/// A directed graph: arcs are stored in a full adjacency bit matrix.
/// The ghost field `eset` holds the set of arcs as ordered pairs.
pub struct Digraph {
    data: Matrix<bool>,
    num_verts: usize,
    num_edges: usize,
    eset: Ghost<Set<(int, int)>>,
}

impl Digraph {
    /// A well-formed digraph's vertex count is within the adjacency
    /// storage capacity.
    pub proof fn lemma_capacity_ok(&self)
        requires
            self.wf(),
        ensures
            digraph_capacity_ok(self.spec_verts()),
    {
        self.data.lemma_capacity();
    }

    /// Creates a digraph with `num_verts` vertices and no arcs.
    pub fn new(num_verts: usize) -> (r: Self)
        requires
            digraph_capacity_ok(num_verts as int),
        ensures
            r.wf(),
            r.spec_verts() == num_verts,
            r.edge_set() == Set::<(int, int)>::empty(),
    {
        let data = Matrix::square(num_verts, false);
        Self { data, num_verts, num_edges: 0, eset: Ghost(Set::empty()) }
    }
}

impl GraphImpl for Digraph {
    closed spec fn spec_verts(&self) -> int {
        self.num_verts as int
    }

    closed spec fn edge_set(&self) -> Set<(int, int)> {
        self.eset@
    }

    open spec fn canon(u: int, v: int) -> (int, int) {
        (u, v)
    }

    closed spec fn wf(&self) -> bool {
        &&& self.data.wf()
        &&& self.data.spec_rows() == self.num_verts
        &&& self.data.spec_cols() == self.num_verts
        &&& self.eset@.finite()
        &&& self.num_edges == self.eset@.len()
        &&& (forall|e: (int, int)| #[trigger]
            self.eset@.contains(e) ==> 0 <= e.0 < self.num_verts && 0 <= e.1
                < self.num_verts && self.data.spec_at(e.0, e.1) == true)
        &&& (forall|a: int, b: int|
            0 <= a < self.num_verts && 0 <= b < self.num_verts
                && #[trigger] self.data.spec_at(a, b) == true ==> self.eset@.contains(
                (a, b),
            ))
    }

    proof fn lemma_edge_set_props(&self) {
    }

    fn num_verts(&self) -> (r: usize) {
        self.num_verts
    }

    fn num_edges(&self) -> (r: usize) {
        self.num_edges
    }

    fn has_edge(&self, u: usize, v: usize) -> (r: bool) {
        *self.data.const_at(u, v)
    }

    fn edges(&self) -> (r: Vec<(usize, usize)>)
        ensures
            forall|k1: int, k2: int|
                0 <= k1 < k2 < r@.len() ==> lex_lt(
                    pair_view(#[trigger] r@[k1]),
                    pair_view(#[trigger] r@[k2]),
                ),
    {
        let n = self.num_verts;
        let ghost es = self.eset@;
        let mut result: Vec<(usize, usize)> = Vec::new();
        let mut i: usize = 0;
        while i < n
            invariant
                self.wf(),
                i <= n,
                n == self.num_verts,
                es == self.eset@,
                forall|k1: int, k2: int|
                    0 <= k1 < k2 < result@.len() ==> lex_lt(
                        pair_view(#[trigger] result@[k1]),
                        pair_view(#[trigger] result@[k2]),
                    ),
                forall|k: int|
                    0 <= k < result@.len() ==> lex_lt(
                        pair_view(#[trigger] result@[k]),
                        (i as int, 0),
                    ),
                pairs_view(result@).to_set() == edges_below(es, i as int, 0),
            decreases n - i,
        {
            let mut j: usize = 0;
            while j < n
                invariant
                    self.wf(),
                    i < n,
                    j <= n,
                    n == self.num_verts,
                    es == self.eset@,
                    forall|k1: int, k2: int|
                        0 <= k1 < k2 < result@.len() ==> lex_lt(
                            pair_view(#[trigger] result@[k1]),
                            pair_view(#[trigger] result@[k2]),
                        ),
                    forall|k: int|
                        0 <= k < result@.len() ==> lex_lt(
                            pair_view(#[trigger] result@[k]),
                            (i as int, j as int),
                        ),
                    pairs_view(result@).to_set() == edges_below(es, i as int, j as int),
                decreases n - j,
            {
                let ghost prev = result@;
                if self.has_edge(i, j) {
                    result.push((i, j));
                    proof {
                        assert(pairs_view(result@) =~= pairs_view(prev).push(
                            (i as int, j as int),
                        ));
                        pairs_view(prev).lemma_push_to_set_commute((i as int, j as int));
                        assert(pairs_view(result@).to_set() =~= edges_below(
                            es,
                            i as int,
                            j as int + 1,
                        ));
                    }
                } else {
                    proof {
                        assert(!es.contains((i as int, j as int)));
                        assert(pairs_view(result@).to_set() =~= edges_below(
                            es,
                            i as int,
                            j as int + 1,
                        ));
                    }
                }
                j = j + 1;
            }
            proof {
                assert(pairs_view(result@).to_set() =~= edges_below(es, i as int + 1, 0));
            }
            i = i + 1;
        }
        proof {
            let mapped = pairs_view(result@);
            assert(mapped.to_set() =~= es);
            assert(mapped.no_duplicates()) by {
                assert forall|k1: int, k2: int|
                    0 <= k1 < mapped.len() && 0 <= k2 < mapped.len() && k1 != k2
                    implies mapped[k1] != mapped[k2] by {
                    if k1 < k2 {
                        assert(lex_lt(pair_view(result@[k1]), pair_view(result@[k2])));
                    } else {
                        assert(lex_lt(pair_view(result@[k2]), pair_view(result@[k1])));
                    }
                }
            }
            mapped.unique_seq_to_set();
            assert forall|k: int| 0 <= k < result@.len() implies self.edge_set().contains(
                pair_view(#[trigger] result@[k]),
            ) by {
                assert(mapped[k] == pair_view(result@[k]));
                assert(mapped.contains(mapped[k]));
                assert(mapped.to_set().contains(mapped[k]));
            }
            assert forall|e: (int, int)| #[trigger] self.edge_set().contains(e)
                implies exists|k: int|
                0 <= k < result@.len() && pair_view(result@[k]) == e by {
                assert(mapped.to_set().contains(e));
                let k = choose|k: int| 0 <= k < mapped.len() && mapped[k] == e;
                assert(pair_view(result@[k]) == e);
            }
        }
        result
    }

    fn add_edge(&mut self, i: usize, j: usize) -> (r: Result<(), &'static str>) {
        if self.has_edge(i, j) {
            Err("Digraph: attempting to add existent edge")
        } else {
            proof {
                lemma_arc_count_bound(self.num_verts as int, self.eset@.insert((
                    i as int,
                    j as int,
                )));
                self.data.lemma_capacity();
            }
            let cell = self.data.at(i, j);
            *cell = true;
            self.num_edges = self.num_edges + 1;
            proof {
                self.eset = Ghost(self.eset@.insert((i as int, j as int)));
            }
            Ok(())
        }
    }

    fn remove_edge(&mut self, i: usize, j: usize) -> (r: Result<(), &'static str>) {
        if self.has_edge(i, j) {
            let cell = self.data.at(i, j);
            *cell = false;
            self.num_edges = self.num_edges - 1;
            proof {
                self.eset = Ghost(self.eset@.remove((i as int, j as int)));
            }
            Ok(())
        } else {
            Err("Digraph: attempting to remove nonexistent edge")
        }
    }
}

} // verus!
