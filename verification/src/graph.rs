use vstd::prelude::*;

use vstd::relations::injective_on;
use vstd::set_lib::lemma_int_range;
use vstd::set_lib::lemma_len_subset;
use vstd::set_lib::lemma_map_size;
use vstd::set_lib::set_int_range;

use crate::traits::edges_below;
use crate::traits::lex_lt;
use crate::traits::pair_view;
use crate::traits::pairs_view;
use crate::traits::GraphImpl;
use crate::triangular_matrix::lemma_packed_in_range;
use crate::triangular_matrix::lemma_packed_injective;
use crate::triangular_matrix::packed_col;
use crate::triangular_matrix::packed_row;
use crate::triangular_matrix::packed_rows;
use crate::triangular_matrix::same_position;
use crate::triangular_matrix::UpperTriangularMatrix;

verus! {

/// A graph with this many vertices fits its upper-triangle storage in
/// memory.
pub open spec fn graph_capacity_ok(n: int) -> bool {
    &&& n < usize::MAX
    &&& packed_rows(n) * (n + 1) <= usize::MAX
}

/// A set of canonically ordered edges over `n` vertices has at most as
/// many members as the packed upper-triangle storage has cells.
pub proof fn lemma_edge_count_bound(n: int, es: Set<(int, int)>)
    requires
        n >= 0,
        es.finite(),
        forall|e: (int, int)| #[trigger] es.contains(e) ==> 0 <= e.0 <= e.1 < n,
    ensures
        es.len() <= packed_rows(n) * (n + 1),
{
    let cols = n + 1;
    let f = |p: (int, int)| packed_row(n, p.0, p.1) * cols + packed_col(n, p.0, p.1);
    let image = es.map(f);
    assert(injective_on(f, es)) by {
        assert forall|p: (int, int), q: (int, int)|
            #![trigger f(p), f(q)]
            es.contains(p) && es.contains(q) && f(p) == f(q) implies p == q by {
            lemma_packed_in_range(n, p.0, p.1);
            lemma_packed_in_range(n, q.0, q.1);
            let r1 = packed_row(n, p.0, p.1);
            let c1 = packed_col(n, p.0, p.1);
            let r2 = packed_row(n, q.0, q.1);
            let c2 = packed_col(n, q.0, q.1);
            assert(r1 == r2 && c1 == c2) by (nonlinear_arith)
                requires
                    r1 * cols + c1 == r2 * cols + c2,
                    0 <= c1 < cols,
                    0 <= c2 < cols,
                    0 <= r1,
                    0 <= r2,
            ;
            lemma_packed_injective(n, p.0, p.1, q.0, q.1);
        }
    }
    lemma_map_size(es, image, f);
    assert(image.subset_of(set_int_range(0, packed_rows(n) * cols))) by {
        assert forall|b: int| #[trigger] image.contains(b) implies 0 <= b < packed_rows(
            n,
        ) * cols by {
            let p = choose|p: (int, int)| es.contains(p) && b == f(p);
            lemma_packed_in_range(n, p.0, p.1);
            let r1 = packed_row(n, p.0, p.1);
            let c1 = packed_col(n, p.0, p.1);
            assert(0 <= r1 * cols + c1 < packed_rows(n) * cols) by (nonlinear_arith)
                requires
                    0 <= r1 < packed_rows(n),
                    0 <= c1 < cols,
            ;
        }
    }
    assert(0 <= packed_rows(n) * cols) by (nonlinear_arith)
        requires
            0 <= packed_rows(n),
            0 <= cols,
    ;
    lemma_int_range(0, packed_rows(n) * cols);
    lemma_len_subset(image, set_int_range(0, packed_rows(n) * cols));
}

/// Adding an absent edge and then removing it restores the edge set
/// exactly, and with it `has_edge` and the edge count.
pub proof fn lemma_add_remove_round_trip(es: Set<(int, int)>, e: (int, int))
    requires
        !es.contains(e),
    ensures
        es.insert(e).remove(e) == es,
{
    assert(es.insert(e).remove(e) =~= es);
}

/// An undirected graph: edges are stored as `true` cells in the upper
/// triangle of a symmetric bit matrix. The ghost field `eset` holds the
/// set of edges as canonically ordered pairs.
pub struct Graph {
    data: UpperTriangularMatrix<bool>,
    num_verts: usize,
    num_edges: usize,
    eset: Ghost<Set<(int, int)>>,
}

impl Graph {
    /// Creates a graph with `num_verts` vertices and no edges.
    pub fn new(num_verts: usize) -> (r: Self)
        requires
            graph_capacity_ok(num_verts as int),
        ensures
            r.wf(),
            r.spec_verts() == num_verts,
            r.edge_set() == Set::<(int, int)>::empty(),
    {
        let data = UpperTriangularMatrix::new(num_verts, false);
        Self { data, num_verts, num_edges: 0, eset: Ghost(Set::empty()) }
    }

    /// Creates a graph with `num_verts` vertices and one edge between
    /// each pair of distinct vertices.
    pub fn complete(num_verts: usize) -> (r: Self)
        requires
            graph_capacity_ok(num_verts as int),
        ensures
            r.wf(),
            r.spec_verts() == num_verts,
            r.edge_set() == Set::new(
                |p: (int, int)| 0 <= p.0 < p.1 < num_verts as int,
            ),
    {
        let mut g = Self::new(num_verts);
        let mut u: usize = 0;
        while u < num_verts
            invariant
                u <= num_verts,
                g.wf(),
                g.spec_verts() == num_verts,
                g.edge_set() == Set::new(
                    |p: (int, int)| 0 <= p.0 < p.1 < num_verts as int && p.0 < u as int,
                ),
            decreases num_verts - u,
        {
            let mut v: usize = u + 1;
            while v < num_verts
                invariant
                    u < num_verts,
                    u < v <= num_verts || (v == u + 1),
                    g.wf(),
                    g.spec_verts() == num_verts,
                    g.edge_set() == Set::new(
                        |p: (int, int)|
                            0 <= p.0 < p.1 < num_verts as int && (p.0 < u as int || (p.0
                                == u as int && p.1 < v as int)),
                    ),
                decreases num_verts - v,
            {
                let ghost before = g.edge_set();
                let res = g.add_edge(u, v);
                proof {
                    assert(!before.contains((u as int, v as int)));
                    assert(res is Ok);
                    assert(g.edge_set() =~= Set::new(
                        |p: (int, int)|
                            0 <= p.0 < p.1 < num_verts as int && (p.0 < u as int || (p.0
                                == u as int && p.1 < v as int + 1)),
                    ));
                }
                v = v + 1;
            }
            proof {
                assert(g.edge_set() =~= Set::new(
                    |p: (int, int)|
                        0 <= p.0 < p.1 < num_verts as int && p.0 < u as int + 1,
                ));
            }
            u = u + 1;
        }
        proof {
            assert(g.edge_set() =~= Set::new(
                |p: (int, int)| 0 <= p.0 < p.1 < num_verts as int,
            ));
        }
        g
    }
}

impl Graph {
    /// A well-formed graph's vertex count is within the storage
    /// capacity, so another graph of the same size can be made.
    pub proof fn lemma_capacity_ok(&self)
        requires
            self.wf(),
        ensures
            graph_capacity_ok(self.spec_verts()),
    {
        self.data.lemma_capacity();
    }
}

impl GraphImpl for Graph {
    closed spec fn spec_verts(&self) -> int {
        self.num_verts as int
    }

    closed spec fn edge_set(&self) -> Set<(int, int)> {
        self.eset@
    }

    open spec fn canon(u: int, v: int) -> (int, int) {
        if u <= v {
            (u, v)
        } else {
            (v, u)
        }
    }

    closed spec fn wf(&self) -> bool {
        &&& self.data.wf()
        &&& self.data.spec_dim() == self.num_verts
        &&& self.eset@.finite()
        &&& self.num_edges == self.eset@.len()
        &&& (forall|e: (int, int)| #[trigger]
            self.eset@.contains(e) ==> 0 <= e.0 <= e.1 < self.num_verts
                && self.data.spec_at(e.0, e.1) == true)
        &&& (forall|a: int, b: int|
            0 <= a <= b < self.num_verts && #[trigger] self.data.spec_at(a, b) == true
                ==> self.eset@.contains((a, b)))
    }

    proof fn lemma_edge_set_props(&self) {
    }

    fn num_verts(&self) -> (r: usize) {
        self.num_verts
    }

    fn num_edges(&self) -> (r: usize) {
        self.num_edges
    }

    fn has_edge(&self, u: usize, v: usize) -> (r: bool) {
        let (a, b) = if u <= v {
            (u, v)
        } else {
            (v, u)
        };
        *self.data.const_at(a, b)
    }

    fn edges(&self) -> (r: Vec<(usize, usize)>)
        ensures
            forall|k1: int, k2: int|
                0 <= k1 < k2 < r@.len() ==> lex_lt(
                    pair_view(#[trigger] r@[k1]),
                    pair_view(#[trigger] r@[k2]),
                ),
    {
        let n = self.num_verts;
        let ghost es = self.eset@;
        let mut result: Vec<(usize, usize)> = Vec::new();
        let mut i: usize = 0;
        while i < n
            invariant
                self.wf(),
                i <= n,
                n == self.num_verts,
                es == self.eset@,
                forall|k1: int, k2: int|
                    0 <= k1 < k2 < result@.len() ==> lex_lt(
                        pair_view(#[trigger] result@[k1]),
                        pair_view(#[trigger] result@[k2]),
                    ),
                forall|k: int|
                    0 <= k < result@.len() ==> lex_lt(
                        pair_view(#[trigger] result@[k]),
                        (i as int, i as int),
                    ),
                pairs_view(result@).to_set() == edges_below(es, i as int, i as int),
            decreases n - i,
        {
            let mut j: usize = i;
            while j < n
                invariant
                    self.wf(),
                    i < n,
                    i <= j <= n,
                    n == self.num_verts,
                    es == self.eset@,
                    forall|k1: int, k2: int|
                        0 <= k1 < k2 < result@.len() ==> lex_lt(
                            pair_view(#[trigger] result@[k1]),
                            pair_view(#[trigger] result@[k2]),
                        ),
                    forall|k: int|
                        0 <= k < result@.len() ==> lex_lt(
                            pair_view(#[trigger] result@[k]),
                            (i as int, j as int),
                        ),
                    pairs_view(result@).to_set() == edges_below(es, i as int, j as int),
                decreases n - j,
            {
                let ghost prev = result@;
                if self.has_edge(i, j) {
                    result.push((i, j));
                    proof {
                        assert(pairs_view(result@) =~= pairs_view(prev).push(
                            (i as int, j as int),
                        ));
                        pairs_view(prev).lemma_push_to_set_commute((i as int, j as int));
                        assert(pairs_view(result@).to_set() =~= edges_below(
                            es,
                            i as int,
                            j as int + 1,
                        ));
                    }
                } else {
                    proof {
                        assert(!es.contains((i as int, j as int)));
                        assert(pairs_view(result@).to_set() =~= edges_below(
                            es,
                            i as int,
                            j as int + 1,
                        ));
                    }
                }
                j = j + 1;
            }
            proof {
                assert forall|e: (int, int)| #[trigger] es.contains(e)
                    implies (lex_lt(e, (i as int, n as int)) <==> lex_lt(
                    e,
                    (i as int + 1, i as int + 1),
                )) by {}
                assert(pairs_view(result@).to_set() =~= edges_below(
                    es,
                    i as int + 1,
                    i as int + 1,
                ));
            }
            i = i + 1;
        }
        proof {
            let mapped = pairs_view(result@);
            assert(mapped.to_set() =~= es);
            assert(mapped.no_duplicates()) by {
                assert forall|k1: int, k2: int|
                    0 <= k1 < mapped.len() && 0 <= k2 < mapped.len() && k1 != k2
                    implies mapped[k1] != mapped[k2] by {
                    if k1 < k2 {
                        assert(lex_lt(pair_view(result@[k1]), pair_view(result@[k2])));
                    } else {
                        assert(lex_lt(pair_view(result@[k2]), pair_view(result@[k1])));
                    }
                }
            }
            mapped.unique_seq_to_set();
            assert forall|k: int| 0 <= k < result@.len() implies self.edge_set().contains(
                pair_view(#[trigger] result@[k]),
            ) by {
                assert(mapped[k] == pair_view(result@[k]));
                assert(mapped.contains(mapped[k]));
                assert(mapped.to_set().contains(mapped[k]));
            }
            assert forall|e: (int, int)| #[trigger] self.edge_set().contains(e)
                implies exists|k: int|
                0 <= k < result@.len() && pair_view(result@[k]) == e by {
                assert(mapped.to_set().contains(e));
                let k = choose|k: int| 0 <= k < mapped.len() && mapped[k] == e;
                assert(pair_view(result@[k]) == e);
            }
        }
        result
    }

    fn add_edge(&mut self, i: usize, j: usize) -> (r: Result<(), &'static str>) {
        let (a, b) = if i <= j {
            (i, j)
        } else {
            (j, i)
        };
        if self.has_edge(a, b) {
            Err("Graph: attempting to add an existent edge")
        } else {
            proof {
                lemma_edge_count_bound(self.num_verts as int, self.eset@.insert((
                    a as int,
                    b as int,
                )));
                self.data.lemma_capacity();
            }
            let cell = self.data.at(a, b);
            *cell = true;
            self.num_edges = self.num_edges + 1;
            proof {
                self.eset = Ghost(self.eset@.insert((a as int, b as int)));
                assert forall|p: int, q: int|
                    0 <= p <= q < self.num_verts && #[trigger] self.data.spec_at(p, q)
                        == true implies self.eset@.contains((p, q)) by {
                    if same_position(a as int, b as int, p, q) {
                        assert(p == a as int && q == b as int);
                    } else {
                        assert(old(self).data.spec_at(p, q) == true);
                    }
                }
                assert forall|e: (int, int)| #[trigger] self.eset@.contains(e)
                    implies 0 <= e.0 <= e.1 < self.num_verts && self.data.spec_at(
                    e.0,
                    e.1,
                ) == true by {
                    if e == (a as int, b as int) {
                        assert(same_position(a as int, b as int, e.0, e.1));
                    } else {
                        assert(old(self).eset@.contains(e));
                        if same_position(a as int, b as int, e.0, e.1) {
                            assert(e.0 == a as int && e.1 == b as int);
                        }
                    }
                }
            }
            Ok(())
        }
    }

    fn remove_edge(&mut self, i: usize, j: usize) -> (r: Result<(), &'static str>) {
        let (a, b) = if i <= j {
            (i, j)
        } else {
            (j, i)
        };
        if self.has_edge(a, b) {
            let cell = self.data.at(a, b);
            *cell = false;
            self.num_edges = self.num_edges - 1;
            proof {
                self.eset = Ghost(self.eset@.remove((a as int, b as int)));
                assert forall|p: int, q: int|
                    0 <= p <= q < self.num_verts && #[trigger] self.data.spec_at(p, q)
                        == true implies self.eset@.contains((p, q)) by {
                    if same_position(a as int, b as int, p, q) {
                        assert(p == a as int && q == b as int);
                    } else {
                        assert(old(self).data.spec_at(p, q) == true);
                    }
                }
                assert forall|e: (int, int)| #[trigger] self.eset@.contains(e)
                    implies 0 <= e.0 <= e.1 < self.num_verts && self.data.spec_at(
                    e.0,
                    e.1,
                ) == true by {
                    assert(old(self).eset@.contains(e));
                    if same_position(a as int, b as int, e.0, e.1) {
                        assert(e.0 == a as int && e.1 == b as int);
                    }
                }
            }
            Ok(())
        } else {
            Err("Graph: attempting to remove a nonexistent edge")
        }
    }
}

} // verus!
