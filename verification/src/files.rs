use vstd::prelude::*;

use crate::digraph::digraph_capacity_ok;
use crate::digraph::Digraph;
use crate::graph::graph_capacity_ok;
use crate::graph::Graph;
use crate::instance::BoundMap;
use crate::instance::Instance;
use crate::parsing::line_numbers;
use crate::parsing::line_ok;
use crate::parsing::lines_ok;
use crate::parsing::lines_rows;
use crate::parsing::parse_line_numbers;
use crate::parsing::render_row;
use crate::traits::GraphImpl;
use crate::weighted_graph::WeightedGraph;

verus! {

/// The numbers of a row list, as mathematical integers.
pub open spec fn rows_view(rows: Seq<Vec<u64>>) -> Seq<Seq<int>> {
    rows.map_values(|r: Vec<u64>| r@.map_values(|x: u64| x as int))
}

/// A weighted-graph file: the first row is the vertex count, within
/// the packed storage capacity; every further row is an edge with two
/// in-range endpoints and a weight, and no edge appears twice.
pub open spec fn weighted_graph_rows_ok(rows: Seq<Seq<int>>) -> bool {
    &&& rows.len() >= 1
    &&& rows[0].len() == 1
    &&& 0 <= rows[0][0] <= usize::MAX
    &&& graph_capacity_ok(rows[0][0])
    &&& (forall|k: int|
        1 <= k < rows.len() ==> (#[trigger] rows[k]).len() >= 3 && 0 <= rows[k][0]
            < rows[0][0] && 0 <= rows[k][1] < rows[0][0])
    &&& (forall|k1: int, k2: int|
        1 <= k1 < k2 < rows.len() ==> Graph::canon(
            (#[trigger] rows[k1])[0],
            rows[k1][1],
        ) != Graph::canon((#[trigger] rows[k2])[0], rows[k2][1]))
}

/// The rows denote exactly this weighted graph.
pub open spec fn weighted_graph_encodes(rows: Seq<Seq<int>>, g: WeightedGraph) -> bool {
    &&& g.spec_verts() == rows[0][0]
    &&& (forall|k: int|
        1 <= k < rows.len() ==> g.edge_set().contains(Graph::canon(
            (#[trigger] rows[k])[0],
            rows[k][1],
        )) && g.spec_weights()[Graph::canon(rows[k][0], rows[k][1])] == rows[k][2])
    &&& (forall|e: (int, int)| #[trigger]
        g.edge_set().contains(e) ==> exists|k: int|
            1 <= k < rows.len() && Graph::canon((#[trigger] rows[k])[0], rows[k][1])
                == e)
}

/// Two weighted graphs denoted by the same rows read the same: equal
/// vertex counts, equal edge sets, equal weights on every edge.
pub proof fn lemma_weighted_rows_determine(
    rows: Seq<Seq<int>>,
    g1: WeightedGraph,
    g2: WeightedGraph,
)
    requires
        weighted_graph_rows_ok(rows),
        weighted_graph_encodes(rows, g1),
        weighted_graph_encodes(rows, g2),
    ensures
        g1.spec_verts() == g2.spec_verts(),
        g1.edge_set() == g2.edge_set(),
        forall|e: (int, int)| #[trigger]
            g1.edge_set().contains(e) ==> g1.spec_weights()[e] == g2.spec_weights()[e],
{
    assert forall|e: (int, int)| #[trigger] g1.edge_set().contains(e)
        implies g2.edge_set().contains(e) && g1.spec_weights()[e]
        == g2.spec_weights()[e] by {
        let k = choose|k: int|
            1 <= k < rows.len() && Graph::canon((#[trigger] rows[k])[0], rows[k][1])
                == e;
    }
    assert forall|e: (int, int)| #[trigger] g2.edge_set().contains(e)
        implies g1.edge_set().contains(e) by {
        let k = choose|k: int|
            1 <= k < rows.len() && Graph::canon((#[trigger] rows[k])[0], rows[k][1])
                == e;
    }
    assert(g1.edge_set() =~= g2.edge_set());
}

/// Reads a weighted graph from its rows: succeeds exactly when the
/// rows are a well-formed weighted-graph file, and then returns the
/// graph they denote.
pub fn weighted_graph_from_rows(rows: &Vec<Vec<u64>>) -> (r: Option<WeightedGraph>)
    ensures
        (r is Some) <==> weighted_graph_rows_ok(rows_view(rows@)),
        r matches Some(g) ==> g.wf() && weighted_graph_encodes(rows_view(rows@), g),
{
    let ghost rv = rows_view(rows@);
    proof {
        assert(rv.len() == rows@.len());
        if rows@.len() > 0 {
            assert(rv[0] == rows@[0]@.map_values(|x: u64| x as int));
        }
    }
    if rows.len() == 0 {
        return None;
    }
    if rows[0].len() != 1 {
        return None;
    }
    let header = rows[0][0];
    proof {
        assert(rv[0][0] == header as int);
    }
    if header > (usize::MAX as u64) {
        return None;
    }
    let num_verts = header as usize;
    // the packed storage for this many vertices must fit in memory
    if num_verts == usize::MAX {
        return None;
    }
    let packed = (num_verts / 2 + num_verts % 2) as u128;
    proof {
        assert((packed as int) * (num_verts as int + 1) <= u128::MAX)
            by (nonlinear_arith)
            requires
                packed as int == num_verts as int / 2 + num_verts as int % 2,
                num_verts < usize::MAX,
        ;
    }
    if packed * ((num_verts as u128) + 1) > (usize::MAX as u128) {
        proof {
            assert(!graph_capacity_ok(rv[0][0]));
        }
        return None;
    }
    // every edge row must be in shape and in range
    let mut edges: Vec<(usize, usize, u64)> = Vec::new();
    let mut k: usize = 1;
    while k < rows.len()
        invariant
            1 <= k <= rows@.len(),
            rv == rows_view(rows@),
            rv[0].len() == 1,
            num_verts == rv[0][0],
            edges@.len() == k - 1,
            forall|m: int|
                0 <= m < k - 1 ==> ((#[trigger] edges@[m]).0 as int == rv[m + 1][0]
                    && edges@[m].1 as int == rv[m + 1][1] && edges@[m].2 as int == rv[
                    m + 1
                ][2]),
            forall|m: int|
                1 <= m < k ==> (#[trigger] rv[m]).len() >= 3 && 0 <= rv[m][0]
                    < num_verts && 0 <= rv[m][1] < num_verts,
        decreases rows@.len() - k,
    {
        let row = &rows[k];
        proof {
            assert(rv[k as int] == rows@[k as int]@.map_values(|x: u64| x as int));
        }
        if row.len() < 3 {
            proof {
                assert(!weighted_graph_rows_ok(rv));
            }
            return None;
        }
        let u = row[0];
        let v = row[1];
        let w = row[2];
        proof {
            assert(rv[k as int][0] == u as int);
            assert(rv[k as int][1] == v as int);
            assert(rv[k as int][2] == w as int);
        }
        if u >= (num_verts as u64) || v >= (num_verts as u64) {
            proof {
                assert(!weighted_graph_rows_ok(rv));
            }
            return None;
        }
        edges.push((u as usize, v as usize, w));
        k = k + 1;
    }
    // no edge may appear twice
    let mut a: usize = 0;
    while a < edges.len()
        invariant
            a <= edges@.len(),
            rv == rows_view(rows@),
            rv.len() >= 1,
            rv[0].len() == 1,
            num_verts == rv[0][0],
            graph_capacity_ok(num_verts as int),
            edges@.len() == rows@.len() - 1,
            forall|m: int|
                0 <= m < edges@.len() ==> ((#[trigger] edges@[m]).0 as int == rv[m
                    + 1][0] && edges@[m].1 as int == rv[m + 1][1] && edges@[m].2 as int
                    == rv[m + 1][2]),
            forall|m: int|
                1 <= m < rv.len() ==> (#[trigger] rv[m]).len() >= 3 && 0 <= rv[m][0]
                    < num_verts && 0 <= rv[m][1] < num_verts,
            forall|m1: int, m2: int|
                0 <= m1 < m2 < edges@.len() && m1 < a ==> Graph::canon(
                    (#[trigger] edges@[m1]).0 as int,
                    edges@[m1].1 as int,
                ) != Graph::canon(
                    (#[trigger] edges@[m2]).0 as int,
                    edges@[m2].1 as int,
                ),
        decreases edges@.len() - a,
    {
        let (ua, va, _) = edges[a];
        let (ca, cb) = if ua <= va {
            (ua, va)
        } else {
            (va, ua)
        };
        let mut b: usize = a + 1;
        while b < edges.len()
            invariant
                a < b <= edges@.len() || b == a + 1,
                a < edges@.len(),
                rv == rows_view(rows@),
                edges@.len() == rows@.len() - 1,
                forall|m: int|
                    0 <= m < edges@.len() ==> ((#[trigger] edges@[m]).0 as int == rv[m
                        + 1][0] && edges@[m].1 as int == rv[m + 1][1]
                        && edges@[m].2 as int == rv[m + 1][2]),
                (ua, va) == (edges@[a as int].0, edges@[a as int].1),
                (ca as int, cb as int) == Graph::canon(ua as int, va as int),
                forall|m2: int|
                    a < m2 < b ==> Graph::canon(
                        (#[trigger] edges@[m2]).0 as int,
                        edges@[m2].1 as int,
                    ) != Graph::canon(ua as int, va as int),
            decreases edges@.len() - b,
        {
            let (ub, vb, _) = edges[b];
            let (da, db) = if ub <= vb {
                (ub, vb)
            } else {
                (vb, ub)
            };
            if ca == da && cb == db {
                proof {
                    assert(Graph::canon(rv[a + 1][0], rv[a + 1][1]) == Graph::canon(
                        rv[b + 1][0],
                        rv[b + 1][1],
                    ));
                    assert(!weighted_graph_rows_ok(rv));
                }
                return None;
            }
            b = b + 1;
        }
        a = a + 1;
    }
    proof {
        assert forall|k1: int, k2: int|
            1 <= k1 < k2 < rv.len() implies Graph::canon(
            (#[trigger] rv[k1])[0],
            rv[k1][1],
        ) != Graph::canon((#[trigger] rv[k2])[0], rv[k2][1]) by {
            assert(edges@[k1 - 1].0 as int == rv[k1][0]);
            assert(edges@[k1 - 1].1 as int == rv[k1][1]);
            assert(edges@[k2 - 1].0 as int == rv[k2][0]);
            assert(edges@[k2 - 1].1 as int == rv[k2][1]);
        }
    }
    let g = WeightedGraph::from_weighted_edges(num_verts, edges);
    proof {
        assert(weighted_graph_rows_ok(rv));
        assert forall|m: int| 1 <= m < rv.len() implies g.edge_set().contains(
            Graph::canon((#[trigger] rv[m])[0], rv[m][1]),
        ) && g.spec_weights()[Graph::canon(rv[m][0], rv[m][1])] == rv[m][2] by {
            assert(g.edge_set().contains(Graph::canon(
                edges@[m - 1].0 as int,
                edges@[m - 1].1 as int,
            )));
        }
        assert forall|e: (int, int)| #[trigger] g.edge_set().contains(e)
            implies exists|k2: int|
            1 <= k2 < rv.len() && Graph::canon((#[trigger] rv[k2])[0], rv[k2][1])
                == e by {
            let m = choose|m: int|
                0 <= m < edges@.len() && Graph::canon(
                    (#[trigger] edges@[m]).0 as int,
                    edges@[m].1 as int,
                ) == e;
            assert(Graph::canon(rv[m + 1][0], rv[m + 1][1]) == e);
        }
    }
    Some(g)
}

/// A digraph file: the first row is the vertex count, within the
/// adjacency-matrix capacity; every further row is an arc with two
/// in-range endpoints, and no arc appears twice.
pub open spec fn digraph_rows_ok(rows: Seq<Seq<int>>) -> bool {
    &&& rows.len() >= 1
    &&& rows[0].len() == 1
    &&& 0 <= rows[0][0] <= usize::MAX
    &&& digraph_capacity_ok(rows[0][0])
    &&& (forall|k: int|
        1 <= k < rows.len() ==> (#[trigger] rows[k]).len() >= 2 && 0 <= rows[k][0]
            < rows[0][0] && 0 <= rows[k][1] < rows[0][0])
    &&& (forall|k1: int, k2: int|
        1 <= k1 < k2 < rows.len() ==> ((#[trigger] rows[k1])[0], rows[k1][1]) != ((
        #[trigger] rows[k2])[0], rows[k2][1]))
}

/// The rows denote exactly this digraph.
pub open spec fn digraph_encodes(rows: Seq<Seq<int>>, d: Digraph) -> bool {
    &&& d.spec_verts() == rows[0][0]
    &&& (forall|k: int|
        1 <= k < rows.len() ==> d.edge_set().contains((
        (#[trigger] rows[k])[0],
        rows[k][1],
        )))
    &&& (forall|e: (int, int)| #[trigger]
        d.edge_set().contains(e) ==> exists|k: int|
            1 <= k < rows.len() && ((#[trigger] rows[k])[0], rows[k][1]) == e)
}

/// Two digraphs denoted by the same rows have the same vertices and
/// arcs.
pub proof fn lemma_digraph_rows_determine(rows: Seq<Seq<int>>, d1: Digraph, d2: Digraph)
    requires
        digraph_rows_ok(rows),
        digraph_encodes(rows, d1),
        digraph_encodes(rows, d2),
    ensures
        d1.spec_verts() == d2.spec_verts(),
        d1.edge_set() == d2.edge_set(),
{
    assert forall|e: (int, int)| #[trigger] d1.edge_set().contains(e)
        implies d2.edge_set().contains(e) by {
        let k = choose|k: int|
            1 <= k < rows.len() && ((#[trigger] rows[k])[0], rows[k][1]) == e;
    }
    assert forall|e: (int, int)| #[trigger] d2.edge_set().contains(e)
        implies d1.edge_set().contains(e) by {
        let k = choose|k: int|
            1 <= k < rows.len() && ((#[trigger] rows[k])[0], rows[k][1]) == e;
    }
    assert(d1.edge_set() =~= d2.edge_set());
}

/// Reads a digraph from its rows: succeeds exactly when the rows are a
/// well-formed digraph file, and then returns the digraph they denote.
pub fn digraph_from_rows(rows: &Vec<Vec<u64>>) -> (r: Option<Digraph>)
    ensures
        (r is Some) <==> digraph_rows_ok(rows_view(rows@)),
        r matches Some(d) ==> d.wf() && digraph_encodes(rows_view(rows@), d),
{
    let ghost rv = rows_view(rows@);
    proof {
        assert(rv.len() == rows@.len());
        if rows@.len() > 0 {
            assert(rv[0] == rows@[0]@.map_values(|x: u64| x as int));
        }
    }
    if rows.len() == 0 {
        return None;
    }
    if rows[0].len() != 1 {
        return None;
    }
    let header = rows[0][0];
    proof {
        assert(rv[0][0] == header as int);
    }
    if header > (usize::MAX as u64) {
        return None;
    }
    let num_verts = header as usize;
    proof {
        assert((num_verts as int) * (num_verts as int) <= u128::MAX)
            by (nonlinear_arith)
            requires
                num_verts <= usize::MAX,
        ;
    }
    // the adjacency matrix for this many vertices must fit in memory
    if (num_verts as u128) * (num_verts as u128) > (usize::MAX as u128) {
        proof {
            assert(!digraph_capacity_ok(rv[0][0]));
        }
        return None;
    }
    let mut digraph = Digraph::new(num_verts);
    let mut k: usize = 1;
    while k < rows.len()
        invariant
            1 <= k <= rows@.len(),
            rv == rows_view(rows@),
            rv[0].len() == 1,
            num_verts == rv[0][0],
            digraph.wf(),
            digraph.spec_verts() == num_verts,
            forall|m: int|
                1 <= m < k ==> (#[trigger] rv[m]).len() >= 2 && 0 <= rv[m][0]
                    < num_verts && 0 <= rv[m][1] < num_verts,
            forall|m: int|
                1 <= m < k ==> digraph.edge_set().contains((
                (#[trigger] rv[m])[0],
                rv[m][1],
                )),
            forall|e: (int, int)| #[trigger]
                digraph.edge_set().contains(e) ==> exists|m: int|
                    1 <= m < k && ((#[trigger] rv[m])[0], rv[m][1]) == e,
            forall|k1: int, k2: int|
                1 <= k1 < k2 < k ==> ((#[trigger] rv[k1])[0], rv[k1][1]) != ((
                #[trigger] rv[k2])[0], rv[k2][1]),
        decreases rows@.len() - k,
    {
        let row = &rows[k];
        proof {
            assert(rv[k as int] == rows@[k as int]@.map_values(|x: u64| x as int));
        }
        if row.len() < 2 {
            proof {
                assert(!digraph_rows_ok(rv));
            }
            return None;
        }
        let u = row[0];
        let v = row[1];
        proof {
            assert(rv[k as int][0] == u as int);
            assert(rv[k as int][1] == v as int);
        }
        if u >= (num_verts as u64) || v >= (num_verts as u64) {
            proof {
                assert(!digraph_rows_ok(rv));
            }
            return None;
        }
        let ghost before = digraph.edge_set();
        let res = digraph.add_edge(u as usize, v as usize);
        if res.is_err() {
            proof {
                // a duplicate arc: its earlier row collides with this one
                let m = choose|m: int|
                    1 <= m < k && ((#[trigger] rv[m])[0], rv[m][1]) == (
                    rv[k as int][0],
                    rv[k as int][1],
                    );
                assert(!digraph_rows_ok(rv));
            }
            return None;
        }
        proof {
            assert forall|e: (int, int)| #[trigger] digraph.edge_set().contains(e)
                implies exists|m: int|
                1 <= m < k + 1 && ((#[trigger] rv[m])[0], rv[m][1]) == e by {
                if e != (rv[k as int][0], rv[k as int][1]) {
                    assert(before.contains(e));
                }
            }
            // the added arc was new, so the rows so far stay distinct
            assert forall|k1: int, k2: int|
                1 <= k1 < k2 < k + 1 implies ((#[trigger] rv[k1])[0], rv[k1][1]) != ((
            #[trigger] rv[k2])[0], rv[k2][1]) by {
                if k2 == k as int && ((rv[k1])[0], rv[k1][1]) == (
                (rv[k2])[0],
                rv[k2][1],
                ) {
                    assert(before.contains((rv[k1][0], rv[k1][1])));
                }
            }
        }
        k = k + 1;
    }
    Some(digraph)
}

/// A graph file: the first row is the vertex count, within the packed
/// storage capacity; every further row is an edge with two in-range
/// endpoints, and no edge appears twice in either orientation.
pub open spec fn graph_rows_ok(rows: Seq<Seq<int>>) -> bool {
    &&& rows.len() >= 1
    &&& rows[0].len() == 1
    &&& 0 <= rows[0][0] <= usize::MAX
    &&& graph_capacity_ok(rows[0][0])
    &&& (forall|k: int|
        1 <= k < rows.len() ==> (#[trigger] rows[k]).len() >= 2 && 0 <= rows[k][0]
            < rows[0][0] && 0 <= rows[k][1] < rows[0][0])
    &&& (forall|k1: int, k2: int|
        1 <= k1 < k2 < rows.len() ==> Graph::canon(
            (#[trigger] rows[k1])[0],
            rows[k1][1],
        ) != Graph::canon((#[trigger] rows[k2])[0], rows[k2][1]))
}

/// The rows denote exactly this graph.
pub open spec fn graph_encodes(rows: Seq<Seq<int>>, g: Graph) -> bool {
    &&& g.spec_verts() == rows[0][0]
    &&& (forall|k: int|
        1 <= k < rows.len() ==> g.edge_set().contains(Graph::canon(
            (#[trigger] rows[k])[0],
            rows[k][1],
        )))
    &&& (forall|e: (int, int)| #[trigger]
        g.edge_set().contains(e) ==> exists|k: int|
            1 <= k < rows.len() && Graph::canon((#[trigger] rows[k])[0], rows[k][1])
                == e)
}

/// Reads a graph from its rows: succeeds exactly when the rows are a
/// well-formed graph file, and then returns the graph they denote.
pub fn graph_from_rows(rows: &Vec<Vec<u64>>) -> (r: Option<Graph>)
    ensures
        (r is Some) <==> graph_rows_ok(rows_view(rows@)),
        r matches Some(g) ==> g.wf() && graph_encodes(rows_view(rows@), g),
{
    let ghost rv = rows_view(rows@);
    proof {
        assert(rv.len() == rows@.len());
        if rows@.len() > 0 {
            assert(rv[0] == rows@[0]@.map_values(|x: u64| x as int));
        }
    }
    if rows.len() == 0 {
        return None;
    }
    if rows[0].len() != 1 {
        return None;
    }
    let header = rows[0][0];
    proof {
        assert(rv[0][0] == header as int);
    }
    if header > (usize::MAX as u64) {
        return None;
    }
    let num_verts = header as usize;
    // the packed storage for this many vertices must fit in memory
    if num_verts == usize::MAX {
        return None;
    }
    let packed = (num_verts / 2 + num_verts % 2) as u128;
    proof {
        assert((packed as int) * (num_verts as int + 1) <= u128::MAX)
            by (nonlinear_arith)
            requires
                packed as int == num_verts as int / 2 + num_verts as int % 2,
                num_verts < usize::MAX,
        ;
    }
    if packed * ((num_verts as u128) + 1) > (usize::MAX as u128) {
        proof {
            assert(!graph_capacity_ok(rv[0][0]));
        }
        return None;
    }
    let mut graph = Graph::new(num_verts);
    let mut k: usize = 1;
    while k < rows.len()
        invariant
            1 <= k <= rows@.len(),
            rv == rows_view(rows@),
            rv[0].len() == 1,
            num_verts == rv[0][0],
            graph.wf(),
            graph.spec_verts() == num_verts,
            forall|m: int|
                1 <= m < k ==> (#[trigger] rv[m]).len() >= 2 && 0 <= rv[m][0]
                    < num_verts && 0 <= rv[m][1] < num_verts,
            forall|m: int|
                1 <= m < k ==> graph.edge_set().contains(Graph::canon(
                    (#[trigger] rv[m])[0],
                    rv[m][1],
                )),
            forall|e: (int, int)| #[trigger]
                graph.edge_set().contains(e) ==> exists|m: int|
                    1 <= m < k && Graph::canon((#[trigger] rv[m])[0], rv[m][1]) == e,
            forall|k1: int, k2: int|
                1 <= k1 < k2 < k ==> Graph::canon((#[trigger] rv[k1])[0], rv[k1][1])
                    != Graph::canon((#[trigger] rv[k2])[0], rv[k2][1]),
        decreases rows@.len() - k,
    {
        let row = &rows[k];
        proof {
            assert(rv[k as int] == rows@[k as int]@.map_values(|x: u64| x as int));
        }
        if row.len() < 2 {
            proof {
                assert(!graph_rows_ok(rv));
            }
            return None;
        }
        let u = row[0];
        let v = row[1];
        proof {
            assert(rv[k as int][0] == u as int);
            assert(rv[k as int][1] == v as int);
        }
        if u >= (num_verts as u64) || v >= (num_verts as u64) {
            proof {
                assert(!graph_rows_ok(rv));
            }
            return None;
        }
        let ghost before = graph.edge_set();
        let res = graph.add_edge(u as usize, v as usize);
        if res.is_err() {
            proof {
                // a duplicate edge: its earlier row collides with this one
                let m = choose|m: int|
                    1 <= m < k && Graph::canon((#[trigger] rv[m])[0], rv[m][1])
                        == Graph::canon(rv[k as int][0], rv[k as int][1]);
                assert(!graph_rows_ok(rv));
            }
            return None;
        }
        proof {
            assert forall|e: (int, int)| #[trigger] graph.edge_set().contains(e)
                implies exists|m: int|
                1 <= m < k + 1 && Graph::canon((#[trigger] rv[m])[0], rv[m][1])
                    == e by {
                if e != Graph::canon(rv[k as int][0], rv[k as int][1]) {
                    assert(before.contains(e));
                }
            }
            // the added edge was new, so the rows so far stay distinct
            assert forall|k1: int, k2: int|
                1 <= k1 < k2 < k + 1 implies Graph::canon(
                (#[trigger] rv[k1])[0],
                rv[k1][1],
            ) != Graph::canon((#[trigger] rv[k2])[0], rv[k2][1]) by {
                if k2 == k as int && Graph::canon((rv[k1])[0], rv[k1][1])
                    == Graph::canon((rv[k2])[0], rv[k2][1]) {
                    assert(before.contains(Graph::canon(rv[k1][0], rv[k1][1])));
                }
            }
        }
        k = k + 1;
    }
    Some(graph)
}

/// The dependency-bound maps a bounds file denotes: each row holds an
/// edge and its lower and upper bound, and a later row for the same
/// edge overrides an earlier one.
pub open spec fn bounds_rows_maps(rows: Seq<Seq<int>>) -> (
    Map<(int, int), usize>,
    Map<(int, int), usize>,
)
    decreases rows.len(),
{
    if rows.len() == 0 {
        (Map::empty(), Map::empty())
    } else {
        let rest = bounds_rows_maps(rows.drop_last());
        let row = rows.last();
        (
            rest.0.insert((row[0], row[1]), row[2] as usize),
            rest.1.insert((row[0], row[1]), row[3] as usize),
        )
    }
}

/// A bounds file: every row holds at least four numbers, each fitting
/// an index.
pub open spec fn bounds_rows_ok(rows: Seq<Seq<int>>) -> bool {
    forall|k: int|
        0 <= k < rows.len() ==> (#[trigger] rows[k]).len() >= 4 && 0 <= rows[k][0]
            <= usize::MAX && 0 <= rows[k][1] <= usize::MAX && 0 <= rows[k][2]
            <= usize::MAX && 0 <= rows[k][3] <= usize::MAX
}

/// Reads the two dependency-bound maps from the rows of a bounds file:
/// succeeds exactly when the rows are well formed, and then returns
/// exactly the maps they denote.
pub fn bounds_from_rows(rows: &Vec<Vec<u64>>) -> (r: Option<(BoundMap, BoundMap)>)
    ensures
        (r is Some) <==> bounds_rows_ok(rows_view(rows@)),
        r matches Some(maps) ==> maps.0.wf() && maps.1.wf() && (
        maps.0.spec_map(),
        maps.1.spec_map(),
        ) == bounds_rows_maps(rows_view(rows@)),
{
    let ghost rv = rows_view(rows@);
    let mut dep_lb = BoundMap::new();
    let mut dep_ub = BoundMap::new();
    let mut k: usize = 0;
    proof {
        assert(rv.subrange(0, 0) =~= Seq::empty());
        assert(bounds_rows_maps(rv.subrange(0, 0)) == (
            Map::<(int, int), usize>::empty(),
            Map::<(int, int), usize>::empty(),
        ));
    }
    while k < rows.len()
        invariant
            k <= rows@.len(),
            rv == rows_view(rows@),
            dep_lb.wf(),
            dep_ub.wf(),
            forall|m: int|
                0 <= m < k ==> (#[trigger] rv[m]).len() >= 4 && 0 <= rv[m][0]
                    <= usize::MAX && 0 <= rv[m][1] <= usize::MAX && 0 <= rv[m][2]
                    <= usize::MAX && 0 <= rv[m][3] <= usize::MAX,
            (dep_lb.spec_map(), dep_ub.spec_map()) == bounds_rows_maps(
                rv.subrange(0, k as int),
            ),
        decreases rows@.len() - k,
    {
        let row = &rows[k];
        proof {
            assert(rv[k as int] == rows@[k as int]@.map_values(|x: u64| x as int));
        }
        if row.len() < 4 {
            proof {
                assert(!bounds_rows_ok(rv));
            }
            return None;
        }
        let i = row[0];
        let j = row[1];
        let l = row[2];
        let u = row[3];
        proof {
            assert(rv[k as int][0] == i as int);
            assert(rv[k as int][1] == j as int);
            assert(rv[k as int][2] == l as int);
            assert(rv[k as int][3] == u as int);
        }
        if i > (usize::MAX as u64) || j > (usize::MAX as u64) || l > (usize::MAX as u64)
            || u > (usize::MAX as u64) {
            proof {
                assert(!bounds_rows_ok(rv));
            }
            return None;
        }
        dep_lb.insert(i as usize, j as usize, l as usize);
        dep_ub.insert(i as usize, j as usize, u as usize);
        proof {
            assert(rv.subrange(0, k as int + 1).drop_last() =~= rv.subrange(
                0,
                k as int,
            ));
            assert(rv.subrange(0, k as int + 1).last() == rv[k as int]);
        }
        k = k + 1;
    }
    proof {
        assert(rv.subrange(0, rv.len() as int) =~= rv);
    }
    Some((dep_lb, dep_ub))
}

/// The three row sets denote a coherent instance: each file is well
/// formed, the dependency digraph has one vertex per edge, and every
/// edge's bounds exist in order.
pub open spec fn instance_rows_ok(
    g_rows: Seq<Seq<int>>,
    d_rows: Seq<Seq<int>>,
    b_rows: Seq<Seq<int>>,
) -> bool {
    &&& weighted_graph_rows_ok(g_rows)
    &&& digraph_rows_ok(d_rows)
    &&& bounds_rows_ok(b_rows)
}

/// The three row sets cohere: the dependency digraph has exactly one
/// vertex per edge row, and every edge row's endpoints carry bounds
/// with the lower one at most the upper one.
pub open spec fn instance_rows_coherent(
    g_rows: Seq<Seq<int>>,
    d_rows: Seq<Seq<int>>,
    b_rows: Seq<Seq<int>>,
) -> bool
    recommends
        instance_rows_ok(g_rows, d_rows, b_rows),
{
    &&& d_rows[0][0] == g_rows.len() - 1
    &&& (forall|k: int|
        1 <= k < g_rows.len() ==> {
            let e = Graph::canon((#[trigger] g_rows[k])[0], g_rows[k][1]);
            bounds_rows_maps(b_rows).0.dom().contains(e) && bounds_rows_maps(
                b_rows,
            ).1.dom().contains(e) && bounds_rows_maps(b_rows).0[e] <= bounds_rows_maps(
                b_rows,
            ).1[e]
        })
}

/// A graph the rows denote has one edge per edge row.
proof fn lemma_encodes_edge_count(rows: Seq<Seq<int>>, g: WeightedGraph)
    requires
        g.wf(),
        weighted_graph_rows_ok(rows),
        weighted_graph_encodes(rows, g),
    ensures
        g.edge_set().len() == rows.len() - 1,
{
    g.lemma_edge_set_props();
    let f = |k: int| Graph::canon(rows[k][0], rows[k][1]);
    let dom = vstd::set_lib::set_int_range(1, rows.len() as int);
    assert(vstd::relations::injective_on(f, dom)) by {
        assert forall|k1: int, k2: int|
            #![trigger f(k1), f(k2)]
            dom.contains(k1) && dom.contains(k2) && f(k1) == f(k2) implies k1 == k2 by {
            if k1 < k2 {
                assert(Graph::canon(rows[k1][0], rows[k1][1]) != Graph::canon(
                    rows[k2][0],
                    rows[k2][1],
                ));
            }
            if k2 < k1 {
                assert(Graph::canon(rows[k2][0], rows[k2][1]) != Graph::canon(
                    rows[k1][0],
                    rows[k1][1],
                ));
            }
        }
    }
    let image = dom.map(f);
    assert forall|e: (int, int)| #[trigger] image.contains(e) implies g.edge_set().contains(
        e,
    ) by {
        let k = choose|k: int| dom.contains(k) && f(k) == e;
        assert(g.edge_set().contains(Graph::canon(rows[k][0], rows[k][1])));
    }
    assert forall|e: (int, int)| #[trigger] g.edge_set().contains(e) implies image.contains(
        e,
    ) by {
        let k = choose|k: int|
            1 <= k < rows.len() && Graph::canon(rows[k][0], rows[k][1]) == e;
        assert(dom.contains(k) && f(k) == e);
    }
    assert(image =~= g.edge_set());
    vstd::set_lib::lemma_int_range(1, rows.len() as int);
    vstd::set_lib::lemma_map_size(dom, image, f);
}

/// Reads a whole instance from the rows of its three files. Succeeds
/// only on well-formed rows whose parts cohere: the dependency digraph
/// has exactly one vertex per graph edge, and every edge carries
/// bounds with the lower one at most the upper one. The returned
/// instance is exactly the one the rows denote.
pub fn instance_from_rows(
    g_rows: &Vec<Vec<u64>>,
    d_rows: &Vec<Vec<u64>>,
    b_rows: &Vec<Vec<u64>>,
) -> (r: Option<Instance>)
    ensures
        (r is Some) <==> (instance_rows_ok(
            rows_view(g_rows@),
            rows_view(d_rows@),
            rows_view(b_rows@),
        ) && instance_rows_coherent(
            rows_view(g_rows@),
            rows_view(d_rows@),
            rows_view(b_rows@),
        )),
        r matches Some(inst) ==> inst.wf() && weighted_graph_encodes(
            rows_view(g_rows@),
            inst.spec_graph(),
        ) && digraph_encodes(rows_view(d_rows@), inst.spec_dependencies()) && (
        inst.spec_dep_lb(),
        inst.spec_dep_ub(),
        ) == bounds_rows_maps(rows_view(b_rows@)),
{
    let ghost gv = rows_view(g_rows@);
    let ghost dv = rows_view(d_rows@);
    let ghost bv = rows_view(b_rows@);
    let g = match weighted_graph_from_rows(g_rows) {
        Some(g) => g,
        None => {
            return None;
        },
    };
    let d = match digraph_from_rows(d_rows) {
        Some(d) => d,
        None => {
            return None;
        },
    };
    let (dep_lb, dep_ub) = match bounds_from_rows(b_rows) {
        Some(maps) => maps,
        None => {
            return None;
        },
    };
    proof {
        lemma_encodes_edge_count(gv, g);
    }
    // the dependency digraph must have one vertex per edge
    if d.num_verts() != g.num_edges() {
        proof {
            assert(!instance_rows_coherent(gv, dv, bv));
        }
        return None;
    }
    // every edge must carry bounds in order
    let edges = g.edges();
    let mut k: usize = 0;
    while k < edges.len()
        invariant
            k <= edges@.len(),
            g.wf(),
            dep_lb.wf(),
            dep_ub.wf(),
            gv == rows_view(g_rows@),
            dv == rows_view(d_rows@),
            bv == rows_view(b_rows@),
            weighted_graph_rows_ok(gv),
            weighted_graph_encodes(gv, g),
            dep_lb.spec_map() == bounds_rows_maps(bv).0,
            dep_ub.spec_map() == bounds_rows_maps(bv).1,
            forall|m: int|
                0 <= m < edges@.len() ==> g.edge_set().contains(
                    crate::traits::pair_view(#[trigger] edges@[m]),
                ),
            forall|e: (int, int)| #[trigger]
                g.edge_set().contains(e) ==> exists|m: int|
                    0 <= m < edges@.len() && crate::traits::pair_view(edges@[m]) == e,
            forall|m: int|
                0 <= m < k ==> {
                    let e = crate::traits::pair_view(#[trigger] edges@[m]);
                    dep_lb.spec_map().dom().contains(e) && dep_ub.spec_map(
                    ).dom().contains(e) && dep_lb.spec_map()[e] <= dep_ub.spec_map()[e]
                },
        decreases edges@.len() - k,
    {
        let (u, v) = edges[k];
        proof {
            // an edge of the graph stands in some edge row, whose
            // coherence names its bounds
            if instance_rows_coherent(gv, dv, bv) {
                let e = crate::traits::pair_view(edges@[k as int]);
                assert(g.edge_set().contains(e));
                let m = choose|m: int|
                    1 <= m < gv.len() && Graph::canon(gv[m][0], gv[m][1]) == e;
                assert(bounds_rows_maps(bv).0.dom().contains(e) && bounds_rows_maps(
                    bv,
                ).1.dom().contains(e) && bounds_rows_maps(bv).0[e] <= bounds_rows_maps(
                    bv,
                ).1[e]);
            }
            g.lemma_edge_set_props();
            assert(Graph::canon(u as int, v as int) == (u as int, v as int));
        }
        let l = match dep_lb.get(u, v) {
            Some(l) => l,
            None => {
                proof {
                    assert(!instance_rows_coherent(gv, dv, bv));
                }
                return None;
            },
        };
        let ub = match dep_ub.get(u, v) {
            Some(ub) => ub,
            None => {
                proof {
                    assert(!instance_rows_coherent(gv, dv, bv));
                }
                return None;
            },
        };
        if l > ub {
            proof {
                assert(!instance_rows_coherent(gv, dv, bv));
            }
            return None;
        }
        k = k + 1;
    }
    proof {
        assert forall|e: (int, int)| #[trigger] g.edge_set().contains(e)
            implies dep_lb.spec_map().dom().contains(e) && dep_ub.spec_map(
        ).dom().contains(e) && dep_lb.spec_map()[e] <= dep_ub.spec_map()[e] by {
            let m = choose|m: int|
                0 <= m < edges@.len() && crate::traits::pair_view(edges@[m]) == e;
        }
        // every check passed, so the rows cohere
        assert(instance_rows_coherent(gv, dv, bv)) by {
            assert forall|k: int| 1 <= k < gv.len() implies {
                let e = Graph::canon((#[trigger] gv[k])[0], gv[k][1]);
                bounds_rows_maps(bv).0.dom().contains(e) && bounds_rows_maps(
                    bv,
                ).1.dom().contains(e) && bounds_rows_maps(bv).0[e] <= bounds_rows_maps(
                    bv,
                ).1[e]
            } by {
                let e = Graph::canon(gv[k][0], gv[k][1]);
                assert(g.edge_set().contains(e));
            }
        }
    }
    Some(Instance::new(g, d, dep_lb, dep_ub))
}

/// Writes a weighted graph as the rows of its file: the vertex count,
/// then one row per edge in canonical order. Reading the rows back
/// denotes the same graph.
pub fn weighted_graph_to_rows(g: &WeightedGraph) -> (r: Vec<Vec<u64>>)
    requires
        g.wf(),
    ensures
        weighted_graph_rows_ok(rows_view(r@)),
        weighted_graph_encodes(rows_view(r@), *g),
{
    proof {
        g.lemma_capacity_ok();
        g.lemma_edge_set_props();
    }
    let mut rows: Vec<Vec<u64>> = Vec::new();
    let n = g.num_verts();
    let mut header: Vec<u64> = Vec::new();
    header.push(n as u64);
    rows.push(header);
    let edges = g.edges();
    let mut k: usize = 0;
    while k < edges.len()
        invariant
            k <= edges@.len(),
            g.wf(),
            n == g.spec_verts(),
            rows@.len() == k + 1,
            rows_view(rows@)[0].len() == 1,
            rows_view(rows@)[0][0] == n,
            forall|m: int|
                0 <= m < edges@.len() ==> g.edge_set().contains(
                    crate::traits::pair_view(#[trigger] edges@[m]),
                ),
            forall|m1: int, m2: int|
                0 <= m1 < m2 < edges@.len() ==> crate::traits::pair_view(
                    #[trigger] edges@[m1],
                ) != crate::traits::pair_view(#[trigger] edges@[m2]),
            forall|e: (int, int)| #[trigger]
                g.edge_set().contains(e) ==> exists|m: int|
                    0 <= m < edges@.len() && crate::traits::pair_view(edges@[m]) == e,
            forall|m: int|
                1 <= m < k + 1 ==> {
                    let rm = rows_view(rows@)[m];
                    let e = crate::traits::pair_view(edges@[m - 1]);
                    (#[trigger] rows_view(rows@)[m]).len() == 3 && rm[0] == e.0 && rm[1]
                        == e.1 && rm[2] == g.spec_weights()[e]
                },
        decreases edges@.len() - k,
    {
        let (u, v) = edges[k];
        proof {
            g.lemma_edge_set_props();
            assert(g.edge_set().contains(crate::traits::pair_view(edges@[k as int])));
        }
        let w = g.get_edge_weight(u, v).unwrap();
        let mut row: Vec<u64> = Vec::new();
        row.push(u as u64);
        row.push(v as u64);
        row.push(w);
        let ghost prev = rows@;
        rows.push(row);
        proof {
            assert(rows_view(rows@) =~= rows_view(prev).push(row@.map_values(
                |x: u64| x as int,
            )));
        }
        k = k + 1;
    }
    proof {
        let rv = rows_view(rows@);
        assert forall|m: int| 1 <= m < rv.len() implies (#[trigger] rv[m]).len() >= 3
            && 0 <= rv[m][0] < rv[0][0] && 0 <= rv[m][1] < rv[0][0] && Graph::canon(
            rv[m][0],
            rv[m][1],
        ) == crate::traits::pair_view(edges@[m - 1]) by {
            let e = crate::traits::pair_view(edges@[m - 1]);
            assert(g.edge_set().contains(e));
        }
        assert forall|e: (int, int)| #[trigger] g.edge_set().contains(e)
            implies exists|k2: int|
            1 <= k2 < rv.len() && Graph::canon((#[trigger] rv[k2])[0], rv[k2][1])
                == e by {
            let m = choose|m: int|
                0 <= m < edges@.len() && crate::traits::pair_view(edges@[m]) == e;
            assert(Graph::canon(rv[m + 1][0], rv[m + 1][1]) == e);
        }
    }
    rows
}

/// Writes a digraph as the rows of its file: the vertex count, then
/// one row per arc in canonical order. Reading the rows back denotes
/// the same digraph.
pub fn digraph_to_rows(d: &Digraph) -> (r: Vec<Vec<u64>>)
    requires
        d.wf(),
        digraph_capacity_ok(d.spec_verts()),
    ensures
        digraph_rows_ok(rows_view(r@)),
        digraph_encodes(rows_view(r@), *d),
{
    proof {
        d.lemma_edge_set_props();
    }
    let mut rows: Vec<Vec<u64>> = Vec::new();
    let n = d.num_verts();
    let mut header: Vec<u64> = Vec::new();
    header.push(n as u64);
    rows.push(header);
    let edges = d.edges();
    let mut k: usize = 0;
    while k < edges.len()
        invariant
            k <= edges@.len(),
            d.wf(),
            n == d.spec_verts(),
            rows@.len() == k + 1,
            rows_view(rows@)[0].len() == 1,
            rows_view(rows@)[0][0] == n,
            forall|m: int|
                0 <= m < edges@.len() ==> d.edge_set().contains(
                    crate::traits::pair_view(#[trigger] edges@[m]),
                ),
            forall|m1: int, m2: int|
                0 <= m1 < m2 < edges@.len() ==> crate::traits::pair_view(
                    #[trigger] edges@[m1],
                ) != crate::traits::pair_view(#[trigger] edges@[m2]),
            forall|e: (int, int)| #[trigger]
                d.edge_set().contains(e) ==> exists|m: int|
                    0 <= m < edges@.len() && crate::traits::pair_view(edges@[m]) == e,
            forall|m: int|
                1 <= m < k + 1 ==> {
                    let rm = rows_view(rows@)[m];
                    let e = crate::traits::pair_view(edges@[m - 1]);
                    (#[trigger] rows_view(rows@)[m]).len() == 2 && rm[0] == e.0 && rm[1]
                        == e.1
                },
        decreases edges@.len() - k,
    {
        let (u, v) = edges[k];
        proof {
            d.lemma_edge_set_props();
            assert(d.edge_set().contains(crate::traits::pair_view(edges@[k as int])));
        }
        let mut row: Vec<u64> = Vec::new();
        row.push(u as u64);
        row.push(v as u64);
        let ghost prev = rows@;
        rows.push(row);
        proof {
            assert(rows_view(rows@) =~= rows_view(prev).push(row@.map_values(
                |x: u64| x as int,
            )));
        }
        k = k + 1;
    }
    proof {
        let rv = rows_view(rows@);
        assert forall|e: (int, int)| #[trigger] d.edge_set().contains(e)
            implies exists|k2: int|
            1 <= k2 < rv.len() && ((#[trigger] rv[k2])[0], rv[k2][1]) == e by {
            let m = choose|m: int|
                0 <= m < edges@.len() && crate::traits::pair_view(edges@[m]) == e;
            assert((rv[m + 1][0], rv[m + 1][1]) == e);
        }
        assert forall|k1: int, k2: int|
            1 <= k1 < k2 < rv.len() implies ((#[trigger] rv[k1])[0], rv[k1][1]) != ((
        #[trigger] rv[k2])[0], rv[k2][1]) by {
            assert(crate::traits::pair_view(edges@[k1 - 1]) != crate::traits::pair_view(
                edges@[k2 - 1],
            ));
        }
    }
    rows
}

/// Writes the bounds of an instance as the rows of its bounds file:
/// one row per edge in canonical order, with the edge and its two
/// bounds. Reading the rows back denotes maps that agree with the
/// instance's on every edge.
pub fn bounds_to_rows(instance: &Instance) -> (r: Vec<Vec<u64>>)
    requires
        instance.wf(),
    ensures
        bounds_rows_ok(rows_view(r@)),
        forall|e: (int, int)| #[trigger]
            instance.spec_graph().edge_set().contains(e) ==> bounds_rows_maps(
                rows_view(r@),
            ).0.dom().contains(e) && bounds_rows_maps(rows_view(r@)).1.dom().contains(
                e,
            ) && bounds_rows_maps(rows_view(r@)).0[e] == instance.spec_dep_lb()[e]
                && bounds_rows_maps(rows_view(r@)).1[e] == instance.spec_dep_ub()[e],
{
    proof {
        instance.lemma_wf();
        instance.spec_graph().lemma_edge_set_props();
    }
    let mut rows: Vec<Vec<u64>> = Vec::new();
    let edges = instance.graph().edges();
    let mut k: usize = 0;
    proof {
        assert(rows_view(rows@).subrange(0, 0) =~= Seq::empty());
    }
    while k < edges.len()
        invariant
            k <= edges@.len(),
            instance.wf(),
            rows@.len() == k,
            forall|m: int|
                0 <= m < edges@.len() ==> instance.spec_graph().edge_set().contains(
                    crate::traits::pair_view(#[trigger] edges@[m]),
                ),
            forall|m1: int, m2: int|
                0 <= m1 < m2 < edges@.len() ==> crate::traits::pair_view(
                    #[trigger] edges@[m1],
                ) != crate::traits::pair_view(#[trigger] edges@[m2]),
            forall|e: (int, int)| #[trigger]
                instance.spec_graph().edge_set().contains(e) ==> exists|m: int|
                    0 <= m < edges@.len() && crate::traits::pair_view(edges@[m]) == e,
            bounds_rows_ok(rows_view(rows@)),
            forall|m: int|
                0 <= m < k ==> {
                    let rm = rows_view(rows@)[m];
                    let e = crate::traits::pair_view(edges@[m]);
                    (#[trigger] rows_view(rows@)[m]).len() == 4 && rm[0] == e.0 && rm[1]
                        == e.1 && rm[2] == instance.spec_dep_lb()[e] && rm[3]
                        == instance.spec_dep_ub()[e]
                },
        decreases edges@.len() - k,
    {
        let (u, v) = edges[k];
        proof {
            instance.lemma_wf();
            instance.spec_graph().lemma_edge_set_props();
            assert(instance.spec_graph().edge_set().contains(crate::traits::pair_view(
                edges@[k as int],
            )));
        }
        let l = instance.dep_lb().get(u, v).unwrap();
        let ub = instance.dep_ub().get(u, v).unwrap();
        let mut row: Vec<u64> = Vec::new();
        row.push(u as u64);
        row.push(v as u64);
        row.push(l as u64);
        row.push(ub as u64);
        let ghost prev = rows@;
        rows.push(row);
        proof {
            assert(rows_view(rows@) =~= rows_view(prev).push(row@.map_values(
                |x: u64| x as int,
            )));
        }
        k = k + 1;
    }
    proof {
        // folding the rows gives maps that agree with the instance's on
        // every edge: keys are distinct, so each edge keeps its own row
        let rv = rows_view(rows@);
        lemma_bounds_fold_distinct(rv);
        assert forall|e: (int, int)| #[trigger]
            instance.spec_graph().edge_set().contains(e) implies bounds_rows_maps(
            rv,
        ).0.dom().contains(e) && bounds_rows_maps(rv).1.dom().contains(e)
            && bounds_rows_maps(rv).0[e] == instance.spec_dep_lb()[e]
            && bounds_rows_maps(rv).1[e] == instance.spec_dep_ub()[e] by {
            let m = choose|m: int|
                0 <= m < edges@.len() && crate::traits::pair_view(edges@[m]) == e;
            assert((rv[m][0], rv[m][1]) == e);
            assert forall|m2: int| 0 <= m2 < rv.len() && m2 != m implies (
            (#[trigger] rv[m2])[0], rv[m2][1]) != e by {
                if m2 < m {
                    assert(crate::traits::pair_view(edges@[m2])
                        != crate::traits::pair_view(edges@[m]));
                } else {
                    assert(crate::traits::pair_view(edges@[m])
                        != crate::traits::pair_view(edges@[m2]));
                }
            }
        }
    }
    rows
}

// a key held by exactly one row maps to that row's values in the
// folded bound maps
proof fn lemma_bounds_fold_distinct(rows: Seq<Seq<int>>)
    requires
        bounds_rows_ok(rows),
    ensures
        forall|m: int|
            0 <= m < rows.len() && (forall|m2: int|
                0 <= m2 < rows.len() && m2 != m ==> ((#[trigger] rows[m2])[0], rows[
                    m2
                ][1]) != ((rows[m])[0], rows[m][1])) ==> {
                let key = ((#[trigger] rows[m])[0], rows[m][1]);
                bounds_rows_maps(rows).0.dom().contains(key) && bounds_rows_maps(
                    rows,
                ).1.dom().contains(key) && bounds_rows_maps(rows).0[key] == rows[m][2]
                    as usize && bounds_rows_maps(rows).1[key] == rows[m][3] as usize
            },
    decreases rows.len(),
{
    if rows.len() > 0 {
        lemma_bounds_fold_distinct(rows.drop_last());
        assert forall|m: int|
            0 <= m < rows.len() && (forall|m2: int|
                0 <= m2 < rows.len() && m2 != m ==> ((#[trigger] rows[m2])[0], rows[
                    m2
                ][1]) != ((rows[m])[0], rows[m][1])) implies {
            let key = ((#[trigger] rows[m])[0], rows[m][1]);
            bounds_rows_maps(rows).0.dom().contains(key) && bounds_rows_maps(
                rows,
            ).1.dom().contains(key) && bounds_rows_maps(rows).0[key] == rows[m][2]
                as usize && bounds_rows_maps(rows).1[key] == rows[m][3] as usize
        } by {
            let key = ((rows[m])[0], rows[m][1]);
            if m == rows.len() - 1 {
            } else {
                let shorter = rows.drop_last();
                assert(shorter[m] == rows[m]);
                assert forall|m2: int|
                    0 <= m2 < shorter.len() && m2 != m implies ((
                #[trigger] shorter[m2])[0], shorter[m2][1]) != key by {
                    assert(shorter[m2] == rows[m2]);
                }
                assert((rows.last()[0], rows.last()[1]) != key);
            }
        }
    }
}

/// Writes a whole instance as the rows of its three files. Reading the
/// rows back succeeds and denotes an instance that reads the same:
/// that is the round trip the `..._rows_determine` lemmas state.
pub fn instance_to_rows(instance: &Instance) -> (r: (
    Vec<Vec<u64>>,
    Vec<Vec<u64>>,
    Vec<Vec<u64>>,
))
    requires
        instance.wf(),
    ensures
        instance_rows_ok(rows_view(r.0@), rows_view(r.1@), rows_view(r.2@)),
        instance_rows_coherent(rows_view(r.0@), rows_view(r.1@), rows_view(r.2@)),
        weighted_graph_encodes(rows_view(r.0@), instance.spec_graph()),
        digraph_encodes(rows_view(r.1@), instance.spec_dependencies()),
        forall|e: (int, int)| #[trigger]
            instance.spec_graph().edge_set().contains(e) ==> bounds_rows_maps(
                rows_view(r.2@),
            ).0.dom().contains(e) && bounds_rows_maps(rows_view(r.2@)).1.dom().contains(
                e,
            ) && bounds_rows_maps(rows_view(r.2@)).0[e] == instance.spec_dep_lb()[e]
                && bounds_rows_maps(rows_view(r.2@)).1[e] == instance.spec_dep_ub()[e],
{
    proof {
        instance.lemma_wf();
        instance.spec_graph().lemma_capacity_ok();
        instance.spec_dependencies().lemma_capacity_ok();
    }
    let g_rows = weighted_graph_to_rows(instance.graph());
    let d_rows = digraph_to_rows(instance.dependencies());
    let b_rows = bounds_to_rows(instance);
    proof {
        // the written rows cohere: one dependency vertex per edge row,
        // and each edge row's bounds are the instance's own
        instance.lemma_wf();
        let gv = rows_view(g_rows@);
        let dv = rows_view(d_rows@);
        let bv = rows_view(b_rows@);
        lemma_encodes_edge_count(gv, instance.spec_graph());
        assert(dv[0][0] == gv.len() - 1);
        assert forall|k: int| 1 <= k < gv.len() implies {
            let e = Graph::canon((#[trigger] gv[k])[0], gv[k][1]);
            bounds_rows_maps(bv).0.dom().contains(e) && bounds_rows_maps(
                bv,
            ).1.dom().contains(e) && bounds_rows_maps(bv).0[e] <= bounds_rows_maps(
                bv,
            ).1[e]
        } by {
            let e = Graph::canon(gv[k][0], gv[k][1]);
            assert(instance.spec_graph().edge_set().contains(e));
        }
    }
    (g_rows, d_rows, b_rows)
}

/// Reads the rows of a file: one row of numbers per line, succeeding
/// exactly when every token of every line is a number.
pub fn rows_from_lines(lines: &Vec<Vec<u8>>) -> (r: Option<Vec<Vec<u64>>>)
    ensures
        (r is Some) <==> (forall|k: int|
            0 <= k < lines@.len() ==> line_ok((#[trigger] lines@[k])@)),
        r matches Some(rows) ==> rows@.len() == lines@.len() && (forall|k: int|
            0 <= k < rows@.len() ==> rows_view(rows@)[k] == line_numbers(
                (#[trigger] lines@[k])@,
            )),
{
    let mut rows: Vec<Vec<u64>> = Vec::new();
    let mut k: usize = 0;
    while k < lines.len()
        invariant
            k <= lines@.len(),
            rows@.len() == k,
            forall|m: int| 0 <= m < k ==> line_ok((#[trigger] lines@[m])@),
            forall|m: int|
                0 <= m < k ==> rows_view(rows@)[m] == line_numbers(
                    (#[trigger] lines@[m])@,
                ),
        decreases lines@.len() - k,
    {
        match parse_line_numbers(&lines[k]) {
            Some(row) => {
                rows.push(row);
            },
            None => {
                return None;
            },
        }
        k = k + 1;
    }
    Some(rows)
}

/// Writes rows as lines: one line per row, numbers in decimal
/// separated by single spaces. Reading the lines back yields exactly
/// the rows.
pub fn rows_to_lines(rows: &Vec<Vec<u64>>) -> (r: Vec<Vec<u8>>)
    ensures
        r@.len() == rows@.len(),
        forall|k: int| 0 <= k < r@.len() ==> line_ok((#[trigger] r@[k])@),
        forall|k: int|
            0 <= k < r@.len() ==> line_numbers((#[trigger] r@[k])@) == rows_view(
                rows@,
            )[k],
{
    let mut lines: Vec<Vec<u8>> = Vec::new();
    let mut k: usize = 0;
    while k < rows.len()
        invariant
            k <= rows@.len(),
            lines@.len() == k,
            forall|m: int| 0 <= m < k ==> line_ok((#[trigger] lines@[m])@),
            forall|m: int|
                0 <= m < k ==> line_numbers((#[trigger] lines@[m])@) == rows_view(
                    rows@,
                )[m],
        decreases rows@.len() - k,
    {
        let line = render_row(&rows[k]);
        lines.push(line);
        k = k + 1;
    }
    lines
}

/// Reads a whole instance from the text lines of its three files:
/// succeeds only when every line holds numbers and the numbers form a
/// coherent instance, which the result then denotes exactly.
pub fn instance_from_lines(
    g_lines: &Vec<Vec<u8>>,
    d_lines: &Vec<Vec<u8>>,
    b_lines: &Vec<Vec<u8>>,
) -> (r: Option<Instance>)
    ensures
        (r is Some) <==> (lines_ok(g_lines@) && lines_ok(d_lines@) && lines_ok(b_lines@)
            && instance_rows_ok(
            lines_rows(g_lines@),
            lines_rows(d_lines@),
            lines_rows(b_lines@),
        ) && instance_rows_coherent(
            lines_rows(g_lines@),
            lines_rows(d_lines@),
            lines_rows(b_lines@),
        )),
        r matches Some(inst) ==> inst.wf() && weighted_graph_encodes(
            lines_rows(g_lines@),
            inst.spec_graph(),
        ) && digraph_encodes(lines_rows(d_lines@), inst.spec_dependencies()) && (
        inst.spec_dep_lb(),
        inst.spec_dep_ub(),
        ) == bounds_rows_maps(lines_rows(b_lines@)),
{
    let g_rows = match rows_from_lines(g_lines) {
        Some(rows) => rows,
        None => {
            return None;
        },
    };
    let d_rows = match rows_from_lines(d_lines) {
        Some(rows) => rows,
        None => {
            return None;
        },
    };
    let b_rows = match rows_from_lines(b_lines) {
        Some(rows) => rows,
        None => {
            return None;
        },
    };
    proof {
        assert(rows_view(g_rows@) =~= lines_rows(g_lines@));
        assert(rows_view(d_rows@) =~= lines_rows(d_lines@));
        assert(rows_view(b_rows@) =~= lines_rows(b_lines@));
    }
    instance_from_rows(&g_rows, &d_rows, &b_rows)
}

/// Writes a whole instance as the text lines of its three files. The
/// lines parse back: they hold exactly the rows of `instance_to_rows`,
/// so reading them recovers an instance that reads the same.
pub fn instance_to_lines(instance: &Instance) -> (r: (
    Vec<Vec<u8>>,
    Vec<Vec<u8>>,
    Vec<Vec<u8>>,
))
    requires
        instance.wf(),
    ensures
        lines_ok(r.0@) && lines_ok(r.1@) && lines_ok(r.2@),
        instance_rows_ok(lines_rows(r.0@), lines_rows(r.1@), lines_rows(r.2@)),
        instance_rows_coherent(lines_rows(r.0@), lines_rows(r.1@), lines_rows(r.2@)),
        weighted_graph_encodes(lines_rows(r.0@), instance.spec_graph()),
        digraph_encodes(lines_rows(r.1@), instance.spec_dependencies()),
        forall|e: (int, int)| #[trigger]
            instance.spec_graph().edge_set().contains(e) ==> bounds_rows_maps(
                lines_rows(r.2@),
            ).0.dom().contains(e) && bounds_rows_maps(
                lines_rows(r.2@),
            ).1.dom().contains(e) && bounds_rows_maps(lines_rows(r.2@)).0[e]
                == instance.spec_dep_lb()[e] && bounds_rows_maps(lines_rows(r.2@)).1[e]
                == instance.spec_dep_ub()[e],
{
    let (g_rows, d_rows, b_rows) = instance_to_rows(instance);
    let g_lines = rows_to_lines(&g_rows);
    let d_lines = rows_to_lines(&d_rows);
    let b_lines = rows_to_lines(&b_rows);
    proof {
        assert(lines_rows(g_lines@) =~= rows_view(g_rows@));
        assert(lines_rows(d_lines@) =~= rows_view(d_rows@));
        assert(lines_rows(b_lines@) =~= rows_view(b_rows@));
    }
    (g_lines, d_lines, b_lines)
}

} // verus!
