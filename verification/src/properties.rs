use vstd::prelude::*;

use crate::connectivity::connected;
use crate::connectivity::lemma_connected_edge;
use crate::connectivity::lemma_connected_empty;
use crate::connectivity::lemma_connected_insert;
use crate::connectivity::lemma_connected_refl;
use crate::connectivity::lemma_connected_subset;
use crate::connectivity::lemma_connected_sym;
use crate::connectivity::lemma_connected_trans;
use crate::disjoint_set::DisjointSet;
use crate::traits::pair_view;
use crate::traits::pairs_view;
use crate::traits::prefix_edge_set;
use crate::traits::GraphImpl;

verus! {

/// Every pair of the `n` vertices is joined by a path of `es`.
pub open spec fn spans(es: Set<(int, int)>, n: int) -> bool {
    forall|x: int, y: int| 0 <= x < n && 0 <= y < n ==> connected(es, x, y)
}

/// The number of connected components of `es` over the vertices
/// `0` to `n - 1`: each component is counted at its least vertex.
pub open spec fn spec_num_components(es: Set<(int, int)>, n: int) -> int {
    Set::new(
        |x: int|
            0 <= x < n && (forall|y: int| 0 <= y < x ==> !connected(es, x, y)),
    ).len() as int
}

/// Among the vertices up to `k` connected to `r`, there is a least one.
pub proof fn lemma_least_upto(es: Set<(int, int)>, r: int, k: int)
    requires
        0 <= k,
        exists|x: int| 0 <= x <= k && connected(es, x, r),
    ensures
        exists|x: int|
            0 <= x <= k && connected(es, x, r) && (forall|y: int|
                0 <= y < x ==> !connected(es, y, r)),
    decreases k,
{
    if k == 0 {
    } else if exists|x: int| 0 <= x <= k - 1 && connected(es, x, r) {
        lemma_least_upto(es, r, k - 1);
        let x = choose|x: int|
            0 <= x <= k - 1 && connected(es, x, r) && (forall|y: int|
                0 <= y < x ==> !connected(es, y, r));
        assert(0 <= x <= k && connected(es, x, r) && (forall|y: int|
            0 <= y < x ==> !connected(es, y, r)));
    } else {
        assert(connected(es, k, r) && (forall|y: int|
            0 <= y < k ==> !connected(es, y, r)));
    }
}

/// A partition that agrees with connectivity has exactly one class per
/// connected component.
pub proof fn lemma_num_sets_is_components(ds: DisjointSet, es: Set<(int, int)>)
    requires
        ds.wf(),
        partition_matches(ds, es),
    ensures
        ds.spec_num_sets() == spec_num_components(es, ds.spec_len()),
{
    ds.lemma_roots_finite();
    let n = ds.spec_len();
    assert(n >= 0);
    let minima = Set::new(
        |x: int|
            0 <= x < n && (forall|y: int| 0 <= y < x ==> !connected(es, x, y)),
    );
    let f = |x: int| ds.spec_rep(x);
    // the map from a component's least vertex to its class is injective
    assert(vstd::relations::injective_on(f, minima)) by {
        assert forall|x1: int, x2: int|
            #![trigger f(x1), f(x2)]
            minima.contains(x1) && minima.contains(x2) && f(x1) == f(x2) implies x1
            == x2 by {
            if x1 != x2 {
                assert(ds.same_set(x1, x2));
                assert(connected(es, x1, x2));
                if x1 < x2 {
                    lemma_connected_sym(es, x1, x2);
                } else {
                    lemma_connected_sym(es, x2, x1);
                }
            }
        }
    }
    // it lands exactly on the class representatives
    let image = minima.map(f);
    assert forall|j: int| #[trigger] image.contains(j) implies ds.roots().contains(
        j,
    ) by {
        let x = choose|x: int| minima.contains(x) && f(x) == j;
        ds.lemma_rep_props(x);
    }
    assert forall|j: int| #[trigger] ds.roots().contains(j) implies image.contains(
        j,
    ) by {
        lemma_connected_refl(es, j);
        lemma_least_upto(es, j, j);
        let x = choose|x: int|
            0 <= x <= j && connected(es, x, j) && (forall|y: int|
                0 <= y < x ==> !connected(es, y, j));
        assert(minima.contains(x)) by {
            assert forall|y: int| 0 <= y < x implies !connected(es, x, y) by {
                if connected(es, x, y) {
                    lemma_connected_sym(es, x, y);
                    lemma_connected_trans(es, y, x, j);
                }
            }
        }
        assert(ds.same_set(x, j));
        assert(f(x) == j);
    }
    assert(image =~= ds.roots());
    // the minima are finitely many, so the two counts coincide
    vstd::set_lib::lemma_int_range(0, n);
    vstd::set_lib::lemma_len_subset(minima, vstd::set_lib::set_int_range(0, n));
    vstd::set_lib::lemma_map_size(minima, image, f);
}

/// The partition agrees with path connectivity over `es`: two elements
/// lie in the same disjoint set exactly when they are connected.
pub open spec fn partition_matches(ds: DisjointSet, es: Set<(int, int)>) -> bool {
    forall|x: int, y: int|
        0 <= x < ds.spec_len() && 0 <= y < ds.spec_len() ==> (ds.same_set(x, y)
            <==> connected(es, x, y))
}

/// A fresh partition of singletons agrees with the empty edge set.
pub proof fn lemma_bridge_init(ds: DisjointSet)
    requires
        ds.wf(),
        ds.all_singletons(),
    ensures
        partition_matches(ds, Set::<(int, int)>::empty()),
{
    assert forall|x: int, y: int|
        0 <= x < ds.spec_len() && 0 <= y < ds.spec_len() implies (ds.same_set(x, y)
        <==> connected(Set::<(int, int)>::empty(), x, y)) by {
        if ds.same_set(x, y) {
            assert(ds.spec_rep(x) == x);
            assert(ds.spec_rep(y) == y);
            lemma_connected_refl(Set::<(int, int)>::empty(), x);
        }
        if connected(Set::<(int, int)>::empty(), x, y) {
            lemma_connected_empty(x, y);
        }
    }
}

/// Joining the classes of `u` and `v` keeps the partition in agreement
/// with connectivity once the edge `(u, v)` is added.
pub proof fn lemma_bridge_step(
    pre: DisjointSet,
    post: DisjointSet,
    es: Set<(int, int)>,
    u: int,
    v: int,
)
    requires
        pre.wf(),
        post.wf(),
        post.spec_len() == pre.spec_len(),
        0 <= u < pre.spec_len(),
        0 <= v < pre.spec_len(),
        partition_matches(pre, es),
        ({
            let ra = pre.spec_rep(u);
            let rb = pre.spec_rep(v);
            let c = post.spec_rep(u);
            (c == ra || c == rb) && DisjointSet::classes_merged(pre, post, ra, rb, c)
        }),
    ensures
        partition_matches(post, es.insert((u, v))),
{
    let n = pre.spec_len();
    let ra = pre.spec_rep(u);
    let rb = pre.spec_rep(v);
    let c = post.spec_rep(u);
    let es2 = es.insert((u, v));
    assert forall|x: int, y: int| 0 <= x < n && 0 <= y < n implies (post.same_set(x, y)
        <==> connected(es2, x, y)) by {
        pre.lemma_rep_props(x);
        pre.lemma_rep_props(y);
        lemma_connected_edge(es2, u, v);
        if post.same_set(x, y) {
            if pre.same_set(x, y) {
                lemma_connected_subset(es, es2, x, y);
            } else {
                // both classes were folded into the merged class
                assert(pre.spec_rep(x) == ra || pre.spec_rep(x) == rb);
                assert(pre.spec_rep(y) == ra || pre.spec_rep(y) == rb);
                if pre.spec_rep(x) == ra {
                    assert(pre.same_set(x, u));
                    lemma_connected_subset(es, es2, x, u);
                } else {
                    assert(pre.same_set(x, v));
                    lemma_connected_subset(es, es2, x, v);
                    lemma_connected_sym(es2, u, v);
                    lemma_connected_trans(es2, x, v, u);
                }
                // now connected(es2, x, u)
                if pre.spec_rep(y) == ra {
                    assert(pre.same_set(y, u));
                    lemma_connected_subset(es, es2, y, u);
                    lemma_connected_sym(es2, y, u);
                    lemma_connected_trans(es2, x, u, y);
                } else {
                    assert(pre.same_set(y, v));
                    lemma_connected_subset(es, es2, y, v);
                    lemma_connected_sym(es2, y, v);
                    lemma_connected_trans(es2, u, v, y);
                    lemma_connected_trans(es2, x, u, y);
                }
            }
        }
        if connected(es2, x, y) {
            lemma_connected_insert(es, u, v, x, y);
            if connected(es, x, y) {
                assert(pre.same_set(x, y));
            } else if connected(es, x, u) && connected(es, v, y) {
                assert(pre.same_set(x, u));
                assert(pre.same_set(v, y));
            } else {
                assert(pre.same_set(x, v));
                assert(pre.same_set(u, y));
            }
            assert(post.same_set(x, y));
        }
    }
}

// runs the given edges through a disjoint set, counting how many joins
// found their endpoints already connected; used by the property checks
fn sweep_components<'a, T: GraphImpl>(graph: &'a T) -> (r: (DisjointSet, usize))
    requires
        graph.wf(),
    ensures
        r.0.wf(),
        r.0.spec_len() == graph.spec_verts(),
        partition_matches(r.0, graph.edge_set()),
        r.0.spec_num_sets() == graph.spec_verts() - graph.edge_set().len() + r.1,
        r.1 <= graph.edge_set().len(),
        (r.1 > 0 ==> exists|e: (int, int)|
            #[trigger] graph.edge_set().contains(e) && connected(
                graph.edge_set().remove(e),
                e.0,
                e.1,
            )),
{
    let n = graph.num_verts();
    let ghost es = graph.edge_set();
    proof {
        graph.lemma_edge_set_props();
    }
    let mut components = DisjointSet::new(n);
    let ev = graph.edges();
    proof {
        lemma_bridge_init(components);
        assert(ev@.subrange(0, 0) =~= Seq::empty());
        assert(prefix_edge_set(ev@, 0) =~= Set::empty());
        assert forall|j: int| #[trigger]
            components.roots().contains(j) implies vstd::set_lib::set_int_range(
            0,
            n as int,
        ).contains(j) by {}
        assert forall|j: int|
            vstd::set_lib::set_int_range(0, n as int).contains(j)
            implies #[trigger] components.roots().contains(j) by {
            assert(components.spec_rep(j) == j);
        }
        assert(components.roots() =~= vstd::set_lib::set_int_range(0, n as int));
        vstd::set_lib::lemma_int_range(0, n as int);
    }
    let mut redundant: usize = 0;
    let mut k: usize = 0;
    while k < ev.len()
        invariant
            graph.wf(),
            es == graph.edge_set(),
            n == graph.spec_verts(),
            k <= ev@.len(),
            ev@.len() == es.len(),
            forall|m: int| 0 <= m < ev@.len() ==> es.contains(pair_view(#[trigger] ev@[m])),
            forall|m1: int, m2: int|
                0 <= m1 < m2 < ev@.len() ==> pair_view(#[trigger] ev@[m1]) != pair_view(
                    #[trigger] ev@[m2],
                ),
            forall|e: (int, int)| #[trigger]
                es.contains(e) ==> exists|m: int|
                    0 <= m < ev@.len() && pair_view(ev@[m]) == e,
            components.wf(),
            components.spec_len() == n,
            partition_matches(components, prefix_edge_set(ev@, k as int)),
            components.spec_num_sets() == n - k + redundant,
            redundant <= k,
            redundant > 0 ==> exists|e: (int, int)|
                #[trigger] es.contains(e) && connected(es.remove(e), e.0, e.1),
        decreases ev@.len() - k,
    {
        let (u, v) = ev[k];
        let ghost head = components;
        proof {
            graph.lemma_edge_set_props();
            assert(es.contains(pair_view(ev@[k as int])));
            assert(pair_view(ev@[k as int]) == (u as int, v as int));
            assert(u < n && v < n);
        }
        let ghost pre_edges = prefix_edge_set(ev@, k as int);
        let ru = components.representative(u).unwrap();
        let ghost mid = components;
        let rv = components.representative(v).unwrap();
        let ghost pre = components;
        proof {
            head.lemma_rep_props(u as int);
            head.lemma_rep_props(v as int);
            assert(ru == head.spec_rep(u as int));
            assert(mid.spec_rep(v as int) == head.spec_rep(v as int));
            assert(rv == head.spec_rep(v as int));
            assert forall|j: int| #[trigger] pre.roots().contains(j)
                implies head.roots().contains(j) by {
                assert(pre.spec_rep(j) == head.spec_rep(j));
            }
            assert forall|j: int| #[trigger] head.roots().contains(j)
                implies pre.roots().contains(j) by {
                assert(pre.spec_rep(j) == head.spec_rep(j));
            }
            assert(pre.roots() =~= head.roots());
            assert(partition_matches(pre, pre_edges)) by {
                assert forall|x: int, y: int|
                    0 <= x < pre.spec_len() && 0 <= y < pre.spec_len() implies (
                pre.same_set(x, y) <==> connected(pre_edges, x, y)) by {
                    assert(pre.spec_rep(x) == head.spec_rep(x));
                    assert(pre.spec_rep(y) == head.spec_rep(y));
                }
            }
        }
        let res = components.join(u, v);
        proof {
            assert(res is Ok);
            lemma_bridge_step(pre, *&components, pre_edges, u as int, v as int);
            assert(ev@.subrange(0, k as int + 1) =~= ev@.subrange(0, k as int).push(
                ev@[k as int],
            ));
            assert(pairs_view(ev@.subrange(0, k as int + 1)) =~= pairs_view(
                ev@.subrange(0, k as int),
            ).push(pair_view(ev@[k as int])));
            pairs_view(ev@.subrange(0, k as int)).lemma_push_to_set_commute(
                pair_view(ev@[k as int]),
            );
            assert(prefix_edge_set(ev@, k as int + 1) =~= pre_edges.insert((
                u as int,
                v as int,
            )));
            assert(partition_matches(components, prefix_edge_set(ev@, k as int + 1)));
        }
        if ru == rv {
            redundant = redundant + 1;
            proof {
                // this edge's endpoints were already joined by the
                // earlier edges, which all lie in es minus this edge
                let e = (u as int, v as int);
                assert(pre.spec_rep(u as int) == head.spec_rep(u as int));
                assert(pre.spec_rep(v as int) == head.spec_rep(v as int));
                assert(pre.same_set(u as int, v as int));
                assert(connected(pre_edges, u as int, v as int));
                assert forall|q: (int, int)| #[trigger] pre_edges.contains(q)
                    implies es.remove(e).contains(q) by {
                    let m = choose|m: int|
                        0 <= m < k && pairs_view(ev@.subrange(0, k as int))[m] == q;
                    assert(pair_view(ev@[m]) == q);
                    assert(es.contains(q));
                    assert(pair_view(ev@[m]) != pair_view(ev@[k as int]));
                }
                lemma_connected_subset(pre_edges, es.remove(e), u as int, v as int);
                // the counting stays put: the merged classes coincide
                let ra = pre.spec_rep(u as int);
                let rb = pre.spec_rep(v as int);
                assert(ra == rb);
                assert forall|j: int| #[trigger] components.roots().contains(j)
                    implies pre.roots().contains(j) by {
                    assert(components.spec_rep(j) == (if pre.spec_rep(j) == ra
                        || pre.spec_rep(j) == rb {
                        components.spec_rep(u as int)
                    } else {
                        pre.spec_rep(j)
                    }));
                }
                assert forall|j: int| #[trigger] pre.roots().contains(j)
                    implies components.roots().contains(j) by {
                    assert(components.spec_rep(j) == (if pre.spec_rep(j) == ra
                        || pre.spec_rep(j) == rb {
                        components.spec_rep(u as int)
                    } else {
                        pre.spec_rep(j)
                    }));
                }
                assert(components.roots() =~= pre.roots());
            }
        } else {
            proof {
                let ra = pre.spec_rep(u as int);
                let rb = pre.spec_rep(v as int);
                pre.lemma_rep_props(u as int);
                pre.lemma_rep_props(v as int);
                DisjointSet::lemma_merge_num_sets(
                    pre,
                    *&components,
                    ra,
                    rb,
                    components.spec_rep(u as int),
                );
            }
        }
        k = k + 1;
    }
    proof {
        assert(ev@.subrange(0, ev@.len() as int) =~= ev@);
        assert forall|e: (int, int)| #[trigger] es.contains(e)
            implies prefix_edge_set(ev@, ev@.len() as int).contains(e) by {
            let m = choose|m: int| 0 <= m < ev@.len() && pair_view(ev@[m]) == e;
            assert(pairs_view(ev@)[m] == e);
        }
        assert forall|e: (int, int)| #[trigger]
            prefix_edge_set(ev@, ev@.len() as int).contains(e) implies es.contains(e)
            by {
            let m = choose|m: int|
                0 <= m < pairs_view(ev@).len() && pairs_view(ev@)[m] == e;
            assert(pair_view(ev@[m]) == e);
        }
        assert(prefix_edge_set(ev@, ev@.len() as int) =~= es);
    }
    (components, redundant)
}

/// Determines whether the graph is acyclic, ignoring edge directions.
/// A cycle is an edge whose endpoints the remaining edges already
/// connect.
pub fn is_acyclic<'a, T: GraphImpl>(graph: &'a T) -> (r: bool)
    requires
        graph.wf(),
    ensures
        r <==> spec_num_components(graph.edge_set(), graph.spec_verts())
            == graph.spec_verts() - graph.edge_set().len(),
        !r ==> exists|e: (int, int)|
            #[trigger] graph.edge_set().contains(e) && connected(
                graph.edge_set().remove(e),
                e.0,
                e.1,
            ),
        r && graph.spec_verts() >= 1 ==> graph.edge_set().len() <= graph.spec_verts()
            - 1,
        r && graph.spec_verts() >= 1 ==> (spans(graph.edge_set(), graph.spec_verts())
            <==> graph.edge_set().len() == graph.spec_verts() - 1),
{
    let (components, redundant) = sweep_components(graph);
    let r = redundant == 0;
    proof {
        lemma_num_sets_is_components(components, graph.edge_set());
        let n = graph.spec_verts();
        let m = graph.edge_set().len() as int;
        if r && n >= 1 {
            components.lemma_rep_props(0);
            components.lemma_roots_finite();
            if components.spec_num_sets() == 0 {
                components.roots().lemma_len0_is_empty();
            }
            // one disjoint set exactly when the edge count reaches n - 1
            if spans(graph.edge_set(), n) {
                components.lemma_one_class();
            }
            if m == n - 1 {
                components.lemma_one_class_converse();
            }
        }
    }
    r
}

/// Returns the number of connected components, ignoring edge
/// directions.
pub fn number_components<'a, T: GraphImpl>(graph: &'a T) -> (r: usize)
    requires
        graph.wf(),
    ensures
        r == spec_num_components(graph.edge_set(), graph.spec_verts()),
        graph.spec_verts() == 0 ==> r == 0,
        graph.spec_verts() >= 1 ==> 1 <= r <= graph.spec_verts(),
        r >= graph.spec_verts() - graph.edge_set().len(),
        graph.edge_set().len() == 0 ==> r == graph.spec_verts(),
        r == 1 <==> (graph.spec_verts() >= 1 && spans(
            graph.edge_set(),
            graph.spec_verts(),
        )),
{
    let (mut components, _) = sweep_components(graph);
    let r = components.num_sets();
    proof {
        lemma_num_sets_is_components(components, graph.edge_set());
        let n = graph.spec_verts();
        components.lemma_roots_finite();
        if n == 0 {
            if components.spec_num_sets() != 0 {
                let j = components.roots().choose();
                assert(components.roots().contains(j));
            }
        } else {
            components.lemma_rep_props(0);
            if components.spec_num_sets() == 0 {
                components.roots().lemma_len0_is_empty();
            }
            if spans(graph.edge_set(), n) {
                components.lemma_one_class();
            }
            if r == 1 {
                components.lemma_one_class_converse();
            }
        }
    }
    r
}

/// Determines whether the graph is connected, ignoring edge directions.
pub fn is_connected<'a, T: GraphImpl>(graph: &'a T) -> (r: bool)
    requires
        graph.wf(),
    ensures
        r <==> (graph.spec_verts() >= 1 && spans(graph.edge_set(), graph.spec_verts())),
{
    number_components(graph) == 1
}

/// Determines whether the graph is a spanning tree of its vertex set:
/// its edges connect every pair of vertices and number one less than
/// the vertices.
pub fn is_spanning_tree<'a, T: GraphImpl>(graph: &'a T) -> (r: bool)
    requires
        graph.wf(),
    ensures
        r <==> (graph.spec_verts() >= 1 && spans(graph.edge_set(), graph.spec_verts())
            && graph.edge_set().len() == graph.spec_verts() - 1),
{
    let (mut components, redundant) = sweep_components(graph);
    let num_sets = components.num_sets();
    let r = redundant == 0 && num_sets == 1;
    proof {
        let n = graph.spec_verts();
        let m = graph.edge_set().len() as int;
        components.lemma_roots_finite();
        if r {
            components.lemma_one_class_converse();
            if components.spec_len() == 0 {
                assert(components.spec_num_sets() == 0) by {
                    if components.spec_num_sets() != 0 {
                        let j = components.roots().choose();
                        assert(components.roots().contains(j));
                    }
                }
            }
        }
        if n >= 1 && spans(graph.edge_set(), n) && m == n - 1 {
            components.lemma_one_class();
        }
    }
    r
}

/// Returns the number of in-neighbours of vertex `v`: the vertices `u`
/// with an edge from `u` to `v`. In an undirected graph this equals
/// `num_out_neighbors`.
pub fn num_in_neighbors<'a, T: GraphImpl>(graph: &'a T, v: usize) -> (r: usize)
    requires
        graph.wf(),
        v < graph.spec_verts(),
    ensures
        r == Set::new(
            |u: int|
                0 <= u < graph.spec_verts() && graph.edge_set().contains(
                    T::canon(u, v as int),
                ),
        ).len(),
{
    let n = graph.num_verts();
    let mut num: usize = 0;
    let mut u: usize = 0;
    let ghost target = Set::new(
        |x: int|
            0 <= x < graph.spec_verts() && graph.edge_set().contains(
                T::canon(x, v as int),
            ),
    );
    proof {
        assert(Set::new(
            |x: int|
                0 <= x < 0 && graph.edge_set().contains(T::canon(x, v as int)),
        ) =~= Set::empty());
    }
    while u < n
        invariant
            graph.wf(),
            v < graph.spec_verts(),
            n == graph.spec_verts(),
            u <= n,
            num <= u,
            num == Set::new(
                |x: int|
                    0 <= x < u && graph.edge_set().contains(T::canon(x, v as int)),
            ).len(),
            Set::new(
                |x: int|
                    0 <= x < u && graph.edge_set().contains(T::canon(x, v as int)),
            ).finite(),
        decreases n - u,
    {
        let ghost seen = Set::new(
            |x: int|
                0 <= x < u && graph.edge_set().contains(T::canon(x, v as int)),
        );
        if graph.has_edge(u, v) {
            num = num + 1;
            proof {
                assert(Set::new(
                    |x: int|
                        0 <= x < u + 1 && graph.edge_set().contains(
                            T::canon(x, v as int),
                        ),
                ) =~= seen.insert(u as int));
                assert(!seen.contains(u as int));
            }
        } else {
            proof {
                assert(Set::new(
                    |x: int|
                        0 <= x < u + 1 && graph.edge_set().contains(
                            T::canon(x, v as int),
                        ),
                ) =~= seen);
            }
        }
        u = u + 1;
    }
    proof {
        assert(Set::new(
            |x: int|
                0 <= x < n && graph.edge_set().contains(T::canon(x, v as int)),
        ) =~= target);
    }
    num
}

/// Returns the number of out-neighbours of vertex `u`: the vertices `v`
/// with an edge from `u` to `v`. In an undirected graph this equals
/// `num_in_neighbors`.
pub fn num_out_neighbors<'a, T: GraphImpl>(graph: &'a T, u: usize) -> (r: usize)
    requires
        graph.wf(),
        u < graph.spec_verts(),
    ensures
        r == Set::new(
            |x: int|
                0 <= x < graph.spec_verts() && graph.edge_set().contains(
                    T::canon(u as int, x),
                ),
        ).len(),
{
    let n = graph.num_verts();
    let mut num: usize = 0;
    let mut v: usize = 0;
    proof {
        assert(Set::new(
            |x: int|
                0 <= x < 0 && graph.edge_set().contains(T::canon(u as int, x)),
        ) =~= Set::empty());
    }
    while v < n
        invariant
            graph.wf(),
            u < graph.spec_verts(),
            n == graph.spec_verts(),
            v <= n,
            num <= v,
            num == Set::new(
                |x: int|
                    0 <= x < v && graph.edge_set().contains(T::canon(u as int, x)),
            ).len(),
            Set::new(
                |x: int|
                    0 <= x < v && graph.edge_set().contains(T::canon(u as int, x)),
            ).finite(),
        decreases n - v,
    {
        let ghost seen = Set::new(
            |x: int|
                0 <= x < v && graph.edge_set().contains(T::canon(u as int, x)),
        );
        if graph.has_edge(u, v) {
            num = num + 1;
            proof {
                assert(Set::new(
                    |x: int|
                        0 <= x < v + 1 && graph.edge_set().contains(
                            T::canon(u as int, x),
                        ),
                ) =~= seen.insert(v as int));
                assert(!seen.contains(v as int));
            }
        } else {
            proof {
                assert(Set::new(
                    |x: int|
                        0 <= x < v + 1 && graph.edge_set().contains(
                            T::canon(u as int, x),
                        ),
                ) =~= seen);
            }
        }
        v = v + 1;
    }
    num
}

} // verus!
