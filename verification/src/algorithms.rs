use vstd::prelude::*;

use vstd::multiset::Multiset;

use crate::connectivity::connected;
use crate::connectivity::lemma_connected_bypass;
use crate::connectivity::lemma_connected_edge;
use crate::connectivity::lemma_connected_equiv_insert;
use crate::connectivity::lemma_connected_subset;
use crate::disjoint_set::DisjointSet;
use crate::edge_set::EdgeSet;
use crate::minimality::endpoints_ok;
use crate::minimality::greedy_forest;
use crate::minimality::lemma_greedy_concat;
use crate::minimality::lemma_greedy_minimal;
use crate::minimality::lemma_greedy_subset;
use crate::minimality::set_weight;
use crate::properties::lemma_bridge_init;
use crate::properties::lemma_bridge_step;
use crate::properties::partition_matches;
use crate::properties::spans;
use crate::traits::pair_view;
use crate::traits::pairs_view;
use crate::traits::prefix_edge_set;
use crate::traits::GraphImpl;
use crate::weighted_graph::WeightedGraph;

verus! {

/// The candidate edges of a constrained relaxation: the forced edges
/// together with the graph's edges that are not forbidden.
pub open spec fn kruskal_candidates(
    graph_edges: Set<(int, int)>,
    initial: Set<(int, int)>,
    forbidden: Set<(int, int)>,
) -> Set<(int, int)> {
    initial.union(graph_edges.difference(forbidden))
}

// sorts a list of edges of the graph by weight, ascending; the entries
// are preserved exactly, as a multiset
fn sort_edges_by_weight(graph: &WeightedGraph, edges: Vec<(usize, usize)>) -> (r: Vec<
    (usize, usize),
>)
    requires
        graph.wf(),
        forall|k: int|
            0 <= k < edges@.len() ==> graph.edge_set().contains(pair_view(
                #[trigger] edges@[k],
            )),
    ensures
        r@.to_multiset() == edges@.to_multiset(),
        r@.len() == edges@.len(),
        forall|k: int| 0 <= k < r@.len() ==> edges@.contains(#[trigger] r@[k]),
        forall|k: int| 0 <= k < edges@.len() ==> r@.contains(#[trigger] edges@[k]),
        forall|i: int, j: int|
            0 <= i < j < r@.len() ==> graph.spec_weights()[pair_view(r@[i])]
                <= graph.spec_weights()[pair_view(r@[j])],
{
    broadcast use vstd::seq_lib::group_to_multiset_ensures;

    proof {
        graph.lemma_edge_set_props();
    }
    let mut work = edges;
    let ghost input = work@;
    let mut out: Vec<(usize, usize)> = Vec::new();
    while work.len() > 0
        invariant
            graph.wf(),
            out@.to_multiset().add(work@.to_multiset()) =~= input.to_multiset(),
            out@.len() + work@.len() == input.len(),
            forall|k: int|
                0 <= k < work@.len() ==> graph.edge_set().contains(pair_view(
                    #[trigger] work@[k],
                )),
            forall|k: int|
                0 <= k < out@.len() ==> graph.edge_set().contains(pair_view(
                    #[trigger] out@[k],
                )),
            forall|i: int, j: int|
                0 <= i < j < out@.len() ==> graph.spec_weights()[pair_view(out@[i])]
                    <= graph.spec_weights()[pair_view(out@[j])],
            forall|i: int, j: int|
                #![trigger out@[i], work@[j]]
                0 <= i < out@.len() && 0 <= j < work@.len() ==> graph.spec_weights()[
                    pair_view(out@[i])] <= graph.spec_weights()[pair_view(work@[j])],
        decreases work@.len(),
    {
        proof {
            graph.lemma_edge_set_props();
        }
        // find the remaining edge of least weight
        let mut best: usize = 0;
        let first = work[0];
        let mut best_w = match graph.get_edge_weight(first.0, first.1) {
            Some(w) => w,
            None => 0,
        };
        proof {
            assert(graph.edge_set().contains(pair_view(work@[0])));
            assert(best_w == graph.spec_weights()[pair_view(work@[0])]);
        }
        let mut k: usize = 1;
        while k < work.len()
            invariant
                graph.wf(),
                work@.len() > 0,
                best < work@.len(),
                k <= work@.len(),
                forall|m: int|
                    0 <= m < work@.len() ==> graph.edge_set().contains(pair_view(
                        #[trigger] work@[m],
                    )),
                best_w == graph.spec_weights()[pair_view(work@[best as int])],
                forall|m: int|
                    0 <= m < k ==> best_w <= graph.spec_weights()[pair_view(
                        #[trigger] work@[m],
                    )],
            decreases work@.len() - k,
        {
            proof {
                graph.lemma_edge_set_props();
                assert(graph.edge_set().contains(pair_view(work@[k as int])));
            }
            let cand = work[k];
            let w = match graph.get_edge_weight(cand.0, cand.1) {
                Some(w) => w,
                None => 0,
            };
            if w < best_w {
                best = k;
                best_w = w;
            }
            k = k + 1;
        }
        let ghost wpre = work@;
        let ghost opre = out@;
        let e = work.remove(best);
        out.push(e);
        proof {
            wpre.to_multiset_ensures();
            opre.to_multiset_ensures();
            assert(wpre.remove(best as int).to_multiset() =~= wpre.to_multiset().remove(
                wpre[best as int],
            ));
            assert(opre.push(e).to_multiset() =~= opre.to_multiset().insert(e));
            assert(wpre.contains(wpre[best as int]));
            assert(wpre.to_multiset().count(wpre[best as int]) > 0);
            assert(out@.to_multiset().add(work@.to_multiset()) =~= input.to_multiset());
            // the extracted edge is no heavier than anything left
            assert forall|j: int| 0 <= j < work@.len() implies graph.edge_set().contains(
                pair_view(#[trigger] work@[j]),
            ) && best_w <= graph.spec_weights()[pair_view(work@[j])] by {
                if j < best {
                    assert(work@[j] == wpre[j]);
                } else {
                    assert(work@[j] == wpre[j + 1]);
                }
            }
            assert(out@[out@.len() - 1] == e);
            assert(graph.spec_weights()[pair_view(e)] == best_w);
        }
    }
    proof {
        assert(work@.to_multiset() =~= Multiset::empty());
        assert(out@.to_multiset() =~= input.to_multiset());
        assert forall|k: int| 0 <= k < out@.len() implies input.contains(
            #[trigger] out@[k],
        ) by {
            assert(out@.contains(out@[k]));
            assert(out@.to_multiset().count(out@[k]) > 0);
        }
        assert forall|k: int| 0 <= k < input.len() implies out@.contains(
            #[trigger] input[k],
        ) by {
            assert(input.contains(input[k]));
            assert(input.to_multiset().count(input[k]) > 0);
        }
    }
    out
}

// considers one candidate edge: adds it to the growing forest exactly
// when its endpoints are not yet connected
fn kruskal_step(
    components: &mut DisjointSet,
    result: &mut EdgeSet,
    u: usize,
    v: usize,
    Ghost(processed): Ghost<Set<(int, int)>>,
) -> (added: bool)
    requires
        old(components).wf(),
        old(result).wf(),
        old(components).spec_len() <= usize::MAX,
        u < old(components).spec_len(),
        v < old(components).spec_len(),
        partition_matches(*old(components), old(result).view_set()),
        forall|x: int, y: int|
            0 <= x < old(components).spec_len() && 0 <= y < old(components).spec_len()
                ==> (connected(old(result).view_set(), x, y) <==> connected(
                processed,
                x,
                y,
            )),
        old(result).view_set().subset_of(processed),
        old(components).spec_num_sets() == old(components).spec_len() - old(result).view_set().len(),
        old(result).view_set().finite(),
    ensures
        final(components).wf(),
        final(components).spec_len() == old(components).spec_len(),
        final(result).wf(),
        added <==> !connected(processed, u as int, v as int),
        final(result).view_set() == (if added {
            old(result).view_set().insert((u as int, v as int))
        } else {
            old(result).view_set()
        }),
        partition_matches(*final(components), final(result).view_set()),
        forall|x: int, y: int|
            0 <= x < old(components).spec_len() && 0 <= y < old(components).spec_len()
                ==> (connected(final(result).view_set(), x, y) <==> connected(
                processed.insert((u as int, v as int)),
                x,
                y,
            )),
        final(result).view_set().subset_of(processed.insert((u as int, v as int))),
        final(components).spec_num_sets() == final(components).spec_len() - final(result).view_set().len(),
        final(result).view_set().finite(),
{
    let ghost n = components.spec_len();
    let ghost head = *components;
    let ru = components.representative(u).unwrap();
    let ghost mid = *components;
    let rv = components.representative(v).unwrap();
    let ghost pre = *components;
    proof {
        head.lemma_rep_props(u as int);
        head.lemma_rep_props(v as int);
        assert(ru == head.spec_rep(u as int));
        assert(mid.spec_rep(v as int) == head.spec_rep(v as int));
        assert(rv == head.spec_rep(v as int));
        assert(pre.spec_rep(u as int) == head.spec_rep(u as int));
        assert(pre.spec_rep(v as int) == head.spec_rep(v as int));
        assert forall|j: int| #[trigger] pre.roots().contains(j)
            implies head.roots().contains(j) by {
            assert(pre.spec_rep(j) == head.spec_rep(j));
        }
        assert forall|j: int| #[trigger] head.roots().contains(j)
            implies pre.roots().contains(j) by {
            assert(pre.spec_rep(j) == head.spec_rep(j));
        }
        assert(pre.roots() =~= head.roots());
        assert(partition_matches(pre, result.view_set())) by {
            assert forall|x: int, y: int| 0 <= x < n && 0 <= y < n implies (pre.same_set(
                x,
                y,
            ) <==> connected(result.view_set(), x, y)) by {
                assert(pre.spec_rep(x) == head.spec_rep(x));
                assert(pre.spec_rep(y) == head.spec_rep(y));
            }
        }
    }
    if ru != rv {
        result.insert(u, v);
        let res = components.join(u, v);
        proof {
            assert(res is Ok);
            lemma_bridge_step(pre, *components, old(result).view_set(), u as int, v as int);
            // the endpoints were not yet connected
            assert(!pre.same_set(u as int, v as int));
            assert(!connected(processed, u as int, v as int));
            // counting: two classes became one
            let ra = pre.spec_rep(u as int);
            let rb = pre.spec_rep(v as int);
            pre.lemma_rep_props(u as int);
            pre.lemma_rep_props(v as int);
            DisjointSet::lemma_merge_num_sets(
                pre,
                *components,
                ra,
                rb,
                components.spec_rep(u as int),
            );
            assert(!old(result).view_set().contains((u as int, v as int))) by {
                if old(result).view_set().contains((u as int, v as int)) {
                    lemma_connected_edge(old(result).view_set(), u as int, v as int);
                }
            }
            lemma_connected_equiv_insert(
                old(result).view_set(),
                processed,
                u as int,
                v as int,
                n,
            );
        }
        true
    } else {
        proof {
            assert(pre.same_set(u as int, v as int));
            assert(connected(result.view_set(), u as int, v as int));
            assert(connected(processed, u as int, v as int));
            let pe = processed.insert((u as int, v as int));
            assert forall|x: int, y: int| 0 <= x < n && 0 <= y < n implies (connected(
                result.view_set(),
                x,
                y,
            ) <==> connected(pe, x, y)) by {
                if connected(pe, x, y) {
                    lemma_connected_bypass(processed, u as int, v as int, x, y);
                }
                if connected(result.view_set(), x, y) {
                    lemma_connected_subset(processed, pe, x, y);
                }
            }
        }
        false
    }
}

/// Kruskal's algorithm with forced and forbidden edges: the forced
/// edges are considered first, by weight; then every other edge of the
/// graph that is not forbidden, by weight. An edge enters the result
/// exactly when the edges taken before it do not already connect its
/// endpoints. The result is a spanning forest of the candidate edges:
/// it connects exactly what the candidates connect, it contains every
/// forced edge that the other forced edges do not bypass, and it spans
/// all vertices exactly when it has one edge less than the vertex
/// count.
pub fn custom_kruskal(
    graph: &WeightedGraph,
    initial_edges: &EdgeSet,
    forbidden_edges: &EdgeSet,
) -> (r: EdgeSet)
    requires
        graph.wf(),
        initial_edges.wf(),
        forbidden_edges.wf(),
        initial_edges.view_set().subset_of(graph.edge_set()),
        initial_edges.view_set().disjoint(forbidden_edges.view_set()),
    ensures
        r.wf(),
        r.view_set().finite(),
        r.view_set().subset_of(
            kruskal_candidates(
                graph.edge_set(),
                initial_edges.view_set(),
                forbidden_edges.view_set(),
            ),
        ),
        forall|e: (int, int)| #[trigger]
            initial_edges.view_set().contains(e) && !connected(
                initial_edges.view_set().remove(e),
                e.0,
                e.1,
            ) ==> r.view_set().contains(e),
        forall|x: int, y: int|
            0 <= x < graph.spec_verts() && 0 <= y < graph.spec_verts() ==> (connected(
                r.view_set(),
                x,
                y,
            ) <==> connected(
                kruskal_candidates(
                    graph.edge_set(),
                    initial_edges.view_set(),
                    forbidden_edges.view_set(),
                ),
                x,
                y,
            )),
        crate::properties::spec_num_components(r.view_set(), graph.spec_verts())
            == graph.spec_verts() - r.view_set().len(),
        graph.spec_verts() >= 1 ==> r.view_set().len() <= graph.spec_verts() - 1,
        graph.spec_verts() >= 1 ==> (spans(r.view_set(), graph.spec_verts())
            <==> r.view_set().len() == graph.spec_verts() - 1),
        forall|s: Set<(int, int)>|
            s.subset_of(
                kruskal_candidates(
                    graph.edge_set(),
                    initial_edges.view_set(),
                    forbidden_edges.view_set(),
                ),
            ) && r.view_set().intersect(initial_edges.view_set()).subset_of(s)
                && crate::properties::spec_num_components(s, graph.spec_verts())
                == graph.spec_verts() - s.len()
                && crate::properties::spec_num_components(s, graph.spec_verts())
                == crate::properties::spec_num_components(
                kruskal_candidates(
                    graph.edge_set(),
                    initial_edges.view_set(),
                    forbidden_edges.view_set(),
                ),
                graph.spec_verts(),
            ) ==> set_weight(r.view_set(), graph.spec_weights()) <= #[trigger] set_weight(
                s,
                graph.spec_weights(),
            ),
{
    let ghost fset = initial_edges.view_set();
    let ghost xset = forbidden_edges.view_set();
    let ghost ges = graph.edge_set();
    proof {
        graph.lemma_edge_set_props();
        initial_edges.lemma_finite();
        forbidden_edges.lemma_finite();
    }
    let num_verts = graph.num_verts();
    let ghost n = num_verts as int;
    let mut components = DisjointSet::new(num_verts);
    let mut mst_edges = EdgeSet::new();
    proof {
        lemma_bridge_init(components);
        assert forall|j: int| #[trigger]
            components.roots().contains(j) implies vstd::set_lib::set_int_range(
            0,
            n,
        ).contains(j) by {}
        assert forall|j: int|
            vstd::set_lib::set_int_range(0, n).contains(j)
            implies #[trigger] components.roots().contains(j) by {
            assert(components.spec_rep(j) == j);
        }
        assert(components.roots() =~= vstd::set_lib::set_int_range(0, n));
        vstd::set_lib::lemma_int_range(0, n);
    }
    // phase one: the forced edges, cheapest first
    let initial_list = initial_edges.to_vec();
    let ghost ilv = initial_list@;
    let sorted_initial = sort_edges_by_weight(graph, initial_list);
    let ghost sv = sorted_initial@;
    let ghost mut processed = Set::<(int, int)>::empty();
    proof {
        broadcast use vstd::seq_lib::group_to_multiset_ensures;

        // the sorted list holds exactly the forced edges, each once
        assert(ilv.no_duplicates()) by {
            assert forall|q1: int, q2: int|
                0 <= q1 < ilv.len() && 0 <= q2 < ilv.len() && q1 != q2 implies ilv[q1]
                != ilv[q2] by {
                if q1 < q2 {
                    assert(pair_view(ilv[q1]) != pair_view(ilv[q2]));
                } else {
                    assert(pair_view(ilv[q2]) != pair_view(ilv[q1]));
                }
            }
        }
        ilv.lemma_multiset_has_no_duplicates();
        sv.lemma_multiset_has_no_duplicates_conv();
        assert forall|e: (int, int)| #[trigger] pairs_view(sv).to_set().contains(e)
            implies fset.contains(e) by {
            let m = choose|m: int|
                0 <= m < pairs_view(sv).len() && pairs_view(sv)[m] == e;
            assert(ilv.contains(sv[m]));
            let m2 = choose|m2: int| 0 <= m2 < ilv.len() && ilv[m2] == sv[m];
            assert(pairs_view(ilv)[m2] == e);
            assert(pairs_view(ilv).contains(e));
        }
        assert forall|e: (int, int)| #[trigger] fset.contains(e)
            implies pairs_view(sv).to_set().contains(e) by {
            let m = choose|m: int|
                0 <= m < pairs_view(ilv).len() && pairs_view(ilv)[m] == e;
            assert(sv.contains(ilv[m]));
            let m2 = choose|m2: int| 0 <= m2 < sv.len() && sv[m2] == ilv[m];
            assert(pairs_view(sv)[m2] == e);
        }
        assert(pairs_view(sv).to_set() =~= fset);
        assert(sv.subrange(0, 0) =~= Seq::empty());
        assert(prefix_edge_set(sv, 0) =~= Set::empty());
        assert(pairs_view(sv).take(0) =~= Seq::empty());
        assert(mst_edges.view_set() =~= Set::empty());
    }
    let mut k: usize = 0;
    while k < sorted_initial.len()
        invariant
            graph.wf(),
            n == graph.spec_verts(),
            n == num_verts as int,
            ges == graph.edge_set(),
            fset == initial_edges.view_set(),
            fset.subset_of(ges),
            fset.finite(),
            k <= sv.len(),
            sv == sorted_initial@,
            sv.no_duplicates(),
            pairs_view(sv).to_set() == fset,
            processed == prefix_edge_set(sv, k as int),
            components.wf(),
            components.spec_len() == n,
            mst_edges.wf(),
            mst_edges.view_set().finite(),
            partition_matches(components, mst_edges.view_set()),
            forall|x: int, y: int|
                0 <= x < n && 0 <= y < n ==> (connected(mst_edges.view_set(), x, y)
                    <==> connected(processed, x, y)),
            mst_edges.view_set().subset_of(processed),
            components.spec_num_sets() == n - mst_edges.view_set().len(),
            mst_edges.view_set() == greedy_forest(
                Set::empty(),
                pairs_view(sv).take(k as int),
            ),
            forall|e: (int, int)| #[trigger]
                processed.contains(e) && !connected(fset.remove(e), e.0, e.1)
                    ==> mst_edges.view_set().contains(e),
        decreases sv.len() - k,
    {
        let (u, v) = sorted_initial[k];
        proof {
            graph.lemma_edge_set_props();
            assert(pairs_view(sv)[k as int] == pair_view(sv[k as int]));
            assert(pairs_view(sv).contains(pair_view(sv[k as int])));
            assert(fset.contains((u as int, v as int)));
            assert(ges.contains((u as int, v as int)));
        }
        let ghost e = (u as int, v as int);
        let ghost mst_pre = mst_edges.view_set();
        let added = kruskal_step(&mut components, &mut mst_edges, u, v, Ghost(processed));
        proof {
            // the step is exactly one unfolding of the greedy pass
            let pv = pairs_view(sv);
            assert(pv.take(k as int + 1).drop_last() =~= pv.take(k as int));
            assert(pv.take(k as int + 1).last() == e);
            assert(0 <= e.0 < n && 0 <= e.1 < n);
            assert(added <==> !connected(mst_pre, e.0, e.1));
            assert(mst_edges.view_set() == greedy_forest(
                Set::empty(),
                pv.take(k as int + 1),
            ));
            if !added {
                // the earlier forced edges already connect u and v
                assert(connected(processed, e.0, e.1));
                assert forall|q: (int, int)| #[trigger] processed.contains(q)
                    implies fset.remove(e).contains(q) by {
                    let mm = choose|mm: int|
                        0 <= mm < k && pairs_view(sv.subrange(0, k as int))[mm] == q;
                    assert(pair_view(sv[mm]) == q);
                    assert(pairs_view(sv)[mm] == q);
                    assert(pairs_view(sv).contains(q));
                    assert(sv[mm] != sv[k as int]);
                    assert(q != e);
                }
                lemma_connected_subset(processed, fset.remove(e), e.0, e.1);
            }
            processed = processed.insert(e);
            assert(sv.subrange(0, k as int + 1) =~= sv.subrange(0, k as int).push(
                sv[k as int],
            ));
            assert(pairs_view(sv.subrange(0, k as int + 1)) =~= pairs_view(
                sv.subrange(0, k as int),
            ).push(pair_view(sv[k as int])));
            pairs_view(sv.subrange(0, k as int)).lemma_push_to_set_commute(
                pair_view(sv[k as int]),
            );
            assert(processed =~= prefix_edge_set(sv, k as int + 1));
        }
        k = k + 1;
    }
    proof {
        assert(sv.subrange(0, sv.len() as int) =~= sv);
        assert(processed =~= fset);
        assert(pairs_view(sv).take(sv.len() as int) =~= pairs_view(sv));
    }
    // from here on `processed` grows as the forced edges together with
    // a prefix of the remaining candidates
    // phase two: the remaining candidate edges, cheapest first
    let all_edges = graph.edges();
    let mut remaining: Vec<(usize, usize)> = Vec::new();
    let mut m: usize = 0;
    let ghost av = all_edges@;
    proof {
        assert(av.subrange(0, 0) =~= Seq::empty());
        assert(pairs_view(remaining@).to_set() =~= pairs_view(
            av.subrange(0, 0),
        ).to_set().difference(fset).difference(xset));
    }
    while m < all_edges.len()
        invariant
            graph.wf(),
            n == graph.spec_verts(),
            ges == graph.edge_set(),
            fset == initial_edges.view_set(),
            xset == forbidden_edges.view_set(),
            m <= av.len(),
            av == all_edges@,
            forall|q: int|
                0 <= q < av.len() ==> ges.contains(pair_view(#[trigger] av[q])),
            forall|q1: int, q2: int|
                0 <= q1 < q2 < av.len() ==> pair_view(#[trigger] av[q1]) != pair_view(
                    #[trigger] av[q2],
                ),
            forall|e: (int, int)| #[trigger]
                ges.contains(e) ==> exists|q: int|
                    0 <= q < av.len() && pair_view(av[q]) == e,
            forall|q1: int, q2: int|
                0 <= q1 < q2 < remaining@.len() ==> pair_view(#[trigger] remaining@[q1])
                    != pair_view(#[trigger] remaining@[q2]),
            pairs_view(remaining@).to_set() == pairs_view(
                av.subrange(0, m as int),
            ).to_set().difference(fset).difference(xset),
            forall|q: int|
                0 <= q < remaining@.len() ==> ges.contains(pair_view(
                    #[trigger] remaining@[q],
                )),
        decreases av.len() - m,
    {
        let (u, v) = all_edges[m];
        let ghost prev = remaining@;
        proof {
            assert(ges.contains(pair_view(av[m as int])));
            assert(av.subrange(0, m as int + 1) =~= av.subrange(0, m as int).push(
                av[m as int],
            ));
            assert(pairs_view(av.subrange(0, m as int + 1)) =~= pairs_view(
                av.subrange(0, m as int),
            ).push(pair_view(av[m as int])));
            pairs_view(av.subrange(0, m as int)).lemma_push_to_set_commute(
                pair_view(av[m as int]),
            );
        }
        if !initial_edges.contains(u, v) && !forbidden_edges.contains(u, v) {
            remaining.push((u, v));
            proof {
                assert(pairs_view(remaining@) =~= pairs_view(prev).push(
                    (u as int, v as int),
                ));
                pairs_view(prev).lemma_push_to_set_commute((u as int, v as int));
                assert forall|q1: int|
                    0 <= q1 < prev.len() implies pair_view(#[trigger] prev[q1])
                    != pair_view(av[m as int]) by {
                    if pair_view(prev[q1]) == pair_view(av[m as int]) {
                        assert(pairs_view(prev)[q1] == pair_view(av[m as int]));
                        assert(pairs_view(prev).contains(pair_view(av[m as int])));
                        assert(pairs_view(prev).to_set().contains(
                            pair_view(av[m as int]),
                        ));
                        let q = choose|q: int|
                            0 <= q < m && pairs_view(av.subrange(0, m as int))[q]
                                == pair_view(av[m as int]);
                        assert(pair_view(av[q]) == pair_view(av[m as int]));
                    }
                }
                assert(pairs_view(remaining@).to_set() =~= pairs_view(
                    av.subrange(0, m as int + 1),
                ).to_set().difference(fset).difference(xset));
            }
        } else {
            proof {
                assert(pairs_view(remaining@).to_set() =~= pairs_view(
                    av.subrange(0, m as int + 1),
                ).to_set().difference(fset).difference(xset));
            }
        }
        m = m + 1;
    }
    proof {
        assert(av.subrange(0, av.len() as int) =~= av);
        assert forall|e: (int, int)| #[trigger] ges.contains(e)
            implies pairs_view(av).to_set().contains(e) by {
            let q = choose|q: int| 0 <= q < av.len() && pair_view(av[q]) == e;
            assert(pairs_view(av)[q] == e);
        }
        assert forall|e: (int, int)| #[trigger] pairs_view(av).to_set().contains(e)
            implies ges.contains(e) by {
            let q = choose|q: int|
                0 <= q < pairs_view(av).len() && pairs_view(av)[q] == e;
            assert(pair_view(av[q]) == e);
        }
        assert(pairs_view(remaining@).to_set() =~= ges.difference(fset).difference(
            xset,
        ));
    }
    let ghost remv = remaining@;
    let sorted_remaining = sort_edges_by_weight(graph, remaining);
    let ghost rv = sorted_remaining@;
    proof {
        assert forall|e: (int, int)| #[trigger] pairs_view(rv).to_set().contains(e)
            implies pairs_view(remv).to_set().contains(e) by {
            let q = choose|q: int|
                0 <= q < pairs_view(rv).len() && pairs_view(rv)[q] == e;
            assert(remv.contains(rv[q]));
            let m3 = choose|m3: int| 0 <= m3 < remv.len() && remv[m3] == rv[q];
            assert(pairs_view(remv)[m3] == e);
        }
        assert forall|e: (int, int)| #[trigger] pairs_view(remv).to_set().contains(e)
            implies pairs_view(rv).to_set().contains(e) by {
            let q = choose|q: int|
                0 <= q < pairs_view(remv).len() && pairs_view(remv)[q] == e;
            assert(rv.contains(remv[q]));
            let m3 = choose|m3: int| 0 <= m3 < rv.len() && rv[m3] == remv[q];
            assert(pairs_view(rv)[m3] == e);
        }
        assert(pairs_view(rv).to_set() =~= ges.difference(fset).difference(xset));
    }
    let mut t: usize = 0;
    proof {
        assert(rv.subrange(0, 0) =~= Seq::empty());
        assert(prefix_edge_set(rv, 0) =~= Set::empty());
        assert(processed =~= fset.union(prefix_edge_set(rv, 0)));
        assert(pairs_view(sv) + pairs_view(rv).take(0) =~= pairs_view(sv));
    }
    while t < sorted_remaining.len()
        invariant
            graph.wf(),
            n == graph.spec_verts(),
            n == num_verts as int,
            ges == graph.edge_set(),
            fset == initial_edges.view_set(),
            xset == forbidden_edges.view_set(),
            t <= rv.len(),
            rv == sorted_remaining@,
            sv == sorted_initial@,
            sv.no_duplicates(),
            pairs_view(sv).to_set() == fset,
            pairs_view(rv).to_set() == ges.difference(fset).difference(xset),
            components.wf(),
            components.spec_len() == n,
            mst_edges.wf(),
            mst_edges.view_set().finite(),
            partition_matches(components, mst_edges.view_set()),
            forall|x: int, y: int|
                0 <= x < n && 0 <= y < n ==> (connected(mst_edges.view_set(), x, y)
                    <==> connected(processed, x, y)),
            mst_edges.view_set().subset_of(processed),
            processed == fset.union(prefix_edge_set(rv, t as int)),
            components.spec_num_sets() == n - mst_edges.view_set().len(),
            mst_edges.view_set() == greedy_forest(
                Set::empty(),
                pairs_view(sv) + pairs_view(rv).take(t as int),
            ),
            forall|e: (int, int)| #[trigger]
                fset.contains(e) && !connected(fset.remove(e), e.0, e.1)
                    ==> mst_edges.view_set().contains(e),
        decreases rv.len() - t,
    {
        let (u, v) = sorted_remaining[t];
        proof {
            graph.lemma_edge_set_props();
            assert(pairs_view(rv)[t as int] == pair_view(rv[t as int]));
            assert(pairs_view(rv).contains(pair_view(rv[t as int])));
            assert(pairs_view(rv).to_set().contains((u as int, v as int)));
            assert(ges.contains((u as int, v as int)));
        }
        let ghost mst_pre = mst_edges.view_set();
        let added = kruskal_step(&mut components, &mut mst_edges, u, v, Ghost(processed));
        proof {
            // the step is exactly one unfolding of the greedy pass
            let ghost e = (u as int, v as int);
            let cv = pairs_view(sv) + pairs_view(rv).take(t as int + 1);
            assert(cv.drop_last() =~= pairs_view(sv) + pairs_view(rv).take(t as int));
            assert(cv.last() == e);
            assert(0 <= e.0 < n && 0 <= e.1 < n);
            assert(added <==> !connected(mst_pre, e.0, e.1));
            assert(mst_edges.view_set() == greedy_forest(Set::empty(), cv));
            processed = processed.insert((u as int, v as int));
            assert(rv.subrange(0, t as int + 1) =~= rv.subrange(0, t as int).push(
                rv[t as int],
            ));
            assert(pairs_view(rv.subrange(0, t as int + 1)) =~= pairs_view(
                rv.subrange(0, t as int),
            ).push(pair_view(rv[t as int])));
            pairs_view(rv.subrange(0, t as int)).lemma_push_to_set_commute(
                pair_view(rv[t as int]),
            );
            assert(processed =~= fset.union(prefix_edge_set(rv, t as int + 1)));
        }
        t = t + 1;
    }
    proof {
        // everything reachable through the candidates is reachable
        // through the result, because every candidate was considered
        let cands = kruskal_candidates(ges, fset, xset);
        assert(rv.subrange(0, rv.len() as int) =~= rv);
        assert(processed =~= fset.union(pairs_view(rv).to_set()));
        assert(processed.subset_of(cands));
        assert forall|e: (int, int)| #[trigger] cands.contains(e)
            implies processed.contains(e) by {
            if !fset.contains(e) {
                assert(ges.difference(xset).contains(e));
                assert(ges.difference(fset).difference(xset).contains(e));
                assert(pairs_view(rv).to_set().contains(e));
            }
        }
        assert(processed =~= cands);
        // the result is a forest: one edge short of the vertices in
        // every component
        crate::properties::lemma_num_sets_is_components(components, mst_edges.view_set());
        // it never exceeds the spanning size, and reaches it exactly
        // when it spans every vertex
        components.lemma_roots_finite();
        if n >= 1 {
            components.lemma_rep_props(0);
            if components.spec_num_sets() == 0 {
                components.roots().lemma_len0_is_empty();
            }
            if spans(mst_edges.view_set(), n) {
                components.lemma_one_class();
            }
            if mst_edges.view_set().len() == n - 1 {
                components.lemma_one_class_converse();
            }
        }
        // minimality: the result is the greedy run over the sorted
        // candidates, which weighs no more than any competing forest
        let fseq = pairs_view(sv);
        let rseq = pairs_view(rv);
        assert(fseq + rseq.take(rv.len() as int) =~= fseq + rseq);
        assert(mst_edges.view_set() == greedy_forest(Set::empty(), fseq + rseq));
        assert(fseq.no_duplicates()) by {
            assert forall|q1: int, q2: int|
                0 <= q1 < q2 < fseq.len() implies fseq[q1] != fseq[q2] by {
                assert(sv[q1] != sv[q2]);
                if fseq[q1] == fseq[q2] {
                    assert(sv[q1].0 as int == sv[q2].0 as int);
                    assert(sv[q1].1 as int == sv[q2].1 as int);
                }
            }
        }
        assert(rv.no_duplicates()) by {
            broadcast use vstd::seq_lib::group_to_multiset_ensures;

            assert(remv.no_duplicates()) by {
                assert forall|q1: int, q2: int|
                    0 <= q1 < q2 < remv.len() implies remv[q1] != remv[q2] by {
                    assert(pair_view(remv[q1]) != pair_view(remv[q2]));
                }
            }
            remv.lemma_multiset_has_no_duplicates();
            rv.lemma_multiset_has_no_duplicates_conv();
        }
        assert(rseq.no_duplicates()) by {
            assert forall|q1: int, q2: int|
                0 <= q1 < q2 < rseq.len() implies rseq[q1] != rseq[q2] by {
                assert(rv[q1] != rv[q2]);
                if rseq[q1] == rseq[q2] {
                    assert(rv[q1].0 as int == rv[q2].0 as int);
                    assert(rv[q1].1 as int == rv[q2].1 as int);
                }
            }
        }
        let fsset = fseq.to_set();
        let rsset = rseq.to_set();
        assert(fsset == fset);
        assert(rsset == ges.difference(fset).difference(xset));
        assert(fsset.disjoint(rsset));
        assert(cands =~= fsset.union(rsset));
        graph.lemma_edge_set_props();
        assert(endpoints_ok(fsset, n)) by {
            assert forall|q: (int, int)| #[trigger] fsset.contains(q) implies 0 <= q.0 < n
                && 0 <= q.1 < n by {
                assert(ges.contains(q));
            }
        }
        assert(endpoints_ok(rsset, n)) by {
            assert forall|q: (int, int)| #[trigger] rsset.contains(q) implies 0 <= q.0 < n
                && 0 <= q.1 < n by {
                assert(ges.contains(q));
            }
        }
        assert(forall|i: int, j: int|
            0 <= i < j < rseq.len() ==> graph.spec_weights()[rseq[i]]
                <= graph.spec_weights()[rseq[j]]) by {
            assert forall|i: int, j: int|
                0 <= i < j < rseq.len() implies graph.spec_weights()[rseq[i]]
                <= graph.spec_weights()[rseq[j]] by {
                assert(rseq[i] == pair_view(rv[i]) && rseq[j] == pair_view(rv[j]));
            }
        }
        lemma_greedy_concat(Set::empty(), fseq, rseq);
        lemma_greedy_subset(Set::empty(), fseq);
        let fhat = greedy_forest(Set::empty(), fseq);
        lemma_greedy_subset(fhat, rseq);
        assert(fhat.subset_of(mst_edges.view_set()));
        assert forall|s2: Set<(int, int)>|
            s2.subset_of(cands) && mst_edges.view_set().intersect(fset).subset_of(s2)
                && crate::properties::spec_num_components(s2, n) == n - s2.len()
                && crate::properties::spec_num_components(s2, n)
                == crate::properties::spec_num_components(cands, n) implies set_weight(
            mst_edges.view_set(),
            graph.spec_weights(),
        ) <= #[trigger] set_weight(s2, graph.spec_weights()) by {
            assert(fhat.subset_of(s2)) by {
                assert forall|q: (int, int)| #[trigger] fhat.contains(q) implies s2.contains(
                    q,
                ) by {
                    assert(mst_edges.view_set().contains(q));
                    assert(fsset.contains(q));
                    assert(mst_edges.view_set().intersect(fset).contains(q));
                }
            }
            assert(s2.subset_of(fsset.union(rsset)));
            assert(crate::properties::spec_num_components(s2, n)
                == crate::properties::spec_num_components(fsset.union(rsset), n));
            lemma_greedy_minimal(fseq, rseq, s2, graph.spec_weights(), n);
        }
    }
    mst_edges
}

/// Kruskal's algorithm: the unconstrained special case with no forced
/// and no forbidden edges.
pub fn kruskal(graph: &WeightedGraph) -> (r: EdgeSet)
    requires
        graph.wf(),
    ensures
        r.wf(),
        r.view_set().finite(),
        r.view_set().subset_of(graph.edge_set()),
        forall|x: int, y: int|
            0 <= x < graph.spec_verts() && 0 <= y < graph.spec_verts() ==> (connected(
                r.view_set(),
                x,
                y,
            ) <==> connected(graph.edge_set(), x, y)),
        crate::properties::spec_num_components(r.view_set(), graph.spec_verts())
            == graph.spec_verts() - r.view_set().len(),
        graph.spec_verts() >= 1 ==> r.view_set().len() <= graph.spec_verts() - 1,
        graph.spec_verts() >= 1 ==> (spans(r.view_set(), graph.spec_verts())
            <==> r.view_set().len() == graph.spec_verts() - 1),
        forall|s: Set<(int, int)>|
            s.subset_of(graph.edge_set()) && crate::properties::spec_num_components(
                s,
                graph.spec_verts(),
            ) == graph.spec_verts() - s.len() && crate::properties::spec_num_components(
                s,
                graph.spec_verts(),
            ) == crate::properties::spec_num_components(
                graph.edge_set(),
                graph.spec_verts(),
            ) ==> set_weight(r.view_set(), graph.spec_weights()) <= #[trigger] set_weight(
                s,
                graph.spec_weights(),
            ),
{
    let empty_initial = EdgeSet::new();
    let empty_forbidden = EdgeSet::new();
    let r = custom_kruskal(graph, &empty_initial, &empty_forbidden);
    proof {
        assert(kruskal_candidates(graph.edge_set(), Set::empty(), Set::empty())
            =~= graph.edge_set());
        assert forall|s: Set<(int, int)>|
            s.subset_of(graph.edge_set()) && crate::properties::spec_num_components(
                s,
                graph.spec_verts(),
            ) == graph.spec_verts() - s.len() && crate::properties::spec_num_components(
                s,
                graph.spec_verts(),
            ) == crate::properties::spec_num_components(
                graph.edge_set(),
                graph.spec_verts(),
            ) implies set_weight(r.view_set(), graph.spec_weights())
            <= #[trigger] set_weight(s, graph.spec_weights()) by {
            assert(r.view_set().intersect(Set::empty()).subset_of(s));
        }
    }
    r
}

} // verus!
