use vstd::prelude::*;

use rand::seq::SliceRandom;
use rand::RngExt;

use crate::digraph::digraph_capacity_ok;
use crate::digraph::Digraph;
use crate::traits::GraphImpl;

verus! {

/// Relies on rand::Rng::random_range: the result lies in the given
/// half-open range.
#[verifier::external_body]
pub(crate) fn random_in_range(lo: usize, hi: usize) -> (r: usize)
    requires
        lo < hi,
    ensures
        lo <= r < hi,
{
    let mut rng = rand::rng();
    rng.random_range(lo..hi)
}

/// Relies on rand::seq::SliceRandom::shuffle: the result is a
/// permutation of the same elements.
#[verifier::external_body]
pub(crate) fn shuffle_vertices(v: &mut Vec<usize>)
    ensures
        final(v)@.to_multiset() == old(v)@.to_multiset(),
{
    v.as_mut_slice().shuffle(&mut rand::rng());
}

/// Creates a random arborescence: a digraph in which every vertex but
/// the root 0 has at most one incoming arc, each non-root vertex is
/// attached in random order to an earlier-attached vertex, and no
/// vertex has more than `branching_factor` children. Whatever the
/// random order, every arc leads from a vertex to a non-root vertex,
/// no vertex has two incoming arcs, and the arcs number at most
/// `n - 1`.
pub fn random_arborescence(n: usize, branching_factor: usize) -> (r: Digraph)
    requires
        digraph_capacity_ok(n as int),
    ensures
        r.wf(),
        r.spec_verts() == n,
        r.edge_set().len() <= (if n >= 1 {
            n - 1
        } else {
            0
        }),
        branching_factor >= 1 && n >= 1 ==> r.edge_set().len() == n - 1,
        forall|e: (int, int)| #[trigger]
            r.edge_set().contains(e) ==> 0 <= e.0 < n && 1 <= e.1 < n,
        forall|e1: (int, int), e2: (int, int)|
            #[trigger] r.edge_set().contains(e1) && #[trigger] r.edge_set().contains(
                e2,
            ) && e1.1 == e2.1 ==> e1 == e2,
{
    broadcast use vstd::seq_lib::group_to_multiset_ensures;

    let mut arborescence = Digraph::new(n);
    if n == 0 {
        proof {
            arborescence.lemma_edge_set_props();
            vstd::multiset::lemma_multiset_empty_len(
                Seq::<(int, int)>::empty().to_multiset(),
            );
        }
        return arborescence;
    }
    // the vertices other than the root, in a random order
    let mut random_vertices_ordering: Vec<usize> = Vec::new();
    let mut e: usize = 1;
    while e < n
        invariant
            1 <= e <= n,
            random_vertices_ordering@.len() == e - 1,
            forall|m: int|
                0 <= m < e - 1 ==> #[trigger] random_vertices_ordering@[m] == m + 1,
        decreases n - e,
    {
        random_vertices_ordering.push(e);
        e = e + 1;
    }
    proof {
        assert(random_vertices_ordering@.no_duplicates());
        random_vertices_ordering@.lemma_multiset_has_no_duplicates();
    }
    let ghost before = random_vertices_ordering@;
    shuffle_vertices(&mut random_vertices_ordering);
    let ghost ordering = random_vertices_ordering@;
    proof {
        before.to_multiset_ensures();
        ordering.to_multiset_ensures();
        assert(ordering.len() == before.len());
        ordering.lemma_multiset_has_no_duplicates_conv();
        assert forall|m: int| 0 <= m < ordering.len() implies 1 <= #[trigger] ordering[m]
            < n by {
            assert(ordering.contains(ordering[m]));
            assert(ordering.to_multiset().count(ordering[m]) > 0);
            assert(before.to_multiset().count(ordering[m]) > 0);
            assert(before.contains(ordering[m]));
            let mm = choose|mm: int| 0 <= mm < before.len() && before[mm] == ordering[m];
        }
    }
    // attach each vertex, in that order, to the next vertex that still
    // has room for a child
    let mut remaining_vertices: Vec<usize> = Vec::new();
    remaining_vertices.push(0);
    let mut head: usize = 0;
    let mut i: usize = 0;
    while head < remaining_vertices.len() && i < n - 1
        invariant
            n >= 1,
            i <= n - 1,
            ordering == random_vertices_ordering@,
            ordering.len() == n - 1,
            ordering.no_duplicates(),
            forall|m: int| 0 <= m < ordering.len() ==> 1 <= #[trigger] ordering[m] < n,
            head <= remaining_vertices@.len(),
            forall|m: int|
                0 <= m < remaining_vertices@.len()
                    ==> #[trigger] remaining_vertices@[m] < n,
            arborescence.wf(),
            arborescence.spec_verts() == n,
            arborescence.edge_set().finite(),
            arborescence.edge_set().len() == i,
            remaining_vertices@.len() == 1 + i,
            branching_factor >= 1 ==> (i >= head || i >= n - 1),
            forall|e: (int, int)| #[trigger]
                arborescence.edge_set().contains(e) ==> 0 <= e.0 < n && 1 <= e.1 < n
                    && (exists|m: int| 0 <= m < i && ordering[m] == e.1),
            forall|e1: (int, int), e2: (int, int)|
                #[trigger] arborescence.edge_set().contains(e1)
                    && #[trigger] arborescence.edge_set().contains(e2) && e1.1 == e2.1
                    ==> e1 == e2,
        decreases n - 1 - i + remaining_vertices@.len() - head,
    {
        let u = remaining_vertices[head];
        head = head + 1;
        let ghost balance = n - 1 - i + remaining_vertices@.len();
        let mut c: usize = 0;
        while c < branching_factor && i < n - 1
            invariant
                n >= 1,
                i <= n - 1,
                u < n,
                c <= branching_factor,
                head <= remaining_vertices@.len(),
                n - 1 - i + remaining_vertices@.len() == balance,
                ordering == random_vertices_ordering@,
                ordering.len() == n - 1,
                ordering.no_duplicates(),
                forall|m: int|
                    0 <= m < ordering.len() ==> 1 <= #[trigger] ordering[m] < n,
                forall|m: int|
                    0 <= m < remaining_vertices@.len()
                        ==> #[trigger] remaining_vertices@[m] < n,
                arborescence.wf(),
                arborescence.spec_verts() == n,
                arborescence.edge_set().finite(),
                arborescence.edge_set().len() == i,
                remaining_vertices@.len() == 1 + i,
                branching_factor >= 1 ==> i >= head - 1,
                branching_factor >= 1 && c >= 1 ==> i >= head,
                forall|e: (int, int)| #[trigger]
                    arborescence.edge_set().contains(e) ==> 0 <= e.0 < n && 1 <= e.1 < n
                        && (exists|m: int| 0 <= m < i && ordering[m] == e.1),
                forall|e1: (int, int), e2: (int, int)|
                    #[trigger] arborescence.edge_set().contains(e1)
                        && #[trigger] arborescence.edge_set().contains(e2) && e1.1
                        == e2.1 ==> e1 == e2,
            decreases n - 1 - i,
        {
            let v = random_vertices_ordering[i];
            proof {
                // this vertex was never attached before, so the arc is new
                if arborescence.edge_set().contains((u as int, v as int)) {
                    let m = choose|m: int|
                        0 <= m < i && ordering[m] == (v as int);
                    assert(ordering[m] == ordering[i as int]);
                }
            }
            let res = arborescence.add_edge(u, v);
            proof {
                assert(res is Ok);
            }
            i = i + 1;
            c = c + 1;
            remaining_vertices.push(v);
            proof {
                assert forall|e: (int, int)| #[trigger]
                    arborescence.edge_set().contains(e) implies 0 <= e.0 < n && 1 <= e.1
                    < n && (exists|m: int| 0 <= m < i && ordering[m] == e.1) by {
                    if e == (u as int, v as int) {
                        assert(ordering[i - 1] == e.1);
                    }
                }
                // the new target is fresh, so no vertex gains a second
                // incoming arc
                assert forall|e1: (int, int), e2: (int, int)|
                    #[trigger] arborescence.edge_set().contains(e1)
                        && #[trigger] arborescence.edge_set().contains(e2) && e1.1
                        == e2.1 implies e1 == e2 by {
                    if e1 == (u as int, v as int) && e2 != (u as int, v as int) {
                        let m = choose|m: int|
                            0 <= m < i - 1 && ordering[m] == e2.1;
                        assert(ordering[m] == ordering[i - 1]);
                    }
                    if e2 == (u as int, v as int) && e1 != (u as int, v as int) {
                        let m = choose|m: int|
                            0 <= m < i - 1 && ordering[m] == e1.1;
                        assert(ordering[m] == ordering[i - 1]);
                    }
                }
            }
        }
    }
    arborescence
}

} // verus!
