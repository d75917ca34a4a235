use vstd::prelude::*;

verus! {

/// Some edge of `edges` joins `x` and `y`, in either direction.
pub open spec fn edge_step(edges: Set<(int, int)>, x: int, y: int) -> bool {
    edges.contains((x, y)) || edges.contains((y, x))
}

/// `x` reaches `y` through at most `k` edge steps.
pub open spec fn connected_k(edges: Set<(int, int)>, x: int, y: int, k: nat) -> bool
    decreases k,
{
    if k == 0 {
        x == y
    } else {
        connected_k(edges, x, y, (k - 1) as nat) || (exists|z: int|
            edge_step(edges, x, z) && connected_k(edges, z, y, (k - 1) as nat))
    }
}

/// `x` and `y` are joined by a path of edges. The edges are undirected:
/// a pair can be walked in either direction.
pub open spec fn connected(edges: Set<(int, int)>, x: int, y: int) -> bool {
    exists|k: nat| connected_k(edges, x, y, k)
}

/// Every vertex is connected to itself.
pub proof fn lemma_connected_refl(edges: Set<(int, int)>, x: int)
    ensures
        connected(edges, x, x),
{
    assert(connected_k(edges, x, x, 0));
}

/// The endpoints of an edge are connected.
pub proof fn lemma_connected_edge(edges: Set<(int, int)>, x: int, y: int)
    requires
        edge_step(edges, x, y),
    ensures
        connected(edges, x, y),
{
    assert(connected_k(edges, y, y, 0));
    assert(connected_k(edges, x, y, 1));
}

proof fn lemma_k_mono(edges: Set<(int, int)>, x: int, y: int, k1: nat, k2: nat)
    requires
        k1 <= k2,
        connected_k(edges, x, y, k1),
    ensures
        connected_k(edges, x, y, k2),
    decreases k2,
{
    if k2 > k1 {
        lemma_k_mono(edges, x, y, k1, (k2 - 1) as nat);
    }
}

proof fn lemma_k_trans(edges: Set<(int, int)>, x: int, y: int, z: int, k1: nat, k2: nat)
    requires
        connected_k(edges, x, y, k1),
        connected_k(edges, y, z, k2),
    ensures
        connected_k(edges, x, z, (k1 + k2) as nat),
    decreases k1,
{
    if k1 == 0 {
        lemma_k_mono(edges, y, z, k2, (k1 + k2) as nat);
    } else {
        if connected_k(edges, x, y, (k1 - 1) as nat) {
            lemma_k_trans(edges, x, y, z, (k1 - 1) as nat, k2);
            lemma_k_mono(edges, x, z, (k1 - 1 + k2) as nat, (k1 + k2) as nat);
        } else {
            let w = choose|w: int|
                edge_step(edges, x, w) && connected_k(edges, w, y, (k1 - 1) as nat);
            lemma_k_trans(edges, w, y, z, (k1 - 1) as nat, k2);
        }
    }
}

/// Connectivity is transitive.
pub proof fn lemma_connected_trans(edges: Set<(int, int)>, x: int, y: int, z: int)
    requires
        connected(edges, x, y),
        connected(edges, y, z),
    ensures
        connected(edges, x, z),
{
    let k1 = choose|k: nat| connected_k(edges, x, y, k);
    let k2 = choose|k: nat| connected_k(edges, y, z, k);
    lemma_k_trans(edges, x, y, z, k1, k2);
}

proof fn lemma_k_sym(edges: Set<(int, int)>, x: int, y: int, k: nat)
    requires
        connected_k(edges, x, y, k),
    ensures
        connected(edges, y, x),
    decreases k,
{
    if k == 0 {
        lemma_connected_refl(edges, x);
    } else if connected_k(edges, x, y, (k - 1) as nat) {
        lemma_k_sym(edges, x, y, (k - 1) as nat);
    } else {
        let w = choose|w: int|
            edge_step(edges, x, w) && connected_k(edges, w, y, (k - 1) as nat);
        lemma_k_sym(edges, w, y, (k - 1) as nat);
        lemma_connected_edge(edges, w, x);
        lemma_connected_trans(edges, y, w, x);
    }
}

/// Connectivity is symmetric.
pub proof fn lemma_connected_sym(edges: Set<(int, int)>, x: int, y: int)
    requires
        connected(edges, x, y),
    ensures
        connected(edges, y, x),
{
    let k = choose|k: nat| connected_k(edges, x, y, k);
    lemma_k_sym(edges, x, y, k);
}

proof fn lemma_k_subset(e1: Set<(int, int)>, e2: Set<(int, int)>, x: int, y: int, k: nat)
    requires
        connected_k(e1, x, y, k),
        e1.subset_of(e2),
    ensures
        connected_k(e2, x, y, k),
    decreases k,
{
    if k > 0 {
        if connected_k(e1, x, y, (k - 1) as nat) {
            lemma_k_subset(e1, e2, x, y, (k - 1) as nat);
        } else {
            let w = choose|w: int|
                edge_step(e1, x, w) && connected_k(e1, w, y, (k - 1) as nat);
            lemma_k_subset(e1, e2, w, y, (k - 1) as nat);
            assert(edge_step(e2, x, w));
        }
    }
}

/// A path survives when edges are added.
pub proof fn lemma_connected_subset(e1: Set<(int, int)>, e2: Set<(int, int)>, x: int, y: int)
    requires
        connected(e1, x, y),
        e1.subset_of(e2),
    ensures
        connected(e2, x, y),
{
    let k = choose|k: nat| connected_k(e1, x, y, k);
    lemma_k_subset(e1, e2, x, y, k);
}

proof fn lemma_k_insert(edges: Set<(int, int)>, u: int, v: int, x: int, y: int, k: nat)
    requires
        connected_k(edges.insert((u, v)), x, y, k),
    ensures
        connected(edges, x, y) || (connected(edges, x, u) && connected(edges, v, y)) || (
        connected(edges, x, v) && connected(edges, u, y)),
    decreases k,
{
    let bigger = edges.insert((u, v));
    if k == 0 {
        lemma_connected_refl(edges, x);
    } else if connected_k(bigger, x, y, (k - 1) as nat) {
        lemma_k_insert(edges, u, v, x, y, (k - 1) as nat);
    } else {
        let w = choose|w: int|
            edge_step(bigger, x, w) && connected_k(bigger, w, y, (k - 1) as nat);
        lemma_k_insert(edges, u, v, w, y, (k - 1) as nat);
        if edge_step(edges, x, w) {
            lemma_connected_edge(edges, x, w);
            if connected(edges, w, y) {
                lemma_connected_trans(edges, x, w, y);
            } else if connected(edges, w, u) && connected(edges, v, y) {
                lemma_connected_trans(edges, x, w, u);
            } else {
                lemma_connected_trans(edges, x, w, v);
            }
        } else {
            // the step uses the inserted edge itself: the claim follows
            // from the inductive case for w together with reflexivity
            assert((x == u && w == v) || (x == v && w == u));
            lemma_connected_refl(edges, x);
        }
    }
}

proof fn lemma_k_empty(x: int, y: int, k: nat)
    requires
        connected_k(Set::<(int, int)>::empty(), x, y, k),
    ensures
        x == y,
    decreases k,
{
    if k > 0 {
        if connected_k(Set::<(int, int)>::empty(), x, y, (k - 1) as nat) {
            lemma_k_empty(x, y, (k - 1) as nat);
        }
    }
}

/// Without edges, only a vertex and itself are connected.
pub proof fn lemma_connected_empty(x: int, y: int)
    requires
        connected(Set::<(int, int)>::empty(), x, y),
    ensures
        x == y,
{
    let k = choose|k: nat| connected_k(Set::<(int, int)>::empty(), x, y, k);
    lemma_k_empty(x, y, k);
}

/// A path that uses an inserted edge `(u, v)` decomposes into paths of
/// the original edges around that edge.
pub proof fn lemma_connected_insert(edges: Set<(int, int)>, u: int, v: int, x: int, y: int)
    requires
        connected(edges.insert((u, v)), x, y),
    ensures
        connected(edges, x, y) || (connected(edges, x, u) && connected(edges, v, y)) || (
        connected(edges, x, v) && connected(edges, u, y)),
{
    let k = choose|k: nat| connected_k(edges.insert((u, v)), x, y, k);
    lemma_k_insert(edges, u, v, x, y, k);
}

/// An inserted edge whose endpoints are already connected changes no
/// connectivity.
pub proof fn lemma_connected_bypass(edges: Set<(int, int)>, u: int, v: int, x: int, y: int)
    requires
        connected(edges.insert((u, v)), x, y),
        connected(edges, u, v),
    ensures
        connected(edges, x, y),
{
    lemma_connected_insert(edges, u, v, x, y);
    if connected(edges, x, y) {
    } else if connected(edges, x, u) && connected(edges, v, y) {
        lemma_connected_sym(edges, u, v);
        lemma_connected_trans(edges, x, u, v);
        lemma_connected_trans(edges, x, v, y);
    } else {
        lemma_connected_sym(edges, u, v);
        lemma_connected_trans(edges, x, v, u);
        lemma_connected_trans(edges, x, u, y);
    }
}

/// Two edge sets with the same connectivity keep the same connectivity
/// when the same edge is inserted into both.
pub proof fn lemma_connected_equiv_insert(
    e1: Set<(int, int)>,
    e2: Set<(int, int)>,
    u: int,
    v: int,
    n: int,
)
    requires
        0 <= u < n,
        0 <= v < n,
        forall|x: int, y: int|
            0 <= x < n && 0 <= y < n ==> (connected(e1, x, y) <==> connected(e2, x, y)),
    ensures
        forall|x: int, y: int|
            0 <= x < n && 0 <= y < n ==> (connected(e1.insert((u, v)), x, y)
                <==> connected(e2.insert((u, v)), x, y)),
{
    assert forall|x: int, y: int| 0 <= x < n && 0 <= y < n implies (connected(
        e1.insert((u, v)),
        x,
        y,
    ) <==> connected(e2.insert((u, v)), x, y)) by {
        lemma_connected_one_way(e1, e2, u, v, n, x, y);
        lemma_connected_one_way(e2, e1, u, v, n, x, y);
    }
}

proof fn lemma_connected_one_way(
    e1: Set<(int, int)>,
    e2: Set<(int, int)>,
    u: int,
    v: int,
    n: int,
    x: int,
    y: int,
)
    requires
        0 <= u < n,
        0 <= v < n,
        0 <= x < n,
        0 <= y < n,
        forall|p: int, q: int|
            0 <= p < n && 0 <= q < n ==> (connected(e1, p, q) <==> connected(e2, p, q)),
    ensures
        connected(e1.insert((u, v)), x, y) ==> connected(e2.insert((u, v)), x, y),
{
    if connected(e1.insert((u, v)), x, y) {
        lemma_connected_insert(e1, u, v, x, y);
        let f2 = e2.insert((u, v));
        lemma_connected_edge(f2, u, v);
        if connected(e1, x, y) {
            lemma_connected_subset(e2, f2, x, y);
        } else if connected(e1, x, u) && connected(e1, v, y) {
            lemma_connected_subset(e2, f2, x, u);
            lemma_connected_subset(e2, f2, v, y);
            lemma_connected_trans(f2, x, u, v);
            lemma_connected_trans(f2, x, v, y);
        } else {
            lemma_connected_subset(e2, f2, x, v);
            lemma_connected_subset(e2, f2, u, y);
            lemma_connected_sym(f2, u, v);
            lemma_connected_trans(f2, x, v, u);
            lemma_connected_trans(f2, x, u, y);
        }
    }
}

} // verus!
