use vstd::prelude::*;

use crate::connectivity::connected;
use crate::connectivity::lemma_connected_bypass;
use crate::connectivity::lemma_connected_edge;
use crate::connectivity::lemma_connected_empty;
use crate::connectivity::lemma_connected_equiv_insert;
use crate::connectivity::lemma_connected_insert;
use crate::connectivity::lemma_connected_refl;
use crate::connectivity::lemma_connected_subset;
use crate::connectivity::lemma_connected_sym;
use crate::connectivity::lemma_connected_trans;
use crate::properties::lemma_least_upto;
use crate::properties::spec_num_components;

verus! {

/// The step function that sums edge weights during a set fold.
pub open spec fn weight_acc(w: Map<(int, int), u64>) -> spec_fn(int, (int, int)) -> int {
    |acc: int, e: (int, int)| acc + w[e]
}

/// The total weight of a finite set of edges under a weight map.
pub open spec fn set_weight(s: Set<(int, int)>, w: Map<(int, int), u64>) -> int {
    s.fold(0int, weight_acc(w))
}

/// Every edge of `es` has both endpoints among the `n` vertices.
pub open spec fn endpoints_ok(es: Set<(int, int)>, n: int) -> bool {
    forall|e: (int, int)| #[trigger] es.contains(e) ==> 0 <= e.0 < n && 0 <= e.1 < n
}

/// The two edge sets connect exactly the same pairs of the `n`
/// vertices.
pub open spec fn same_connectivity(e1: Set<(int, int)>, e2: Set<(int, int)>, n: int) -> bool {
    forall|x: int, y: int|
        0 <= x < n && 0 <= y < n ==> (connected(e1, x, y) <==> connected(e2, x, y))
}

/// One greedy pass over the listed edges: an edge joins the growing
/// forest exactly when the edges taken before it do not already
/// connect its endpoints.
pub open spec fn greedy_forest(base: Set<(int, int)>, es: Seq<(int, int)>) -> Set<(int, int)>
    decreases es.len(),
{
    if es.len() == 0 {
        base
    } else {
        let g = greedy_forest(base, es.drop_last());
        let e = es.last();
        if connected(g, e.0, e.1) {
            g
        } else {
            g.insert(e)
        }
    }
}

pub proof fn lemma_set_weight_empty(w: Map<(int, int), u64>)
    ensures
        set_weight(Set::empty(), w) == 0,
{
    broadcast use vstd::set::fold::lemma_fold_empty;

}

pub proof fn lemma_set_weight_insert(s: Set<(int, int)>, w: Map<(int, int), u64>, e: (int, int))
    requires
        s.finite(),
        !s.contains(e),
    ensures
        set_weight(s.insert(e), w) == set_weight(s, w) + w[e],
{
    assert(vstd::set::fold::is_fun_commutative(weight_acc(w))) by {
        let f = weight_acc(w);
        assert forall|a1: (int, int), a2: (int, int), b: int| #[trigger]
            f(f(b, a2), a1) == f(f(b, a1), a2) by {}
    }
    vstd::set::fold::lemma_fold_insert(s, 0int, weight_acc(w), e);
}

/// The weight of a disjoint union is the sum of the weights.
pub proof fn lemma_set_weight_disjoint(
    s1: Set<(int, int)>,
    s2: Set<(int, int)>,
    w: Map<(int, int), u64>,
)
    requires
        s1.finite(),
        s2.finite(),
        s1.disjoint(s2),
    ensures
        set_weight(s1.union(s2), w) == set_weight(s1, w) + set_weight(s2, w),
    decreases s2.len(),
{
    if s2.len() == 0 {
        assert(s2 =~= Set::empty());
        assert(s1.union(s2) =~= s1);
        lemma_set_weight_empty(w);
    } else {
        let e = s2.choose();
        assert(s2.contains(e));
        let s2r = s2.remove(e);
        lemma_set_weight_disjoint(s1, s2r, w);
        assert(s1.union(s2) =~= s1.union(s2r).insert(e));
        assert(!s1.union(s2r).contains(e));
        lemma_set_weight_insert(s1.union(s2r), w, e);
        lemma_set_weight_insert(s2r, w, e);
        assert(s2r.insert(e) =~= s2);
    }
}

/// Sets with the same connectivity over the `n` vertices have the same
/// number of components.
pub proof fn lemma_components_congruent(e1: Set<(int, int)>, e2: Set<(int, int)>, n: int)
    requires
        same_connectivity(e1, e2, n),
    ensures
        spec_num_components(e1, n) == spec_num_components(e2, n),
{
    let m1 = Set::new(
        |x: int| 0 <= x < n && (forall|y: int| 0 <= y < x ==> !connected(e1, x, y)),
    );
    let m2 = Set::new(
        |x: int| 0 <= x < n && (forall|y: int| 0 <= y < x ==> !connected(e2, x, y)),
    );
    assert forall|x: int| m1.contains(x) implies m2.contains(x) by {
        assert forall|y: int| 0 <= y < x implies !connected(e2, x, y) by {
            assert(!connected(e1, x, y));
        }
    }
    assert forall|x: int| m2.contains(x) implies m1.contains(x) by {
        assert forall|y: int| 0 <= y < x implies !connected(e1, x, y) by {
            assert(!connected(e2, x, y));
        }
    }
    assert(m1 =~= m2);
}

/// With no edges, every vertex is its own component.
pub proof fn lemma_components_empty(n: int)
    requires
        n >= 0,
    ensures
        spec_num_components(Set::empty(), n) == n,
{
    let es = Set::<(int, int)>::empty();
    let m = Set::new(
        |x: int| 0 <= x < n && (forall|y: int| 0 <= y < x ==> !connected(es, x, y)),
    );
    assert forall|x: int| vstd::set_lib::set_int_range(0, n).contains(x) implies m.contains(
        x,
    ) by {
        assert forall|y: int| 0 <= y < x implies !connected(es, x, y) by {
            if connected(es, x, y) {
                lemma_connected_empty(x, y);
            }
        }
    }
    assert(m =~= vstd::set_lib::set_int_range(0, n));
    vstd::set_lib::lemma_int_range(0, n);
}

/// Adding edges never raises the number of components.
pub proof fn lemma_components_mono(e1: Set<(int, int)>, e2: Set<(int, int)>, n: int)
    requires
        e1.subset_of(e2),
    ensures
        spec_num_components(e2, n) <= spec_num_components(e1, n),
{
    let m1 = Set::new(
        |x: int| 0 <= x < n && (forall|y: int| 0 <= y < x ==> !connected(e1, x, y)),
    );
    let m2 = Set::new(
        |x: int| 0 <= x < n && (forall|y: int| 0 <= y < x ==> !connected(e2, x, y)),
    );
    assert forall|x: int| m2.contains(x) implies m1.contains(x) by {
        assert forall|y: int| 0 <= y < x implies !connected(e1, x, y) by {
            if connected(e1, x, y) {
                lemma_connected_subset(e1, e2, x, y);
            }
        }
    }
    if n >= 0 {
        vstd::set_lib::lemma_int_range(0, n);
        vstd::set_lib::lemma_len_subset(m1, vstd::set_lib::set_int_range(0, n));
        vstd::set_lib::lemma_len_subset(m2, m1);
    } else {
        assert(m1 =~= Set::<int>::empty());
        assert(m2 =~= Set::<int>::empty());
    }
}

// the least vertex connected to `r` is minimal in its own component
proof fn lemma_least_is_minimum(es: Set<(int, int)>, r: int, m: int, n: int)
    requires
        0 <= m < n,
        connected(es, m, r),
        forall|y: int| 0 <= y < m ==> !connected(es, y, r),
    ensures
        forall|y: int| 0 <= y < m ==> !connected(es, m, y),
{
    assert forall|y: int| 0 <= y < m implies !connected(es, m, y) by {
        if connected(es, m, y) {
            lemma_connected_sym(es, m, y);
            lemma_connected_trans(es, y, m, r);
        }
    }
}

/// Inserting an edge between connected endpoints keeps the component
/// count; between unconnected endpoints it lowers it by exactly one.
pub proof fn lemma_components_insert(es: Set<(int, int)>, e: (int, int), n: int)
    requires
        0 <= e.0 < n,
        0 <= e.1 < n,
    ensures
        connected(es, e.0, e.1) ==> spec_num_components(es.insert(e), n)
            == spec_num_components(es, n),
        !connected(es, e.0, e.1) ==> spec_num_components(es.insert(e), n)
            == spec_num_components(es, n) - 1,
{
    let m1 = Set::new(
        |x: int| 0 <= x < n && (forall|y: int| 0 <= y < x ==> !connected(es, x, y)),
    );
    let m2 = Set::new(
        |x: int|
            0 <= x < n && (forall|y: int| 0 <= y < x ==> !connected(es.insert(e), x, y)),
    );
    assert(e == (e.0, e.1));
    if connected(es, e.0, e.1) {
        // the new edge is bypassed: connectivity does not change
        assert forall|x: int, y: int|
            0 <= x < n && 0 <= y < n implies (connected(es, x, y) <==> connected(
            es.insert(e),
            x,
            y,
        )) by {
            if connected(es.insert(e), x, y) {
                lemma_connected_bypass(es, e.0, e.1, x, y);
            }
            if connected(es, x, y) {
                lemma_connected_subset(es, es.insert(e), x, y);
            }
        }
        lemma_components_congruent(es, es.insert(e), n);
    } else {
        // the least vertices of the two merged components
        lemma_connected_refl(es, e.0);
        lemma_connected_refl(es, e.1);
        assert(0 <= e.0 <= e.0 && connected(es, e.0, e.0));
        assert(0 <= e.1 <= e.1 && connected(es, e.1, e.1));
        lemma_least_upto(es, e.0, e.0);
        lemma_least_upto(es, e.1, e.1);
        let mx = choose|x: int|
            0 <= x <= e.0 && connected(es, x, e.0) && (forall|y: int|
                0 <= y < x ==> !connected(es, y, e.0));
        let my = choose|x: int|
            0 <= x <= e.1 && connected(es, x, e.1) && (forall|y: int|
                0 <= y < x ==> !connected(es, y, e.1));
        lemma_least_is_minimum(es, e.0, mx, n);
        lemma_least_is_minimum(es, e.1, my, n);
        assert(m1.contains(mx));
        assert(m1.contains(my));
        assert(mx != my) by {
            if mx == my {
                lemma_connected_sym(es, mx, e.0);
                lemma_connected_trans(es, e.0, mx, e.1);
            }
        }
        let lo = if mx < my {
            mx
        } else {
            my
        };
        let hi = if mx < my {
            my
        } else {
            mx
        };
        // in the joined graph, the larger minimum loses its class
        assert(connected(es.insert(e), hi, lo)) by {
            let f = es.insert(e);
            lemma_connected_edge(f, e.0, e.1);
            lemma_connected_subset(es, f, mx, e.0);
            lemma_connected_subset(es, f, my, e.1);
            lemma_connected_sym(f, my, e.1);
            lemma_connected_trans(f, mx, e.0, e.1);
            lemma_connected_trans(f, mx, e.1, my);
            // mx is connected to my in the joined graph
            if mx < my {
                lemma_connected_sym(f, mx, my);
            }
        }
        assert(!m2.contains(hi));
        assert forall|z: int| m1.contains(z) && z != hi implies m2.contains(z) by {
            assert forall|y: int| 0 <= y < z implies !connected(es.insert(e), z, y) by {
                if connected(es.insert(e), z, y) {
                    lemma_connected_insert(es, e.0, e.1, z, y);
                    if connected(es, z, y) {
                    } else if connected(es, z, e.0) && connected(es, e.1, y) {
                        // z is the least vertex of the first component
                        lemma_connected_sym(es, mx, e.0);
                        lemma_connected_trans(es, z, e.0, mx);
                        assert(z == mx);
                        // and y belongs to the second, so my < mx = hi
                        assert(my <= y) by {
                            if y < my {
                                lemma_connected_sym(es, e.1, y);
                            }
                        }
                        assert(hi == mx);
                    } else {
                        assert(connected(es, z, e.1) && connected(es, e.0, y));
                        lemma_connected_sym(es, my, e.1);
                        lemma_connected_trans(es, z, e.1, my);
                        assert(z == my);
                        assert(mx <= y) by {
                            if y < mx {
                                lemma_connected_sym(es, e.0, y);
                            }
                        }
                        assert(hi == my);
                    }
                }
            }
        }
        assert forall|z: int| m2.contains(z) implies m1.contains(z) && z != hi by {
            assert forall|y: int| 0 <= y < z implies !connected(es, z, y) by {
                if connected(es, z, y) {
                    lemma_connected_subset(es, es.insert(e), z, y);
                }
            }
        }
        assert(m2 =~= m1.remove(hi));
        vstd::set_lib::lemma_int_range(0, n);
        vstd::set_lib::lemma_len_subset(m1, vstd::set_lib::set_int_range(0, n));
    }
}

/// A spanning edge set has exactly one component.
pub proof fn lemma_spans_components(es: Set<(int, int)>, n: int)
    requires
        n >= 1,
        crate::properties::spans(es, n),
    ensures
        spec_num_components(es, n) == 1,
{
    let m = Set::new(
        |x: int| 0 <= x < n && (forall|y: int| 0 <= y < x ==> !connected(es, x, y)),
    );
    assert(m.contains(0));
    assert forall|x: int| #[trigger] m.contains(x) implies x == 0 by {
        if x > 0 {
            assert(connected(es, x, 0));
        }
    }
    assert(m =~= Set::empty().insert(0));
}

/// No edge set has fewer than `n` minus its size components.
pub proof fn lemma_components_lower(es: Set<(int, int)>, n: int)
    requires
        n >= 0,
        es.finite(),
        endpoints_ok(es, n),
    ensures
        spec_num_components(es, n) >= n - es.len(),
    decreases es.len(),
{
    if es.len() == 0 {
        assert(es =~= Set::empty());
        lemma_components_empty(n);
    } else {
        let e = es.choose();
        assert(es.contains(e));
        let esr = es.remove(e);
        lemma_components_lower(esr, n);
        assert(es =~= esr.insert(e));
        lemma_components_insert(esr, e, n);
    }
}

/// Removing edges from a set raises the component count by at most the
/// number removed.
pub proof fn lemma_components_drop(a: Set<(int, int)>, b: Set<(int, int)>, n: int)
    requires
        n >= 0,
        b.finite(),
        a.subset_of(b),
        endpoints_ok(b, n),
    ensures
        spec_num_components(a, n) <= spec_num_components(b, n) + (b.len() - a.len()),
    decreases b.len(),
{
    vstd::set_lib::lemma_len_subset(a, b);
    if exists|e: (int, int)| #[trigger] b.contains(e) && !a.contains(e) {
        let e = choose|e: (int, int)| #[trigger] b.contains(e) && !a.contains(e);
        let br = b.remove(e);
        lemma_components_drop(a, br, n);
        assert(b =~= br.insert(e));
        lemma_components_insert(br, e, n);
    } else {
        assert(a =~= b);
    }
}

/// A subset of a forest is itself a forest.
pub proof fn lemma_subforest(a: Set<(int, int)>, b: Set<(int, int)>, n: int)
    requires
        n >= 0,
        b.finite(),
        a.subset_of(b),
        endpoints_ok(b, n),
        spec_num_components(b, n) == n - b.len(),
    ensures
        a.finite(),
        spec_num_components(a, n) == n - a.len(),
    decreases b.len(),
{
    vstd::set_lib::lemma_len_subset(a, b);
    lemma_components_lower(a, n);
    lemma_components_drop(a, b, n);
}

/// What the greedy pass keeps lies between its base and all the listed
/// edges.
pub proof fn lemma_greedy_subset(base: Set<(int, int)>, es: Seq<(int, int)>)
    ensures
        base.subset_of(greedy_forest(base, es)),
        greedy_forest(base, es).subset_of(base.union(es.to_set())),
    decreases es.len(),
{
    broadcast use vstd::seq_lib::group_seq_properties;

    if es.len() > 0 {
        lemma_greedy_subset(base, es.drop_last());
        assert(es.drop_last().to_set().subset_of(es.to_set())) by {
            assert forall|e: (int, int)| #[trigger]
                es.drop_last().to_set().contains(e) implies es.to_set().contains(e) by {
                let q = choose|q: int| 0 <= q < es.len() - 1 && es.drop_last()[q] == e;
                assert(es[q] == e);
            }
        }
        assert(es.to_set().contains(es.last()));
    }
}

/// Growing a greedy forest over two lists in turn equals growing it
/// over their concatenation.
pub proof fn lemma_greedy_concat(base: Set<(int, int)>, es1: Seq<(int, int)>, es2: Seq<(int, int)>)
    ensures
        greedy_forest(base, es1 + es2) == greedy_forest(greedy_forest(base, es1), es2),
    decreases es2.len(),
{
    if es2.len() == 0 {
        assert(es1 + es2 =~= es1);
    } else {
        lemma_greedy_concat(base, es1, es2.drop_last());
        assert((es1 + es2).drop_last() =~= es1 + es2.drop_last());
        assert((es1 + es2).last() == es2.last());
    }
}

/// The structure of a greedy forest: it is a forest over the union of
/// its base and the listed edges, it keeps their connectivity exactly,
/// and it connects the endpoints of every edge it leaves out.
pub proof fn lemma_greedy_props(base: Set<(int, int)>, es: Seq<(int, int)>, n: int)
    requires
        n >= 0,
        base.finite(),
        endpoints_ok(base, n),
        endpoints_ok(es.to_set(), n),
        spec_num_components(base, n) == n - base.len(),
    ensures
        greedy_forest(base, es).finite(),
        spec_num_components(greedy_forest(base, es), n) == n - greedy_forest(base, es).len(),
        same_connectivity(greedy_forest(base, es), base.union(es.to_set()), n),
        spec_num_components(base.union(es.to_set()), n) == n - greedy_forest(base, es).len(),
        forall|e: (int, int)|
            (#[trigger] base.union(es.to_set()).contains(e)) && !greedy_forest(
                base,
                es,
            ).contains(e) ==> connected(greedy_forest(base, es), e.0, e.1),
    decreases es.len(),
{
    broadcast use vstd::seq_lib::group_seq_properties;

    lemma_greedy_subset(base, es);
    if es.len() == 0 {
        assert(base.union(es.to_set()) =~= base);
        lemma_components_congruent(greedy_forest(base, es), base.union(es.to_set()), n);
    } else {
        let tail = es.drop_last();
        let e = es.last();
        let gp = greedy_forest(base, tail);
        let g = greedy_forest(base, es);
        assert(endpoints_ok(tail.to_set(), n)) by {
            assert forall|q: (int, int)| #[trigger]
                tail.to_set().contains(q) implies 0 <= q.0 < n && 0 <= q.1 < n by {
                let k = choose|k: int| 0 <= k < tail.len() && tail[k] == q;
                assert(es[k] == q);
                assert(es.to_set().contains(q));
            }
        }
        lemma_greedy_props(base, tail, n);
        lemma_greedy_subset(base, tail);
        let pp = base.union(tail.to_set());
        let pe = base.union(es.to_set());
        assert(es.to_set().contains(e));
        assert(pe =~= pp.insert(e)) by {
            assert forall|q: (int, int)| #[trigger] pe.contains(q) implies pp.insert(e).contains(
                q,
            ) by {
                if q != e && !base.contains(q) {
                    let k = choose|k: int| 0 <= k < es.len() && es[k] == q;
                    assert(k < es.len() - 1);
                    assert(tail[k] == q);
                    assert(tail.to_set().contains(q));
                }
            }
            assert forall|q: (int, int)| #[trigger]
                pp.insert(e).contains(q) implies pe.contains(q) by {
                if q != e && !base.contains(q) {
                    let k = choose|k: int| 0 <= k < tail.len() && tail[k] == q;
                    assert(es[k] == q);
                    assert(es.to_set().contains(q));
                }
            }
        }
        assert(0 <= e.0 < n && 0 <= e.1 < n);
        if connected(gp, e.0, e.1) {
            assert(g == gp);
            // the edge is bypassed on both sides of the equivalence
            assert(connected(pp, e.0, e.1));
            lemma_components_insert(pp, e, n);
            assert forall|x: int, y: int|
                0 <= x < n && 0 <= y < n implies (connected(g, x, y) <==> connected(
                pe,
                x,
                y,
            )) by {
                if connected(pe, x, y) {
                    lemma_connected_bypass(pp, e.0, e.1, x, y);
                }
                if connected(g, x, y) {
                    lemma_connected_subset(pp, pe, x, y);
                }
            }
            assert forall|q: (int, int)|
                (#[trigger] pe.contains(q)) && !g.contains(q) implies connected(
                g,
                q.0,
                q.1,
            ) by {
                if q != e {
                    assert(pp.contains(q));
                }
            }
        } else {
            assert(g == gp.insert(e));
            assert(!connected(pp, e.0, e.1));
            assert(!gp.contains(e)) by {
                if gp.contains(e) {
                    lemma_connected_edge(gp, e.0, e.1);
                    assert(e == (e.0, e.1));
                }
            }
            lemma_components_insert(gp, e, n);
            lemma_components_insert(pp, e, n);
            lemma_connected_equiv_insert(gp, pp, e.0, e.1, n);
            assert(gp.insert(e) == gp.insert((e.0, e.1)));
            assert(pp.insert(e) == pp.insert((e.0, e.1)));
            assert forall|q: (int, int)|
                (#[trigger] pe.contains(q)) && !g.contains(q) implies connected(
                g,
                q.0,
                q.1,
            ) by {
                assert(q != e);
                assert(pp.contains(q));
                assert(connected(gp, q.0, q.1));
                lemma_connected_subset(gp, g, q.0, q.1);
            }
        }
    }
}

/// Cutting the edge list after `k` entries cuts the greedy forest to
/// the part drawn from those entries.
pub proof fn lemma_greedy_prefix(base: Set<(int, int)>, es: Seq<(int, int)>, k: int)
    requires
        0 <= k <= es.len(),
        es.no_duplicates(),
        base.disjoint(es.to_set()),
    ensures
        greedy_forest(base, es).intersect(base.union(es.take(k).to_set())) == greedy_forest(
            base,
            es.take(k),
        ),
    decreases es.len(),
{
    lemma_greedy_subset(base, es);
    if k == es.len() {
        assert(es.take(k) =~= es);
        assert(greedy_forest(base, es).intersect(base.union(es.take(k).to_set()))
            =~= greedy_forest(base, es));
    } else {
        let tail = es.drop_last();
        let e = es.last();
        assert(tail.no_duplicates()) by {
            assert forall|i: int, j: int|
                0 <= i < j < tail.len() implies tail[i] != tail[j] by {
                assert(es[i] == tail[i] && es[j] == tail[j]);
            }
        }
        assert(base.disjoint(tail.to_set())) by {
            assert forall|q: (int, int)| #[trigger]
                tail.to_set().contains(q) implies !base.contains(q) by {
                let i = choose|i: int| 0 <= i < tail.len() && tail[i] == q;
                assert(es[i] == q);
                assert(es.to_set().contains(q));
            }
        }
        lemma_greedy_prefix(base, tail, k);
        assert(es.take(k) =~= tail.take(k));
        let pk = base.union(es.take(k).to_set());
        assert(base.union(tail.take(k).to_set()) == pk);
        assert(!pk.contains(e)) by {
            assert(es.to_set().contains(e));
            if es.take(k).to_set().contains(e) {
                let i = choose|i: int| 0 <= i < k && es.take(k)[i] == e;
                assert(es[i] == e && es[es.len() - 1] == e);
            }
        }
        let gp = greedy_forest(base, tail);
        if connected(gp, e.0, e.1) {
            assert(greedy_forest(base, es) == gp);
        } else {
            assert(greedy_forest(base, es) == gp.insert(e));
            assert(gp.insert(e).intersect(pk) =~= gp.intersect(pk));
        }
    }
}

/// Between two selections from a cost-sorted list where the first
/// selection never falls behind in any prefix, the first selection is
/// the cheaper one, up to its surplus priced at the largest cost.
pub proof fn lemma_sum_dominance(
    es: Seq<(int, int)>,
    a: Set<(int, int)>,
    b: Set<(int, int)>,
    w: Map<(int, int), u64>,
    d: int,
)
    requires
        es.no_duplicates(),
        forall|i: int, j: int| 0 <= i < j < es.len() ==> w[es[i]] <= w[es[j]],
        a.subset_of(es.to_set()),
        b.subset_of(es.to_set()),
        d == a.len() - b.len(),
        d >= 0,
        forall|k: int|
            0 <= k <= es.len() ==> a.intersect(es.take(k).to_set()).len() >= b.intersect(
                es.take(k).to_set(),
            ).len(),
    ensures
        set_weight(a, w) <= set_weight(b, w) + d * (if es.len() == 0 {
            0int
        } else {
            w[es.last()] as int
        }),
    decreases es.len(),
{
    broadcast use vstd::seq_lib::seq_to_set_is_finite;

    vstd::set_lib::lemma_len_subset(a, es.to_set());
    vstd::set_lib::lemma_len_subset(b, es.to_set());
    if es.len() == 0 {
        assert(a =~= Set::empty());
        assert(b =~= Set::empty());
        lemma_set_weight_empty(w);
    } else {
        let e = es.last();
        let tail = es.drop_last();
        let we = w[e] as int;
        assert(tail.no_duplicates()) by {
            assert forall|i: int, j: int|
                0 <= i < j < tail.len() implies tail[i] != tail[j] by {
                assert(es[i] == tail[i] && es[j] == tail[j]);
            }
        }
        assert(forall|i: int, j: int|
            0 <= i < j < tail.len() ==> w[tail[i]] <= w[tail[j]]) by {
            assert forall|i: int, j: int|
                0 <= i < j < tail.len() implies w[tail[i]] <= w[tail[j]] by {
                assert(es[i] == tail[i] && es[j] == tail[j]);
            }
        }
        // the last entry is the only one beyond the prefix of the rest
        assert(es.to_set() =~= tail.to_set().insert(e)) by {
            assert forall|q: (int, int)| #[trigger]
                es.to_set().contains(q) implies tail.to_set().insert(e).contains(q) by {
                let i = choose|i: int| 0 <= i < es.len() && es[i] == q;
                if i < es.len() - 1 {
                    assert(tail[i] == q);
                }
            }
            assert forall|q: (int, int)| #[trigger]
                tail.to_set().insert(e).contains(q) implies es.to_set().contains(q) by {
                if q != e {
                    let i = choose|i: int| 0 <= i < tail.len() && tail[i] == q;
                    assert(es[i] == q);
                }
            }
        }
        assert(!tail.to_set().contains(e)) by {
            if tail.to_set().contains(e) {
                let i = choose|i: int| 0 <= i < tail.len() && tail[i] == e;
                assert(es[i] == e && es[es.len() - 1] == e);
            }
        }
        assert(es.take(es.len() - 1) =~= tail);
        // prefixes of the shorter list select the same elements
        assert(forall|k: int|
            0 <= k <= tail.len() ==> es.take(k) =~= #[trigger] tail.take(k));
        let ar = a.remove(e);
        let br = b.remove(e);
        assert(a.intersect(tail.to_set()) =~= (if a.contains(e) {
            ar
        } else {
            a
        }));
        assert(b.intersect(tail.to_set()) =~= (if b.contains(e) {
            br
        } else {
            b
        }));
        assert(forall|k: int|
            0 <= k <= tail.len() ==> ar.intersect(#[trigger] tail.take(k).to_set())
                =~= a.intersect(tail.take(k).to_set())) by {
            assert forall|k: int| 0 <= k <= tail.len() implies ar.intersect(
                #[trigger] tail.take(k).to_set(),
            ) =~= a.intersect(tail.take(k).to_set()) by {
                if tail.take(k).to_set().contains(e) {
                    let i = choose|i: int| 0 <= i < k && tail.take(k)[i] == e;
                    assert(es[i] == e && es[es.len() - 1] == e);
                }
            }
        }
        assert(forall|k: int|
            0 <= k <= tail.len() ==> br.intersect(#[trigger] tail.take(k).to_set())
                =~= b.intersect(tail.take(k).to_set())) by {
            assert forall|k: int| 0 <= k <= tail.len() implies br.intersect(
                #[trigger] tail.take(k).to_set(),
            ) =~= b.intersect(tail.take(k).to_set()) by {
                if tail.take(k).to_set().contains(e) {
                    let i = choose|i: int| 0 <= i < k && tail.take(k)[i] == e;
                    assert(es[i] == e && es[es.len() - 1] == e);
                }
            }
        }
        let wtl: int = if tail.len() == 0 {
            0int
        } else {
            w[tail.last()] as int
        };
        assert(wtl <= we) by {
            if tail.len() > 0 {
                assert(tail[tail.len() - 1] == es[es.len() - 2]);
                assert(w[es[es.len() - 2]] <= w[es[es.len() - 1]]);
            }
        }
        if a.contains(e) {
            // the prefix rule forces the cheaper selection to keep `e` too
            assert(a.intersect(tail.to_set()).len() >= b.intersect(tail.to_set()).len());
            lemma_set_weight_insert(ar, w, e);
            assert(ar.insert(e) =~= a);
            if b.contains(e) {
                lemma_set_weight_insert(br, w, e);
                assert(br.insert(e) =~= b);
                lemma_sum_dominance(tail, ar, br, w, d);
                assert(d * wtl <= d * we) by (nonlinear_arith)
                    requires
                        d >= 0,
                        wtl <= we,
                ;
            } else {
                assert(ar.len() >= b.len());
                assert(d >= 1);
                lemma_sum_dominance(tail, ar, b, w, d - 1);
                assert((d - 1) * wtl <= (d - 1) * we) by (nonlinear_arith)
                    requires
                        d - 1 >= 0,
                        wtl <= we,
                ;
                assert((d - 1) * we + we == d * we) by (nonlinear_arith);
            }
        } else {
            if b.contains(e) {
                lemma_set_weight_insert(br, w, e);
                assert(br.insert(e) =~= b);
                lemma_sum_dominance(tail, a, br, w, d + 1);
                assert((d + 1) * wtl <= (d + 1) * we) by (nonlinear_arith)
                    requires
                        d + 1 >= 0,
                        wtl <= we,
                ;
                assert((d + 1) * we - we == d * we) by (nonlinear_arith);
            } else {
                lemma_sum_dominance(tail, a, b, w, d);
                assert(d * wtl <= d * we) by (nonlinear_arith)
                    requires
                        d >= 0,
                        wtl <= we,
                ;
            }
        }
    }
}

/// The size of a disjoint union is the sum of the sizes.
pub proof fn lemma_len_disjoint_union<A>(s1: Set<A>, s2: Set<A>)
    requires
        s1.finite(),
        s2.finite(),
        s1.disjoint(s2),
    ensures
        s1.union(s2).len() == s1.len() + s2.len(),
    decreases s2.len(),
{
    if s2.len() == 0 {
        assert(s2 =~= Set::empty());
        assert(s1.union(s2) =~= s1);
    } else {
        let e = s2.choose();
        assert(s2.contains(e));
        let s2r = s2.remove(e);
        lemma_len_disjoint_union(s1, s2r);
        assert(s1.union(s2) =~= s1.union(s2r).insert(e));
        assert(!s1.union(s2r).contains(e));
    }
}

/// The greedy forest grown over the forced edges and then over the
/// remaining edges in nondecreasing weight order weighs no more than
/// any other forest of the same edges that contains the kept forced
/// part and spans as much: Kruskal's exchange property, in counting
/// form.
pub proof fn lemma_greedy_minimal(
    fs: Seq<(int, int)>,
    rs: Seq<(int, int)>,
    s: Set<(int, int)>,
    w: Map<(int, int), u64>,
    n: int,
)
    requires
        n >= 0,
        fs.no_duplicates(),
        rs.no_duplicates(),
        fs.to_set().disjoint(rs.to_set()),
        endpoints_ok(fs.to_set(), n),
        endpoints_ok(rs.to_set(), n),
        forall|i: int, j: int| 0 <= i < j < rs.len() ==> w[rs[i]] <= w[rs[j]],
        s.subset_of(fs.to_set().union(rs.to_set())),
        greedy_forest(Set::empty(), fs).subset_of(s),
        spec_num_components(s, n) == n - s.len(),
        spec_num_components(s, n) == spec_num_components(
            fs.to_set().union(rs.to_set()),
            n,
        ),
    ensures
        set_weight(greedy_forest(Set::empty(), fs + rs), w) <= set_weight(s, w),
{
    broadcast use vstd::seq_lib::seq_to_set_is_finite;
    broadcast use vstd::seq_lib::group_seq_properties;

    let fsset = fs.to_set();
    let rsset = rs.to_set();
    let cands = fsset.union(rsset);
    let cs = fs + rs;
    assert(cs.to_set() =~= cands);
    assert(endpoints_ok(cands, n));
    assert(cs.no_duplicates()) by {
        assert forall|i: int, j: int| 0 <= i < j < cs.len() implies cs[i] != cs[j] by {
            if i < fs.len() && j >= fs.len() {
                assert(cs[i] == fs[i] && cs[j] == rs[j - fs.len()]);
                assert(fsset.contains(fs[i]) && rsset.contains(rs[j - fs.len()]));
            }
        }
    }
    let empty = Set::<(int, int)>::empty();
    let fhat = greedy_forest(empty, fs);
    let t = greedy_forest(empty, cs);
    lemma_greedy_concat(empty, fs, rs);
    assert(t == greedy_forest(fhat, rs));
    lemma_components_empty(n);
    assert(empty.union(fsset) =~= fsset);
    assert(empty.union(cands) =~= cands);
    lemma_greedy_props(empty, fs, n);
    lemma_greedy_subset(empty, fs);
    assert(fhat.subset_of(fsset));
    lemma_greedy_props(empty, cs, n);
    lemma_greedy_subset(empty, cs);
    assert(t.subset_of(cands));
    vstd::set_lib::lemma_len_subset(s, cands);
    assert(s.len() == t.len());
    // the given forest keeps exactly the kept forced part: any other
    // forced edge would close a cycle inside it
    assert(s.intersect(fsset) =~= fhat) by {
        assert forall|q: (int, int)| #[trigger]
            s.intersect(fsset).contains(q) implies fhat.contains(q) by {
            if !fhat.contains(q) {
                assert(connected(fhat, q.0, q.1));
                assert(0 <= q.0 < n && 0 <= q.1 < n);
                let sr = s.remove(q);
                assert(fhat.subset_of(sr));
                lemma_connected_subset(fhat, sr, q.0, q.1);
                assert(s =~= sr.insert(q));
                lemma_components_insert(sr, q, n);
                assert(endpoints_ok(sr, n));
                vstd::set_lib::lemma_len_subset(sr, s);
                lemma_components_lower(sr, n);
            }
        }
    }
    assert(t.intersect(fsset) =~= fhat) by {
        lemma_greedy_subset(fhat, rs);
        assert forall|q: (int, int)| #[trigger]
            t.intersect(fsset).contains(q) implies fhat.contains(q) by {
            assert(fhat.union(rsset).contains(q));
        }
    }
    let a = t.difference(fsset);
    let b = s.difference(fsset);
    assert(a.subset_of(rsset));
    assert(b.subset_of(rsset));
    vstd::set_lib::lemma_len_subset(a, rsset);
    vstd::set_lib::lemma_len_subset(b, rsset);
    vstd::set_lib::lemma_len_subset(fhat, fsset);
    assert(t =~= fhat.union(a));
    assert(s =~= fhat.union(b));
    assert(fhat.disjoint(a));
    assert(fhat.disjoint(b));
    lemma_len_disjoint_union(fhat, a);
    lemma_len_disjoint_union(fhat, b);
    assert(a.len() == b.len());
    // in every weight prefix the greedy forest keeps at least as many
    // edges as the given forest: both are forests below the prefix's
    // component count, and the greedy one meets it exactly
    assert forall|k: int| 0 <= k <= rs.len() implies a.intersect(
        #[trigger] rs.take(k).to_set(),
    ).len() >= b.intersect(rs.take(k).to_set()).len() by {
        let tks = rs.take(k).to_set();
        let pcs = cs.take(fs.len() + k);
        assert(pcs =~= fs + rs.take(k));
        let pset = fsset.union(tks);
        assert(pcs.to_set() =~= pset);
        lemma_greedy_prefix(empty, cs, fs.len() + k);
        assert(empty.union(pcs.to_set()) =~= pset);
        assert(t.intersect(pset) == greedy_forest(empty, pcs));
        assert(tks.subset_of(rsset)) by {
            assert forall|q: (int, int)| #[trigger] tks.contains(q) implies rsset.contains(
                q,
            ) by {
                let i = choose|i: int| 0 <= i < k && rs.take(k)[i] == q;
                assert(rs[i] == q);
            }
        }
        assert(endpoints_ok(pset, n));
        lemma_greedy_props(empty, pcs, n);
        assert(t.intersect(pset).len() == n - spec_num_components(pset, n));
        lemma_subforest(s.intersect(pset), s, n);
        lemma_components_mono(s.intersect(pset), pset, n);
        assert(s.intersect(pset).len() <= n - spec_num_components(pset, n));
        assert(t.intersect(pset) =~= fhat.union(a.intersect(tks)));
        assert(s.intersect(pset) =~= fhat.union(b.intersect(tks)));
        vstd::set_lib::lemma_len_subset(a.intersect(tks), a);
        vstd::set_lib::lemma_len_subset(b.intersect(tks), b);
        assert(fhat.disjoint(a.intersect(tks)));
        assert(fhat.disjoint(b.intersect(tks)));
        lemma_len_disjoint_union(fhat, a.intersect(tks));
        lemma_len_disjoint_union(fhat, b.intersect(tks));
    }
    lemma_sum_dominance(rs, a, b, w, 0);
    lemma_set_weight_disjoint(fhat, a, w);
    lemma_set_weight_disjoint(fhat, b, w);
    assert(set_weight(t, w) == set_weight(fhat, w) + set_weight(a, w));
    assert(set_weight(s, w) == set_weight(fhat, w) + set_weight(b, w));
}

} // verus!
