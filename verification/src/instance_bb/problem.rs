use vstd::prelude::*;

use std::sync::Arc;

use crate::algorithms::custom_kruskal;
use crate::algorithms::kruskal;
use crate::algorithms::kruskal_candidates;
use crate::branch_bound::traits::BBProblem;
use crate::branch_bound::traits::Solution as SolutionContract;
use crate::branch_bound::traits::SolutionCost;
use crate::edge_set::EdgeSet;
use crate::graph::Graph;
use crate::instance::Instance;
use crate::instance_bb::edge::edge_view;
use crate::instance_bb::edge::edge_view_set;
use crate::instance_bb::edge::edge_views;
use crate::instance_bb::edge::Edge;
use crate::instance_bb::edge::EdgeWeight;
use crate::minimality::lemma_set_weight_empty;
use crate::minimality::lemma_set_weight_insert;
use crate::minimality::lemma_spans_components;
use crate::minimality::set_weight;
use crate::properties::is_spanning_tree;
use crate::properties::spans;
use crate::traits::pair_view;
use crate::traits::pairs_view;
use crate::traits::GraphImpl;

verus! {

/// The root problem: an instance together with the two directions of
/// the correspondence between its edges and the dependency digraph's
/// vertices, which number the edges in canonical order.
pub struct BaseProblem {
    instance: Arc<Instance>,
    index_to_edge: Vec<Edge>,
}

impl BaseProblem {
    pub closed spec fn spec_instance(&self) -> Instance {
        *self.instance
    }

    /// The edge standing for each dependency vertex.
    pub closed spec fn spec_index_to_edge(&self) -> Seq<Edge> {
        self.index_to_edge@
    }

    /// The dependency vertex standing for the edge `e`.
    pub open spec fn spec_index_of(&self, e: Edge) -> int {
        choose|k: int|
            0 <= k < self.spec_index_to_edge().len() && edge_view(
                self.spec_index_to_edge()[k],
            ) == edge_view(e)
    }

    pub closed spec fn wf(&self) -> bool {
        &&& self.instance.wf()
        &&& self.index_to_edge@.len() == self.instance.spec_graph().edge_set().len()
        &&& (forall|k1: int, k2: int|
            0 <= k1 < k2 < self.index_to_edge@.len() ==> crate::traits::lex_lt(
                edge_view(#[trigger] self.index_to_edge@[k1]),
                edge_view(#[trigger] self.index_to_edge@[k2]),
            ))
        &&& (forall|k1: int, k2: int|
            0 <= k1 < k2 < self.index_to_edge@.len() ==> edge_view(
                #[trigger] self.index_to_edge@[k1],
            ) != edge_view(#[trigger] self.index_to_edge@[k2]))
        &&& (forall|k: int|
            0 <= k < self.index_to_edge@.len()
                ==> self.instance.spec_graph().edge_set().contains(edge_view(
                #[trigger] self.index_to_edge@[k],
            )))
        &&& (forall|e: (int, int)| #[trigger]
            self.instance.spec_graph().edge_set().contains(e) ==> exists|k: int|
                0 <= k < self.index_to_edge@.len() && edge_view(
                    #[trigger] self.index_to_edge@[k],
                ) == e)
    }

    /// Exposes the correspondence between edges and dependency
    /// vertices.
    pub proof fn lemma_wf(&self)
        requires
            self.wf(),
        ensures
            self.spec_instance().wf(),
            self.spec_index_to_edge().len() == self.spec_instance(
            ).spec_graph().edge_set().len(),
            forall|k1: int, k2: int|
                0 <= k1 < k2 < self.spec_index_to_edge().len()
                    ==> crate::traits::lex_lt(
                    edge_view(#[trigger] self.spec_index_to_edge()[k1]),
                    edge_view(#[trigger] self.spec_index_to_edge()[k2]),
                ),
            forall|k1: int, k2: int|
                0 <= k1 < k2 < self.spec_index_to_edge().len() ==> edge_view(
                    #[trigger] self.spec_index_to_edge()[k1],
                ) != edge_view(#[trigger] self.spec_index_to_edge()[k2]),
            forall|k: int|
                0 <= k < self.spec_index_to_edge().len() ==> self.spec_instance(
                ).spec_graph().edge_set().contains(edge_view(
                    #[trigger] self.spec_index_to_edge()[k],
                )),
            forall|e: (int, int)| #[trigger]
                self.spec_instance().spec_graph().edge_set().contains(e) ==> exists|
                    k: int,
                |
                    0 <= k < self.spec_index_to_edge().len() && edge_view(
                        #[trigger] self.spec_index_to_edge()[k],
                    ) == e,
    {
    }

    /// Creates the root problem for an instance, numbering its edges in
    /// canonical order.
    pub fn new(instance: Arc<Instance>) -> (r: Self)
        requires
            instance.wf(),
        ensures
            r.wf(),
            r.spec_instance() == *instance,
    {
        proof {
            instance.lemma_wf();
        }
        let pairs = instance.graph().edges();
        let mut index_to_edge: Vec<Edge> = Vec::new();
        let mut k: usize = 0;
        while k < pairs.len()
            invariant
                instance.wf(),
                k <= pairs@.len(),
                index_to_edge@.len() == k,
                forall|m: int|
                    0 <= m < pairs@.len() ==> instance.spec_graph().edge_set().contains(
                        pair_view(#[trigger] pairs@[m]),
                    ),
                forall|m1: int, m2: int|
                    0 <= m1 < m2 < pairs@.len() ==> pair_view(#[trigger] pairs@[m1])
                        != pair_view(#[trigger] pairs@[m2]),
                forall|m: int|
                    0 <= m < k ==> edge_view(#[trigger] index_to_edge@[m]) == pair_view(
                        pairs@[m],
                    ),
            decreases pairs@.len() - k,
        {
            let (u, v) = pairs[k];
            index_to_edge.push(Edge { u, v });
            k = k + 1;
        }
        let r = Self { instance, index_to_edge };
        proof {
            assert forall|e: (int, int)| #[trigger]
                r.instance.spec_graph().edge_set().contains(e) implies exists|k: int|
                0 <= k < r.index_to_edge@.len() && edge_view(
                    #[trigger] r.index_to_edge@[k],
                ) == e by {
                let m = choose|m: int| 0 <= m < pairs@.len() && pair_view(pairs@[m]) == e;
                assert(edge_view(r.index_to_edge@[m]) == e);
            }
        }
        r
    }

    /// The instance this problem solves.
    pub fn instance(&self) -> (r: &Instance)
        ensures
            *r == self.spec_instance(),
    {
        &self.instance
    }

    /// The dependency vertex of `edge`, or `None` when `edge` is not an
    /// edge of the instance.
    pub fn edge_to_index(&self, edge: &Edge) -> (r: Option<usize>)
        requires
            self.wf(),
        ensures
            (r is Some) == self.spec_instance().spec_graph().edge_set().contains(
                edge_view(*edge),
            ),
            r matches Some(i) ==> i < self.spec_index_to_edge().len() && edge_view(
                self.spec_index_to_edge()[i as int],
            ) == edge_view(*edge) && i == self.spec_index_of(*edge),
    {
        let n = self.index_to_edge.len();
        let mut k: usize = 0;
        while k < n
            invariant
                self.wf(),
                k <= n,
                n == self.index_to_edge@.len(),
                forall|m: int|
                    0 <= m < k ==> edge_view(#[trigger] self.index_to_edge@[m])
                        != edge_view(*edge),
            decreases n - k,
        {
            let candidate = self.index_to_edge[k];
            if candidate.u == edge.u && candidate.v == edge.v {
                proof {
                    assert(edge_view(self.spec_index_to_edge()[k as int]) == edge_view(
                        *edge,
                    ));
                    let i = self.spec_index_of(*edge);
                    if i != k as int {
                        assert(edge_view(self.spec_index_to_edge()[i]) == edge_view(
                            self.spec_index_to_edge()[k as int],
                        ));
                    }
                }
                return Some(k);
            }
            k = k + 1;
        }
        proof {
            if self.spec_instance().spec_graph().edge_set().contains(edge_view(*edge)) {
                let m = choose|m: int|
                    0 <= m < self.index_to_edge@.len() && edge_view(
                        #[trigger] self.index_to_edge@[m],
                    ) == edge_view(*edge);
                assert(false);
            }
        }
        None
    }

    /// The edge standing for the dependency vertex `index`.
    pub fn index_to_edge(&self, index: usize) -> (r: Edge)
        requires
            self.wf(),
            index < self.spec_index_to_edge().len(),
        ensures
            r == self.spec_index_to_edge()[index as int],
    {
        self.index_to_edge[index]
    }
}

/// A subproblem: the root problem together with a set of edges forced
/// into every candidate tree and a disjoint set of forbidden edges.
pub struct Subproblem {
    base: Arc<BaseProblem>,
    added_edges: EdgeSet,
    removed_edges: EdgeSet,
}

impl Subproblem {
    pub closed spec fn spec_base(&self) -> BaseProblem {
        *self.base
    }

    /// The forced edges.
    pub closed spec fn spec_added(&self) -> Set<(int, int)> {
        self.added_edges.view_set()
    }

    /// The forbidden edges.
    pub closed spec fn spec_removed(&self) -> Set<(int, int)> {
        self.removed_edges.view_set()
    }

    pub closed spec fn wf(&self) -> bool {
        &&& self.base.wf()
        &&& self.added_edges.wf()
        &&& self.removed_edges.wf()
        &&& self.added_edges.view_set().subset_of(
            self.base.spec_instance().spec_graph().edge_set(),
        )
        &&& self.removed_edges.view_set().subset_of(
            self.base.spec_instance().spec_graph().edge_set(),
        )
        &&& self.added_edges.view_set().disjoint(self.removed_edges.view_set())
    }

    /// Exposes the subproblem's invariants to its users.
    pub proof fn lemma_wf(&self)
        requires
            self.wf(),
        ensures
            self.spec_base().wf(),
            self.spec_added().subset_of(
                self.spec_base().spec_instance().spec_graph().edge_set(),
            ),
            self.spec_removed().subset_of(
                self.spec_base().spec_instance().spec_graph().edge_set(),
            ),
            self.spec_added().disjoint(self.spec_removed()),
            self.spec_added().finite(),
            self.spec_removed().finite(),
    {
        self.added_edges.lemma_finite();
        self.removed_edges.lemma_finite();
    }

    /// Creates a subproblem of `base` with the given forced and
    /// forbidden edge sets.
    pub fn new(base: Arc<BaseProblem>, added_edges: EdgeSet, removed_edges: EdgeSet) -> (r:
        Self)
        requires
            base.wf(),
            added_edges.wf(),
            removed_edges.wf(),
            added_edges.view_set().subset_of(
                base.spec_instance().spec_graph().edge_set(),
            ),
            removed_edges.view_set().subset_of(
                base.spec_instance().spec_graph().edge_set(),
            ),
            added_edges.view_set().disjoint(removed_edges.view_set()),
        ensures
            r.wf(),
            r.spec_base() == *base,
            r.spec_added() == added_edges.view_set(),
            r.spec_removed() == removed_edges.view_set(),
    {
        Self { base, added_edges, removed_edges }
    }

    /// The forced edges.
    pub fn added_edges(&self) -> (r: &EdgeSet)
        requires
            self.wf(),
        ensures
            r.view_set() == self.spec_added(),
            r.wf(),
    {
        &self.added_edges
    }

    /// The forbidden edges.
    pub fn removed_edges(&self) -> (r: &EdgeSet)
        requires
            self.wf(),
        ensures
            r.view_set() == self.spec_removed(),
            r.wf(),
    {
        &self.removed_edges
    }

    /// A shared handle to the root problem.
    pub fn base(&self) -> (r: Arc<BaseProblem>)
        ensures
            *r == self.spec_base(),
    {
        Arc::clone(&self.base)
    }

    /// The subproblem of `base` with nothing forced and nothing
    /// forbidden.
    pub fn from_base_problem(base: Arc<BaseProblem>) -> (r: Self)
        requires
            base.wf(),
        ensures
            r.wf(),
            r.spec_base() == *base,
            r.spec_added() == Set::<(int, int)>::empty(),
            r.spec_removed() == Set::<(int, int)>::empty(),
    {
        Self::new(base, EdgeSet::new(), EdgeSet::new())
    }

    /// A copy of `subproblem`, sharing its root problem.
    pub fn from_subproblem(subproblem: &Subproblem) -> (r: Self)
        requires
            subproblem.wf(),
        ensures
            r.wf(),
            r.spec_base() == subproblem.spec_base(),
            r.spec_added() == subproblem.spec_added(),
            r.spec_removed() == subproblem.spec_removed(),
    {
        Self {
            base: Arc::clone(&subproblem.base),
            added_edges: subproblem.added_edges.clone(),
            removed_edges: subproblem.removed_edges.clone(),
        }
    }

    /// Derives a subproblem from `problem` by forcing `added_edges` and
    /// forbidding `removed_edges` on top of the fixings it inherits.
    pub fn from_problem(
        problem: &Problem,
        added_edges: &Vec<Edge>,
        removed_edges: &Vec<Edge>,
    ) -> (r: Self)
        requires
            problem.wf(),
            forall|k: int|
                0 <= k < added_edges@.len() ==> problem.spec_base_of().spec_instance(
                ).spec_graph().edge_set().contains(edge_view(
                    #[trigger] added_edges@[k],
                )),
            forall|k: int|
                0 <= k < removed_edges@.len() ==> problem.spec_base_of().spec_instance(
                ).spec_graph().edge_set().contains(edge_view(
                    #[trigger] removed_edges@[k],
                )),
            problem.spec_added().union(edge_view_set(added_edges@)).disjoint(
                problem.spec_removed().union(edge_view_set(removed_edges@)),
            ),
        ensures
            r.wf(),
            r.spec_base() == problem.spec_base_of(),
            r.spec_added() == problem.spec_added().union(edge_view_set(added_edges@)),
            r.spec_removed() == problem.spec_removed().union(
                edge_view_set(removed_edges@),
            ),
    {
        let mut derived = match problem {
            Problem::Base(base_problem) => Self::from_base_problem(
                Arc::clone(base_problem),
            ),
            Problem::Derived(subproblem) => Self::from_subproblem(subproblem),
        };
        proof {
            assert(edge_views(added_edges@.subrange(0, 0)) =~= Seq::empty());
            assert(derived.spec_added() =~= problem.spec_added().union(
                edge_view_set(added_edges@.subrange(0, 0)),
            ));
            assert(edge_views(removed_edges@.subrange(0, 0)) =~= Seq::empty());
            assert(derived.spec_removed() =~= problem.spec_removed().union(
                edge_view_set(removed_edges@.subrange(0, 0)),
            ));
        }
        let mut k: usize = 0;
        while k < added_edges.len()
            invariant
                k <= added_edges@.len(),
                derived.base.wf(),
                derived.added_edges.wf(),
                derived.removed_edges.wf(),
                derived.spec_base() == problem.spec_base_of(),
                derived.spec_removed() == problem.spec_removed(),
                forall|m: int|
                    0 <= m < added_edges@.len() ==> problem.spec_base_of().spec_instance(
                    ).spec_graph().edge_set().contains(edge_view(
                        #[trigger] added_edges@[m],
                    )),
                problem.spec_added().subset_of(
                    problem.spec_base_of().spec_instance().spec_graph().edge_set(),
                ),
                problem.spec_removed().subset_of(
                    problem.spec_base_of().spec_instance().spec_graph().edge_set(),
                ),
                derived.spec_added() == problem.spec_added().union(
                    edge_view_set(added_edges@.subrange(0, k as int)),
                ),
                derived.spec_added().subset_of(
                    problem.spec_added().union(edge_view_set(added_edges@)),
                ),
            decreases added_edges@.len() - k,
        {
            let e = added_edges[k];
            derived.added_edges.insert(e.u, e.v);
            proof {
                assert(added_edges@.subrange(0, k as int + 1) =~= added_edges@.subrange(
                    0,
                    k as int,
                ).push(added_edges@[k as int]));
                assert(edge_views(added_edges@.subrange(0, k as int + 1)) =~= edge_views(
                    added_edges@.subrange(0, k as int),
                ).push(edge_view(added_edges@[k as int])));
                edge_views(added_edges@.subrange(0, k as int)).lemma_push_to_set_commute(
                    edge_view(added_edges@[k as int]),
                );
                assert(derived.spec_added() =~= problem.spec_added().union(
                    edge_view_set(added_edges@.subrange(0, k as int + 1)),
                ));
                assert forall|q: (int, int)| #[trigger]
                    derived.spec_added().contains(q)
                    implies problem.spec_added().union(
                    edge_view_set(added_edges@),
                ).contains(q) by {
                    if !problem.spec_added().contains(q) {
                        let m = choose|m: int|
                            0 <= m < k + 1 && #[trigger] edge_views(
                                added_edges@.subrange(0, k as int + 1),
                            )[m] == q;
                        assert(edge_view(added_edges@[m]) == q);
                        assert(edge_views(added_edges@)[m] == q);
                    }
                }
            }
            k = k + 1;
        }
        proof {
            assert(added_edges@.subrange(0, added_edges@.len() as int) =~= added_edges@);
        }
        let mut k2: usize = 0;
        while k2 < removed_edges.len()
            invariant
                k2 <= removed_edges@.len(),
                derived.base.wf(),
                derived.added_edges.wf(),
                derived.removed_edges.wf(),
                derived.spec_base() == problem.spec_base_of(),
                derived.spec_added() == problem.spec_added().union(
                    edge_view_set(added_edges@),
                ),
                forall|m: int|
                    0 <= m < removed_edges@.len() ==> problem.spec_base_of(
                    ).spec_instance().spec_graph().edge_set().contains(edge_view(
                        #[trigger] removed_edges@[m],
                    )),
                problem.spec_added().subset_of(
                    problem.spec_base_of().spec_instance().spec_graph().edge_set(),
                ),
                problem.spec_removed().subset_of(
                    problem.spec_base_of().spec_instance().spec_graph().edge_set(),
                ),
                derived.spec_removed() == problem.spec_removed().union(
                    edge_view_set(removed_edges@.subrange(0, k2 as int)),
                ),
                derived.spec_removed().subset_of(
                    problem.spec_removed().union(edge_view_set(removed_edges@)),
                ),
            decreases removed_edges@.len() - k2,
        {
            let e = removed_edges[k2];
            derived.removed_edges.insert(e.u, e.v);
            proof {
                assert(removed_edges@.subrange(0, k2 as int + 1)
                    =~= removed_edges@.subrange(0, k2 as int).push(
                    removed_edges@[k2 as int],
                ));
                assert(edge_views(removed_edges@.subrange(0, k2 as int + 1))
                    =~= edge_views(removed_edges@.subrange(0, k2 as int)).push(
                    edge_view(removed_edges@[k2 as int]),
                ));
                edge_views(
                    removed_edges@.subrange(0, k2 as int),
                ).lemma_push_to_set_commute(edge_view(removed_edges@[k2 as int]));
                assert(derived.spec_removed() =~= problem.spec_removed().union(
                    edge_view_set(removed_edges@.subrange(0, k2 as int + 1)),
                ));
                assert forall|q: (int, int)| #[trigger]
                    derived.spec_removed().contains(q)
                    implies problem.spec_removed().union(
                    edge_view_set(removed_edges@),
                ).contains(q) by {
                    if !problem.spec_removed().contains(q) {
                        let m = choose|m: int|
                            0 <= m < k2 + 1 && #[trigger] edge_views(
                                removed_edges@.subrange(0, k2 as int + 1),
                            )[m] == q;
                        assert(edge_view(removed_edges@[m]) == q);
                        assert(edge_views(removed_edges@)[m] == q);
                    }
                }
            }
            k2 = k2 + 1;
        }
        proof {
            assert(removed_edges@.subrange(0, removed_edges@.len() as int)
                =~= removed_edges@);
            assert(derived.spec_added().disjoint(derived.spec_removed()));
        }
        derived
    }

    /// Determines whether `edge` is fixed: forced or forbidden.
    pub fn fixed_edge(&self, edge: &Edge) -> (r: bool)
        requires
            self.wf(),
        ensures
            r == (self.spec_added().contains(edge_view(*edge))
                || self.spec_removed().contains(edge_view(*edge))),
    {
        self.added_edges.contains(edge.u, edge.v) || self.removed_edges.contains(
            edge.u,
            edge.v,
        )
    }
}

/// A problem to solve: the root problem itself, or a subproblem
/// derived from it by fixing edges.
pub enum Problem {
    Base(Arc<BaseProblem>),
    Derived(Subproblem),
}

impl Problem {
    /// The root problem behind this problem.
    pub open spec fn spec_base_of(&self) -> BaseProblem {
        match self {
            Problem::Base(b) => **b,
            Problem::Derived(s) => s.spec_base(),
        }
    }

    /// The forced edges: none for the root problem.
    pub open spec fn spec_added(&self) -> Set<(int, int)> {
        match self {
            Problem::Base(_) => Set::empty(),
            Problem::Derived(s) => s.spec_added(),
        }
    }

    /// The forbidden edges: none for the root problem.
    pub open spec fn spec_removed(&self) -> Set<(int, int)> {
        match self {
            Problem::Base(_) => Set::empty(),
            Problem::Derived(s) => s.spec_removed(),
        }
    }

    /// Exposes a problem's invariants to its users.
    pub proof fn lemma_wf(&self)
        requires
            self.wf(),
        ensures
            self.spec_base_of().wf(),
            self.spec_added().subset_of(
                self.spec_base_of().spec_instance().spec_graph().edge_set(),
            ),
            self.spec_removed().subset_of(
                self.spec_base_of().spec_instance().spec_graph().edge_set(),
            ),
            self.spec_added().disjoint(self.spec_removed()),
            self.spec_added().finite(),
            self.spec_removed().finite(),
    {
        match self {
            Problem::Base(_) => {},
            Problem::Derived(s) => {
                s.lemma_wf();
            },
        }
    }
}

/// The standing of one chosen edge against its dependency bounds.
#[derive(PartialEq, Eq, Structural, Clone, Copy, Debug)]
pub enum EdgeStatus {
    Feasible,
    TooFewDeps,
    TooManyDeps,
}

/// A relaxed or final solution: the chosen edges, the graph they form
/// (the tree view), and the root problem they answer.
pub struct Solution {
    edges: Vec<Edge>,
    subgraph: Graph,
    parent_problem: Arc<BaseProblem>,
}

/// The total weight of a sequence of edges under the weight map `w`.
pub open spec fn sum_weights(s: Seq<Edge>, w: Map<(int, int), u64>) -> int
    decreases s.len(),
{
    if s.len() == 0 {
        0
    } else {
        sum_weights(s.drop_last(), w) + w[edge_view(s.last())]
    }
}

/// A sequence sum over edges with pairwise distinct views equals the
/// weight of the set of those views.
pub proof fn lemma_sum_weights_as_set(s: Seq<Edge>, w: Map<(int, int), u64>)
    requires
        forall|k1: int, k2: int|
            0 <= k1 < k2 < s.len() ==> edge_view(#[trigger] s[k1]) != edge_view(
                #[trigger] s[k2],
            ),
    ensures
        sum_weights(s, w) == set_weight(edge_view_set(s), w),
    decreases s.len(),
{
    broadcast use vstd::seq_lib::seq_to_set_is_finite;

    if s.len() == 0 {
        assert(edge_views(s) =~= Seq::empty());
        assert(edge_view_set(s) =~= Set::empty());
        lemma_set_weight_empty(w);
    } else {
        let tail = s.drop_last();
        assert(forall|k1: int, k2: int|
            0 <= k1 < k2 < tail.len() ==> edge_view(#[trigger] tail[k1]) != edge_view(
                #[trigger] tail[k2],
            )) by {
            assert forall|k1: int, k2: int|
                0 <= k1 < k2 < tail.len() implies edge_view(#[trigger] tail[k1])
                != edge_view(#[trigger] tail[k2]) by {
                assert(tail[k1] == s[k1] && tail[k2] == s[k2]);
            }
        }
        lemma_sum_weights_as_set(tail, w);
        let e = edge_view(s.last());
        assert(edge_views(s) =~= edge_views(tail).push(e));
        edge_views(tail).lemma_push_to_set_commute(e);
        assert(!edge_view_set(tail).contains(e)) by {
            if edge_view_set(tail).contains(e) {
                let m = choose|m: int|
                    0 <= m < edge_views(tail).len() && edge_views(tail)[m] == e;
                assert(edge_view(s[m]) == e && edge_view(s[s.len() - 1]) == e);
            }
        }
        lemma_set_weight_insert(edge_view_set(tail), w, e);
    }
}

impl Solution {
    /// The chosen edges.
    pub closed spec fn spec_edges(&self) -> Seq<Edge> {
        self.edges@
    }

    /// The root problem this solution answers.
    pub closed spec fn spec_parent(&self) -> BaseProblem {
        *self.parent_problem
    }

    /// The chosen edges as a set of integer pairs.
    pub open spec fn spec_edge_set(&self) -> Set<(int, int)> {
        edge_view_set(self.spec_edges())
    }

    #[verifier::type_invariant]
    pub closed spec fn wf(&self) -> bool {
        &&& self.parent_problem.wf()
        &&& (forall|k1: int, k2: int|
            0 <= k1 < k2 < self.edges@.len() ==> edge_view(#[trigger] self.edges@[k1])
                != edge_view(#[trigger] self.edges@[k2]))
        &&& (forall|k: int|
            0 <= k < self.edges@.len() ==> self.parent_problem.spec_instance(
            ).spec_graph().edge_set().contains(edge_view(#[trigger] self.edges@[k])))
        &&& self.subgraph.wf()
        &&& self.subgraph.spec_verts() == self.parent_problem.spec_instance(
        ).spec_graph().spec_verts()
        &&& self.subgraph.edge_set() == edge_view_set(self.edges@)
    }

    /// The dependency vertices of the edge `e` whose own edges the
    /// solution chose: the in-neighbours of `e`'s vertex in the
    /// dependency digraph that stand for chosen edges.
    pub open spec fn spec_deps(&self, e: Edge) -> Set<int> {
        let base = self.spec_parent();
        let eidx = base.spec_index_of(e);
        Set::new(
            |d: int|
                0 <= d < base.spec_index_to_edge().len() && base.spec_instance(
                ).spec_dependencies().edge_set().contains((d, eidx))
                    && self.spec_edge_set().contains(edge_view(
                    base.spec_index_to_edge()[d],
                )),
        )
    }

    /// The standing of the edge `e`: too few chosen dependencies, too
    /// many, or within its bounds.
    pub open spec fn spec_status(&self, e: Edge) -> EdgeStatus {
        let nd = self.spec_deps(e).len();
        let lb = self.spec_parent().spec_instance().spec_dep_lb()[edge_view(e)];
        let ub = self.spec_parent().spec_instance().spec_dep_ub()[edge_view(e)];
        if nd < lb {
            EdgeStatus::TooFewDeps
        } else if nd > ub {
            EdgeStatus::TooManyDeps
        } else {
            EdgeStatus::Feasible
        }
    }

    /// Every chosen edge stands within its dependency bounds.
    pub open spec fn spec_satisfies_dependencies(&self) -> bool {
        forall|k: int|
            0 <= k < self.spec_edges().len() ==> self.spec_status(
                #[trigger] self.spec_edges()[k],
            ) == EdgeStatus::Feasible
    }

    /// The chosen edges form a spanning tree: they connect every pair
    /// of vertices and number one less than the vertices.
    pub open spec fn spec_is_spanning_tree(&self) -> bool {
        let n = self.spec_parent().spec_instance().spec_graph().spec_verts();
        &&& n >= 1
        &&& spans(self.spec_edge_set(), n)
        &&& self.spec_edge_set().len() == n - 1
    }

    /// Creates a solution from its chosen edges, the graph they form
    /// and the root problem.
    pub fn new(edges: Vec<Edge>, subgraph: Graph, parent_problem: Arc<BaseProblem>) -> (r:
        Self)
        requires
            parent_problem.wf(),
            forall|k1: int, k2: int|
                0 <= k1 < k2 < edges@.len() ==> edge_view(#[trigger] edges@[k1])
                    != edge_view(#[trigger] edges@[k2]),
            forall|k: int|
                0 <= k < edges@.len() ==> parent_problem.spec_instance(
                ).spec_graph().edge_set().contains(edge_view(#[trigger] edges@[k])),
            subgraph.wf(),
            subgraph.spec_verts() == parent_problem.spec_instance(
            ).spec_graph().spec_verts(),
            subgraph.edge_set() == edge_view_set(edges@),
        ensures
            r.spec_edges() == edges@,
            r.spec_parent() == *parent_problem,
    {
        Self { edges, subgraph, parent_problem }
    }

    /// The cost: the total weight of the chosen edges.
    pub fn cost(&self) -> (r: u128)
        ensures
            r == sum_weights(
                self.spec_edges(),
                self.spec_parent().spec_instance().spec_graph().spec_weights(),
            ),
    {
        proof {
            use_type_invariant(&*self);
            self.parent_problem.lemma_wf();
            self.parent_problem.spec_instance().lemma_wf();
        }
        let graph = self.parent_problem.instance().graph();
        let n = self.edges.len();
        let mut total: u128 = 0;
        let mut k: usize = 0;
        let ghost wmax = u64::MAX as int;
        while k < n
            invariant
                self.wf(),
                k <= n,
                n == self.edges@.len(),
                graph == self.spec_parent().spec_instance().spec_graph(),
                graph.wf(),
                total == sum_weights(
                    self.edges@.subrange(0, k as int),
                    graph.spec_weights(),
                ),
                total <= k * (u64::MAX as int),
            decreases n - k,
        {
            let e = self.edges[k];
            proof {
                use_type_invariant(&*self);
                assert(graph.edge_set().contains(edge_view(self.edges@[k as int])));
                graph.lemma_edge_set_props();
            }
            let w = self.parent_problem.instance().graph().get_edge_weight(
                e.u,
                e.v,
            ).unwrap();
            total = total + (w as u128);
            proof {
                assert(self.edges@.subrange(0, k as int + 1) =~= self.edges@.subrange(
                    0,
                    k as int,
                ).push(self.edges@[k as int]));
                assert(self.edges@.subrange(0, k as int + 1).drop_last()
                    =~= self.edges@.subrange(0, k as int));
            }
            k = k + 1;
        }
        proof {
            assert(self.edges@.subrange(0, n as int) =~= self.edges@);
        }
        total
    }

    /// The chosen edges.
    pub fn edges(&self) -> (r: &Vec<Edge>)
        ensures
            r@ == self.spec_edges(),
    {
        &self.edges
    }

    // determines whether the solution chose the edge `e`
    fn contains_edge(&self, e: &Edge) -> (r: bool)
        ensures
            r == self.spec_edge_set().contains(edge_view(*e)),
    {
        let n = self.edges.len();
        let mut k: usize = 0;
        while k < n
            invariant
                k <= n,
                n == self.edges@.len(),
                forall|m: int|
                    0 <= m < k ==> edge_view(#[trigger] self.edges@[m]) != edge_view(*e),
            decreases n - k,
        {
            let c = self.edges[k];
            if c.u == e.u && c.v == e.v {
                proof {
                    assert(edge_views(self.edges@)[k as int] == edge_view(*e));
                    assert(edge_views(self.edges@).contains(edge_view(*e)));
                }
                return true;
            }
            k = k + 1;
        }
        proof {
            if self.spec_edge_set().contains(edge_view(*e)) {
                let m = choose|m: int|
                    0 <= m < edge_views(self.edges@).len() && edge_views(self.edges@)[m]
                        == edge_view(*e);
                assert(edge_view(self.edges@[m]) == edge_view(*e));
            }
        }
        false
    }

    /// The chosen dependencies of the edge `edge`: the chosen edges
    /// standing for in-neighbours of its vertex in the dependency
    /// digraph.
    pub fn deps(&self, edge: &Edge) -> (r: Vec<Edge>)
        requires
            self.spec_parent().spec_instance().spec_graph().edge_set().contains(
                edge_view(*edge),
            ),
        ensures
            r@.len() == self.spec_deps(*edge).len(),
            forall|k: int|
                0 <= k < r@.len() ==> self.spec_edge_set().contains(edge_view(
                    #[trigger] r@[k],
                )),
            edge_views(r@).to_set() == self.spec_deps(*edge).map(
                |d: int| edge_view(self.spec_parent().spec_index_to_edge()[d]),
            ),
    {
        proof {
            use_type_invariant(&*self);
            self.parent_problem.lemma_wf();
            self.parent_problem.spec_instance().lemma_wf();
        }
        let e_idx = self.parent_problem.edge_to_index(edge).unwrap();
        let ghost eidx = e_idx as int;
        let ghost base = self.spec_parent();
        let ghost dgraph = base.spec_instance().spec_dependencies();
        let dep_indices = crate::neighbors::in_neighbors(
            self.parent_problem.instance().dependencies(),
            e_idx,
        );
        let ghost div = dep_indices@;
        let mut result: Vec<Edge> = Vec::new();
        let ghost mut kept = Seq::<int>::empty();
        let mut k: usize = 0;
        while k < dep_indices.len()
            invariant
                self.wf(),
                k <= div.len(),
                div == dep_indices@,
                base == self.spec_parent(),
                dgraph == base.spec_instance().spec_dependencies(),
                eidx == base.spec_index_of(*edge),
                forall|m1: int, m2: int| 0 <= m1 < m2 < div.len() ==> div[m1] < div[m2],
                forall|m: int|
                    0 <= m < div.len() ==> (#[trigger] div[m]) < base.spec_index_to_edge(
                    ).len() && dgraph.edge_set().contains((div[m] as int, eidx)),
                forall|d: int|
                    0 <= d < base.spec_index_to_edge().len() && dgraph.edge_set(
                    ).contains(#[trigger] crate::digraph::Digraph::canon(d, eidx))
                        ==> exists|m: int| 0 <= m < div.len() && div[m] == d,
                kept.len() == result@.len(),
                forall|m1: int, m2: int|
                    0 <= m1 < m2 < kept.len() ==> kept[m1] < kept[m2],
                forall|m: int|
                    0 <= m < kept.len() ==> 0 <= #[trigger] kept[m] < base.spec_index_to_edge().len()
                        && self.spec_deps(*edge).contains(kept[m]) && edge_view(
                        result@[m],
                    ) == edge_view(base.spec_index_to_edge()[kept[m]]),
                forall|d: int|
                    #[trigger] self.spec_deps(*edge).contains(d) && (exists|m: int|
                        0 <= m < k && div[m] == d) ==> exists|m: int|
                        0 <= m < kept.len() && kept[m] == d,
                forall|m: int|
                    0 <= m < kept.len() ==> exists|m2: int|
                        0 <= m2 < k && div[m2] == #[trigger] kept[m],
            decreases div.len() - k,
        {
            let d = dep_indices[k];
            let de = self.parent_problem.index_to_edge(d);
            let ghost kept0 = kept;
            let present = self.contains_edge(&de);
            if present {
                result.push(de);
                proof {
                    kept = kept.push(d as int);
                    assert(self.spec_deps(*edge).contains(d as int));
                    assert(kept[kept.len() - 1] == d as int);
                    assert forall|m1: int, m2: int|
                        0 <= m1 < m2 < kept.len() implies kept[m1] < kept[m2] by {
                        if m2 == kept.len() - 1 {
                            let ghost mm = choose|mm: int|
                                0 <= mm < k && div[mm] == kept0[m1];
                            assert(div[mm] < div[k as int]);
                        }
                    }
                }
            }
            proof {
                assert forall|dd: int|
                    #[trigger] self.spec_deps(*edge).contains(dd) && (exists|m: int|
                        0 <= m < k + 1 && div[m] == dd) implies exists|m: int|
                    0 <= m < kept.len() && kept[m] == dd by {
                    let m = choose|m: int| 0 <= m < k + 1 && div[m] == dd;
                    if m == k as int {
                        // this round's dependency: it was just kept, or
                        // its edge is not chosen and it is no dependency
                        if present {
                            assert(kept[kept.len() - 1] == dd);
                        } else {
                            assert(self.spec_edge_set().contains(edge_view(
                                self.spec_parent().spec_index_to_edge()[dd],
                            )));
                            assert(false);
                        }
                    } else {
                        let mm = choose|mm: int|
                            0 <= mm < kept0.len() && kept0[mm] == dd;
                        assert(kept[mm] == dd);
                    }
                }
            }
            k = k + 1;
        }
        proof {
            // the kept indices are exactly the dependency set, so their
            // count is its cardinality
            assert forall|d: int| #[trigger] self.spec_deps(*edge).contains(d)
                implies exists|m: int| 0 <= m < kept.len() && kept[m] == d by {
                assert(dgraph.edge_set().contains((d, eidx)));
                assert(crate::digraph::Digraph::canon(d, eidx) == (d, eidx));
                let m = choose|m: int| 0 <= m < div.len() && div[m] == d;
            }
            let kset = kept.to_set();
            assert(kept.no_duplicates()) by {
                assert forall|m1: int, m2: int|
                    0 <= m1 < kept.len() && 0 <= m2 < kept.len() && m1 != m2
                    implies kept[m1] != kept[m2] by {
                    if m1 < m2 {
                        assert(kept[m1] < kept[m2]);
                    } else {
                        assert(kept[m2] < kept[m1]);
                    }
                }
            }
            kept.unique_seq_to_set();
            assert forall|d: int| #[trigger] kset.contains(d)
                implies self.spec_deps(*edge).contains(d) by {
                let m = choose|m: int| 0 <= m < kept.len() && kept[m] == d;
            }
            assert forall|d: int| #[trigger] self.spec_deps(*edge).contains(d)
                implies kset.contains(d) by {
                let m = choose|m: int| 0 <= m < kept.len() && kept[m] == d;
                assert(kept.contains(kept[m]));
            }
            assert(kset =~= self.spec_deps(*edge));
            assert forall|m: int| 0 <= m < result@.len()
                implies self.spec_edge_set().contains(edge_view(#[trigger] result@[m]))
                by {
                assert(self.spec_deps(*edge).contains(kept[m]));
            }
            // the listed edges are exactly the dependency set, carried
            // over to edges through the numbering
            let f = |d: int| edge_view(self.spec_parent().spec_index_to_edge()[d]);
            let image = self.spec_deps(*edge).map(f);
            assert forall|e: (int, int)| #[trigger] edge_views(result@).to_set().contains(
                e,
            ) implies image.contains(e) by {
                let m = choose|m: int|
                    0 <= m < edge_views(result@).len() && edge_views(result@)[m] == e;
                assert(self.spec_deps(*edge).contains(kept[m]));
                assert(f(kept[m]) == e);
            }
            assert forall|e: (int, int)| #[trigger] image.contains(e)
                implies edge_views(result@).to_set().contains(e) by {
                let d = choose|d: int| self.spec_deps(*edge).contains(d) && f(d) == e;
                let m = choose|m: int| 0 <= m < kept.len() && kept[m] == d;
                assert(edge_views(result@)[m] == e);
            }
            assert(edge_views(result@).to_set() =~= image);
        }
        result
    }

    /// The number of chosen dependencies of the edge `edge`.
    pub fn num_deps(&self, edge: &Edge) -> (r: usize)
        requires
            self.spec_parent().spec_instance().spec_graph().edge_set().contains(
                edge_view(*edge),
            ),
        ensures
            r == self.spec_deps(*edge).len(),
    {
        self.deps(edge).len()
    }

    /// The standing of the edge `edge` against its dependency bounds.
    pub fn edge_status(&self, edge: &Edge) -> (r: EdgeStatus)
        requires
            self.spec_parent().spec_instance().spec_graph().edge_set().contains(
                edge_view(*edge),
            ),
        ensures
            r == self.spec_status(*edge),
    {
        proof {
            use_type_invariant(&*self);
            self.parent_problem.lemma_wf();
            self.parent_problem.spec_instance().lemma_wf();
        }
        let num_deps = self.num_deps(edge);
        let lb = self.parent_problem.instance().dep_lb().get(edge.u, edge.v).unwrap();
        let ub = self.parent_problem.instance().dep_ub().get(edge.u, edge.v).unwrap();
        if num_deps < lb {
            EdgeStatus::TooFewDeps
        } else if num_deps > ub {
            EdgeStatus::TooManyDeps
        } else {
            EdgeStatus::Feasible
        }
    }

    /// Determines whether every chosen edge stands within its bounds.
    pub fn satisfies_dependencies(&self) -> (r: bool)
        ensures
            r == self.spec_satisfies_dependencies(),
    {
        proof {
            use_type_invariant(&*self);
        }
        let n = self.edges.len();
        let mut k: usize = 0;
        while k < n
            invariant
                self.wf(),
                k <= n,
                n == self.edges@.len(),
                forall|m: int|
                    0 <= m < k ==> self.spec_status(#[trigger] self.edges@[m])
                        == EdgeStatus::Feasible,
            decreases n - k,
        {
            let e = self.edges[k];
            if !matches!(self.edge_status(&e), EdgeStatus::Feasible) {
                return false;
            }
            k = k + 1;
        }
        true
    }
}

impl Solution {
    /// Exposes the solution's invariants to its users: the chosen edges
    /// are distinct edges of the root problem's graph.
    pub proof fn lemma_wf(&self)
        requires
            self.wf(),
        ensures
            self.spec_parent().wf(),
            forall|k1: int, k2: int|
                0 <= k1 < k2 < self.spec_edges().len() ==> edge_view(
                    #[trigger] self.spec_edges()[k1],
                ) != edge_view(#[trigger] self.spec_edges()[k2]),
            forall|k: int|
                0 <= k < self.spec_edges().len() ==> self.spec_parent().spec_instance(
                ).spec_graph().edge_set().contains(edge_view(
                    #[trigger] self.spec_edges()[k],
                )),
    {
    }
}

/// A feasible solution is a spanning tree made of the instance's own
/// edges, so its existence makes the instance's graph connected: on a
/// graph that is not connected no feasible solution exists, and the
/// drivers, which only ever return feasible solutions, return none.
pub proof fn lemma_feasible_needs_connected(sol: &Solution)
    requires
        sol.wf(),
        sol.spec_is_feasible(),
    ensures
        sol.spec_parent().spec_instance().spec_graph().spec_verts() >= 1,
        spans(
            sol.spec_parent().spec_instance().spec_graph().edge_set(),
            sol.spec_parent().spec_instance().spec_graph().spec_verts(),
        ),
{
    sol.lemma_wf();
    let n = sol.spec_parent().spec_instance().spec_graph().spec_verts();
    let ges = sol.spec_parent().spec_instance().spec_graph().edge_set();
    assert forall|e: (int, int)| #[trigger] sol.spec_edge_set().contains(e)
        implies ges.contains(e) by {
        let m = choose|m: int|
            0 <= m < edge_views(sol.spec_edges()).len() && edge_views(
                sol.spec_edges(),
            )[m] == e;
        assert(edge_view(sol.spec_edges()[m]) == e);
    }
    assert forall|x: int, y: int|
        0 <= x < n && 0 <= y < n implies crate::connectivity::connected(
        ges,
        x,
        y,
    ) by {
        crate::connectivity::lemma_connected_subset(sol.spec_edge_set(), ges, x, y);
    }
}

/// The `k`-th chosen edge of `solution` can be branched on for
/// `problem`: it is an edge of the problem's own graph, it is not yet
/// fixed, and it stands outside its dependency bounds.
pub open spec fn branch_candidate(problem: &Problem, solution: &Solution, k: int) -> bool {
    let e = solution.spec_edges()[k];
    &&& 0 <= k < solution.spec_edges().len()
    &&& problem.spec_base_of().spec_instance().spec_graph().edge_set().contains(
        edge_view(e),
    )
    &&& !fixed_set(problem).contains(edge_view(e))
    &&& solution.spec_status(e) != EdgeStatus::Feasible
}

/// Some chosen edge of `solution` can be branched on for `problem`.
pub open spec fn branchable(problem: &Problem, solution: &Solution) -> bool {
    exists|k: int| branch_candidate(problem, solution, k)
}

/// What the drivers' contracts force on degenerate instances: any
/// solution they return answers the problem it was given and is
/// feasible, and a feasible solution spans the instance's graph; so on
/// an instance with no vertices, or whose graph is not connected, the
/// drivers return none.
pub proof fn lemma_solution_forces_spanning(problem: &Problem, s: &Solution)
    requires
        problem.wf(),
        problem.solution_of(s),
        s.wf(),
        s.spec_is_feasible(),
    ensures
        problem.spec_base_of().spec_instance().spec_graph().spec_verts() >= 1,
        spans(
            problem.spec_base_of().spec_instance().spec_graph().edge_set(),
            problem.spec_base_of().spec_instance().spec_graph().spec_verts(),
        ),
{
    lemma_feasible_needs_connected(s);
}

// the set of forced and forbidden edges of a problem
pub open spec fn fixed_set(p: &Problem) -> Set<(int, int)> {
    p.spec_added().union(p.spec_removed())
}

/// The chosen dependencies of `e` in `sol`, as edges.
pub open spec fn dep_edge_views(sol: &Solution, e: Edge) -> Set<(int, int)> {
    sol.spec_deps(e).map(
        |d: int| edge_view(sol.spec_parent().spec_index_to_edge()[d]),
    )
}

/// The shape of a derivation child along the selected edge `e`: for
/// one chosen dependency `d` of `e` that the parent had not fixed, it
/// forces `e` together with `d` when too few dependencies were chosen,
/// or forces `e` and forbids `d` when too many were.
pub open spec fn derivation_child_shape(
    parent: &Problem,
    sol: &Solution,
    e: Edge,
    child: Problem,
) -> bool {
    let ev = edge_view(e);
    exists|dv: (int, int)|
        #![auto]
        dep_edge_views(sol, e).contains(dv) && !fixed_set(parent).contains(dv) && (
        if sol.spec_status(e) == EdgeStatus::TooFewDeps {
            child.spec_added() == parent.spec_added().insert(ev).insert(dv)
                && child.spec_removed() == parent.spec_removed()
        } else {
            child.spec_added() == parent.spec_added().insert(ev)
                && child.spec_removed() == parent.spec_removed().insert(dv)
        })
}

// a child whose fixed set strictly extends its parent's has a strictly
// smaller measure
proof fn lemma_child_measure(parent: &Problem, child: &Subproblem, extra: (int, int))
    requires
        parent.wf(),
        child.wf(),
        child.spec_base() == parent.spec_base_of(),
        fixed_set(parent).subset_of(child.spec_added().union(child.spec_removed())),
        child.spec_added().union(child.spec_removed()).contains(extra),
        !fixed_set(parent).contains(extra),
        parent.spec_base_of().spec_instance().spec_graph().edge_set().contains(extra),
    ensures
        Problem::Derived(*child).measure() < parent.measure(),
        Problem::Derived(*child).spec_branching() == parent.spec_branching(),
{
    let ges = parent.spec_base_of().spec_instance().spec_graph().edge_set();
    parent.lemma_wf();
    child.lemma_wf();
    parent.spec_base_of().lemma_wf();
    parent.spec_base_of().spec_instance().lemma_wf();
    parent.spec_base_of().spec_instance().spec_graph().lemma_edge_set_props();
    let pf = fixed_set(parent);
    let cf = child.spec_added().union(child.spec_removed());
    crate::subgraph::lemma_len_disjoint_union(parent.spec_added(), parent.spec_removed());
    crate::subgraph::lemma_len_disjoint_union(child.spec_added(), child.spec_removed());
    vstd::set_lib::lemma_len_subset(cf, ges);
    vstd::set_lib::lemma_len_subset(pf.insert(extra), cf);
    assert(pf.insert(extra).len() == pf.len() + 1);
}

/// Enumerates the subproblems that split a problem along one edge of
/// its relaxed solution that stands outside its dependency bounds and
/// is not yet fixed: first the subproblem that forbids that edge, then
/// one subproblem per chosen non-fixed dependency, forcing the edge
/// together with the dependency when too few dependencies were chosen,
/// or forcing the edge and forbidding the dependency when too many
/// were. When no such edge exists there is nothing to enumerate: no
/// subproblem of this problem can do better.
pub struct SubproblemIterator {
    subproblems: Vec<Problem>,
    parent_measure: Ghost<nat>,
    parent_branching: Ghost<nat>,
}

impl SubproblemIterator {
    /// The subproblems not yet handed out, in reverse order of
    /// enumeration.
    pub closed spec fn spec_remaining(&self) -> Seq<Problem> {
        self.subproblems@
    }

    pub closed spec fn spec_parent_measure(&self) -> nat {
        self.parent_measure@
    }

    pub closed spec fn spec_parent_branching(&self) -> nat {
        self.parent_branching@
    }

    pub closed spec fn wf(&self) -> bool {
        forall|k: int|
            0 <= k < self.subproblems@.len() ==> (#[trigger] self.subproblems@[k]).wf()
                && self.subproblems@[k].measure() < self.parent_measure@
                && self.subproblems@[k].spec_branching() == self.parent_branching@
    }

    /// Builds the enumeration for a problem and its relaxed solution.
    pub fn new(parent_problem: &Problem, parent_solution: &Solution) -> (r: Self)
        requires
            parent_problem.wf(),
        ensures
            r.wf(),
            r.spec_parent_measure() == parent_problem.measure(),
            r.spec_parent_branching() == parent_problem.spec_branching(),
            r.spec_remaining().len() <= parent_problem.spec_branching(),
            r.spec_remaining().len() > 0 <==> branchable(parent_problem, parent_solution),
            forall|m: int|
                0 <= m < r.spec_remaining().len() ==> (#[trigger] r.spec_remaining()[
                    m
                ]).spec_base_of() == parent_problem.spec_base_of()
                    && parent_problem.spec_added().subset_of(
                    r.spec_remaining()[m].spec_added(),
                ) && parent_problem.spec_removed().subset_of(
                    r.spec_remaining()[m].spec_removed(),
                ),
            r.spec_remaining().len() > 0 ==> exists|k: int|
                #[trigger] branch_candidate(parent_problem, parent_solution, k) && (
                forall|m: int|
                    0 <= m < k ==> !branch_candidate(parent_problem, parent_solution, m))
                    && r.spec_remaining()[0].spec_added() == parent_problem.spec_added()
                    && r.spec_remaining()[0].spec_removed()
                    == parent_problem.spec_removed().insert(
                    edge_view(parent_solution.spec_edges()[k]),
                ) && (forall|m: int|
                    1 <= m < r.spec_remaining().len() ==> derivation_child_shape(
                        parent_problem,
                        parent_solution,
                        parent_solution.spec_edges()[k],
                        #[trigger] r.spec_remaining()[m],
                    )),
    {
        let subproblems = expand_subproblems(parent_problem, parent_solution);
        Self {
            subproblems,
            parent_measure: Ghost(parent_problem.measure()),
            parent_branching: Ghost(parent_problem.spec_branching()),
        }
    }

    /// Hands out the next subproblem, or `None` when the enumeration is
    /// exhausted.
    pub fn next_subproblem(&mut self) -> (r: Option<Problem>)
        requires
            old(self).wf(),
        ensures
            final(self).wf(),
            final(self).spec_parent_measure() == old(self).spec_parent_measure(),
            final(self).spec_parent_branching() == old(self).spec_parent_branching(),
            old(self).spec_remaining().len() == 0 ==> r is None && final(self).spec_remaining() == old(self).spec_remaining(),
            old(self).spec_remaining().len() > 0 ==> r == Some(
                old(self).spec_remaining().last(),
            ) && final(self).spec_remaining() == old(self).spec_remaining().drop_last(),
            r matches Some(p) ==> p.wf() && p.measure() < old(self).spec_parent_measure(),
    {
        self.subproblems.pop()
    }
}

// decides whether `e` is an edge of the problem's own graph; the
// solution may in principle answer a different root problem, so this
// is checked rather than assumed
fn edge_in_problem_graph(base: &BaseProblem, e: &Edge) -> (r: bool)
    requires
        base.wf(),
        e.u <= e.v,
    ensures
        r == base.spec_instance().spec_graph().edge_set().contains(edge_view(*e)),
{
    proof {
        base.lemma_wf();
        base.spec_instance().lemma_wf();
        base.spec_instance().spec_graph().lemma_edge_set_props();
    }
    let graph = base.instance().graph();
    let n = graph.num_verts();
    if e.u < n && e.v < n {
        graph.has_edge(e.u, e.v)
    } else {
        proof {
            if base.spec_instance().spec_graph().edge_set().contains(edge_view(*e)) {
            }
        }
        false
    }
}

// builds the subproblems of `parent_problem` along an infeasible
// non-fixed edge of `parent_solution`, in enumeration order reversed:
// the subproblem that forbids the selected edge sits first, and every
// subproblem extends the parent's fixings
fn expand_subproblems(parent_problem: &Problem, parent_solution: &Solution) -> (r: Vec<
    Problem,
>)
    requires
        parent_problem.wf(),
    ensures
        r@.len() <= parent_problem.spec_branching(),
        forall|k: int|
            0 <= k < r@.len() ==> (#[trigger] r@[k]).wf() && r@[k].measure()
                < parent_problem.measure() && r@[k].spec_branching()
                == parent_problem.spec_branching(),
        forall|k: int|
            0 <= k < r@.len() ==> (#[trigger] r@[k]).spec_base_of()
                == parent_problem.spec_base_of() && parent_problem.spec_added(
            ).subset_of(r@[k].spec_added()) && parent_problem.spec_removed().subset_of(
                r@[k].spec_removed(),
            ),
        r@.len() > 0 <==> branchable(parent_problem, parent_solution),
        r@.len() > 0 ==> exists|k: int|
            #[trigger] branch_candidate(parent_problem, parent_solution, k) && (forall|
                m: int,
            | 0 <= m < k ==> !branch_candidate(parent_problem, parent_solution, m))
                && r@[0].spec_added() == parent_problem.spec_added()
                && r@[0].spec_removed() == parent_problem.spec_removed().insert(
                edge_view(parent_solution.spec_edges()[k]),
            ) && (forall|m: int|
                1 <= m < r@.len() ==> derivation_child_shape(
                    parent_problem,
                    parent_solution,
                    parent_solution.spec_edges()[k],
                    #[trigger] r@[m],
                )),
{
    proof {
        parent_problem.lemma_wf();
        parent_problem.spec_base_of().lemma_wf();
        parent_problem.spec_base_of().spec_instance().lemma_wf();
        parent_problem.spec_base_of().spec_instance().spec_graph().lemma_edge_set_props();
        use_type_invariant(&*parent_solution);
        parent_solution.lemma_wf();
        parent_solution.spec_parent().lemma_wf();
        parent_solution.spec_parent().spec_instance().lemma_wf();
        parent_solution.spec_parent().spec_instance().spec_graph().lemma_edge_set_props();
    }
    let base: Arc<BaseProblem> = match parent_problem {
        Problem::Base(base_problem) => Arc::clone(base_problem),
        Problem::Derived(subproblem) => subproblem.base(),
    };
    let ghost pfixed = fixed_set(parent_problem);
    let sol_edges = parent_solution.edges();
    // select the first chosen edge that is outside its bounds, not yet
    // fixed, and an edge of this problem's graph
    let n_edges = sol_edges.len();
    let mut k: usize = 0;
    let mut found: bool = false;
    let mut e_star = Edge { u: 0, v: 0 };
    let ghost mut sel: int = 0;
    while k < n_edges && !found
        invariant
            parent_problem.wf(),
            base.wf(),
            *base == parent_problem.spec_base_of(),
            pfixed == fixed_set(parent_problem),
            k <= n_edges,
            n_edges == sol_edges@.len(),
            sol_edges@ == parent_solution.spec_edges(),
            forall|m: int|
                0 <= m < k && !(found && m == sel) ==> !branch_candidate(
                    parent_problem,
                    parent_solution,
                    m,
                ),
            found ==> 0 <= sel < k && branch_candidate(
                parent_problem,
                parent_solution,
                sel,
            ) && e_star == parent_solution.spec_edges()[sel],
            found ==> parent_solution.spec_edge_set().contains(edge_view(e_star))
                && base.spec_instance().spec_graph().edge_set().contains(edge_view(
                e_star,
            )) && !pfixed.contains(edge_view(e_star)) && parent_solution.spec_status(
                e_star,
            ) != EdgeStatus::Feasible && parent_solution.spec_parent().spec_instance(
            ).spec_graph().edge_set().contains(edge_view(e_star)),
        decreases n_edges - k,
    {
        let e = sol_edges[k];
        proof {
            use_type_invariant(&*parent_solution);
            parent_solution.lemma_wf();
            assert(parent_solution.spec_parent().spec_instance(
            ).spec_graph().edge_set().contains(edge_view(e)));
        }
        let non_fixed = match parent_problem {
            Problem::Base(_) => true,
            Problem::Derived(subproblem) => !subproblem.fixed_edge(&e),
        };
        proof {
            use_type_invariant(&*parent_solution);
            parent_solution.lemma_wf();
            parent_solution.spec_parent().lemma_wf();
            parent_solution.spec_parent().spec_instance().lemma_wf();
            parent_solution.spec_parent().spec_instance().spec_graph(
            ).lemma_edge_set_props();
            assert(e.u <= e.v) by {
                assert(parent_solution.spec_parent().spec_instance(
                ).spec_graph().edge_set().contains(edge_view(e)));
            }
        }
        if non_fixed && edge_in_problem_graph(&base, &e) {
            let status = parent_solution.edge_status(&e);
            if !matches!(status, EdgeStatus::Feasible) {
                e_star = e;
                found = true;
                proof {
                    sel = k as int;
                    assert(edge_views(parent_solution.spec_edges())[k as int]
                        == edge_view(e));
                    assert(parent_solution.spec_edge_set().contains(edge_view(e)));
                    assert(branch_candidate(parent_problem, parent_solution, k as int));
                }
            }
        }
        k = k + 1;
    }
    proof {
        if !found {
            assert forall|m: int| !branch_candidate(
                parent_problem,
                parent_solution,
                m,
            ) by {
                if 0 <= m < n_edges {
                }
            }
        }
    }
    let mut result: Vec<Problem> = Vec::new();
    if !found {
        return result;
    }
    let ghost parent_measure = parent_problem.measure();
    let ghost branching = parent_problem.spec_branching();
    // the subproblem that explores the trees without this edge
    let none_added: Vec<Edge> = Vec::new();
    let mut star_removed: Vec<Edge> = Vec::new();
    star_removed.push(e_star);
    proof {
        assert(edge_views(none_added@) =~= Seq::empty());
        assert(edge_view_set(none_added@) =~= Set::<(int, int)>::empty());
        assert(edge_views(star_removed@) =~= Seq::<(int, int)>::empty().push(
            edge_view(e_star),
        ));
        Seq::<(int, int)>::empty().lemma_push_to_set_commute(edge_view(e_star));
        assert(Seq::<(int, int)>::empty().to_set() =~= Set::<(int, int)>::empty());
        assert(edge_view_set(star_removed@) =~= Set::<(int, int)>::empty().insert(
            edge_view(e_star),
        ));
        parent_problem.lemma_wf();
        assert(parent_problem.spec_added().union(edge_view_set(none_added@)).disjoint(
            parent_problem.spec_removed().union(edge_view_set(star_removed@)),
        ));
    }
    let exclusion = Subproblem::from_problem(parent_problem, &none_added, &star_removed);
    proof {
        lemma_child_measure(parent_problem, &exclusion, edge_view(e_star));
        assert(exclusion.spec_added() =~= parent_problem.spec_added());
        assert(exclusion.spec_removed() =~= parent_problem.spec_removed().insert(
            edge_view(e_star),
        ));
    }
    result.push(Problem::Derived(exclusion));
    // one subproblem per chosen non-fixed dependency of the edge
    let status = parent_solution.edge_status(&e_star);
    let deps = parent_solution.deps(&e_star);
    let ghost ges = base.spec_instance().spec_graph().edge_set();
    // one subproblem per dependency, and the one above, fit the
    // branching bound of one more than the graph's edge count
    let cap = base.instance().graph().num_edges();
    let mut d: usize = 0;
    while d < deps.len()
        invariant
            parent_problem.wf(),
            base.wf(),
            *base == parent_problem.spec_base_of(),
            pfixed == fixed_set(parent_problem),
            parent_measure == parent_problem.measure(),
            branching == parent_problem.spec_branching(),
            d <= deps@.len(),
            cap == base.spec_instance().spec_graph().edge_set().len(),
            1 <= result@.len() <= cap + 1,
            branching == cap + 1,
            base.spec_instance().spec_graph().edge_set().contains(edge_view(e_star)),
            !pfixed.contains(edge_view(e_star)),
            result@[0].spec_added() == parent_problem.spec_added(),
            result@[0].spec_removed() == parent_problem.spec_removed().insert(
                edge_view(e_star),
            ),
            status == parent_solution.spec_status(e_star),
            edge_views(deps@).to_set() == dep_edge_views(parent_solution, e_star),
            forall|m: int|
                1 <= m < result@.len() ==> derivation_child_shape(
                    parent_problem,
                    parent_solution,
                    e_star,
                    #[trigger] result@[m],
                ),
            forall|m: int|
                0 <= m < result@.len() ==> (#[trigger] result@[m]).wf()
                    && result@[m].measure() < parent_measure
                    && result@[m].spec_branching() == branching,
            forall|m: int|
                0 <= m < result@.len() ==> (#[trigger] result@[m]).spec_base_of()
                    == parent_problem.spec_base_of() && parent_problem.spec_added(
                ).subset_of(result@[m].spec_added())
                    && parent_problem.spec_removed().subset_of(
                    result@[m].spec_removed(),
                ),
        decreases deps@.len() - d,
    {
        let dep = deps[d];
        let dep_non_fixed = match parent_problem {
            Problem::Base(_) => true,
            Problem::Derived(subproblem) => !subproblem.fixed_edge(&dep),
        };
        proof {
            use_type_invariant(&*parent_solution);
            parent_solution.lemma_wf();
        }
        let dep_canonical = dep.u <= dep.v;
        if dep_non_fixed && dep_canonical && result.len() <= cap
            && edge_in_problem_graph(&base, &dep) {
            match status {
                EdgeStatus::TooFewDeps => {
                    // force the edge together with this dependency
                    let mut both_added: Vec<Edge> = Vec::new();
                    both_added.push(e_star);
                    both_added.push(dep);
                    let no_removed: Vec<Edge> = Vec::new();
                    proof {
                        assert(edge_views(both_added@) =~= Seq::<(int, int)>::empty(
                        ).push(edge_view(e_star)).push(edge_view(dep)));
                        Seq::<(int, int)>::empty().lemma_push_to_set_commute(
                            edge_view(e_star),
                        );
                        Seq::<(int, int)>::empty().push(
                            edge_view(e_star),
                        ).lemma_push_to_set_commute(edge_view(dep));
                        assert(Seq::<(int, int)>::empty().to_set() =~= Set::<
                            (int, int),
                        >::empty());
                        assert(edge_view_set(both_added@) =~= Set::<(int, int)>::empty(
                        ).insert(edge_view(e_star)).insert(edge_view(dep)));
                        assert(edge_views(no_removed@) =~= Seq::empty());
                        assert(edge_view_set(no_removed@) =~= Set::<(int, int)>::empty());
                        parent_problem.lemma_wf();
                        assert(parent_problem.spec_added().union(
                            edge_view_set(both_added@),
                        ).disjoint(
                            parent_problem.spec_removed().union(
                                edge_view_set(no_removed@),
                            ),
                        ));
                    }
                    let child = Subproblem::from_problem(
                        parent_problem,
                        &both_added,
                        &no_removed,
                    );
                    proof {
                        lemma_child_measure(parent_problem, &child, edge_view(e_star));
                        assert(child.spec_added() =~= parent_problem.spec_added().insert(
                            edge_view(e_star),
                        ).insert(edge_view(dep)));
                        assert(child.spec_removed() =~= parent_problem.spec_removed());
                        assert(edge_views(deps@)[d as int] == edge_view(dep));
                        assert(edge_views(deps@).to_set().contains(edge_view(dep)));
                        assert(!fixed_set(parent_problem).contains(edge_view(dep)));
                        assert(derivation_child_shape(
                            parent_problem,
                            parent_solution,
                            e_star,
                            Problem::Derived(child),
                        ));
                    }
                    result.push(Problem::Derived(child));
                },
                EdgeStatus::TooManyDeps => {
                    // keep the edge, forbid this dependency
                    if !(dep.u == e_star.u && dep.v == e_star.v) {
                        let mut star_added: Vec<Edge> = Vec::new();
                        star_added.push(e_star);
                        let mut dep_removed: Vec<Edge> = Vec::new();
                        dep_removed.push(dep);
                        proof {
                            assert(edge_views(star_added@) =~= Seq::<
                                (int, int),
                            >::empty().push(edge_view(e_star)));
                            Seq::<(int, int)>::empty().lemma_push_to_set_commute(
                                edge_view(e_star),
                            );
                            assert(Seq::<(int, int)>::empty().to_set() =~= Set::<
                                (int, int),
                            >::empty());
                            assert(edge_view_set(star_added@) =~= Set::<
                                (int, int),
                            >::empty().insert(edge_view(e_star)));
                            assert(edge_views(dep_removed@) =~= Seq::<
                                (int, int),
                            >::empty().push(edge_view(dep)));
                            Seq::<(int, int)>::empty().lemma_push_to_set_commute(
                                edge_view(dep),
                            );
                            assert(edge_view_set(dep_removed@) =~= Set::<
                                (int, int),
                            >::empty().insert(edge_view(dep)));
                            parent_problem.lemma_wf();
                            assert(parent_problem.spec_added().union(
                                edge_view_set(star_added@),
                            ).disjoint(
                                parent_problem.spec_removed().union(
                                    edge_view_set(dep_removed@),
                                ),
                            ));
                        }
                        let child = Subproblem::from_problem(
                            parent_problem,
                            &star_added,
                            &dep_removed,
                        );
                        proof {
                            lemma_child_measure(
                                parent_problem,
                                &child,
                                edge_view(e_star),
                            );
                            assert(child.spec_added()
                                =~= parent_problem.spec_added().insert(edge_view(
                                e_star,
                            )));
                            assert(child.spec_removed()
                                =~= parent_problem.spec_removed().insert(edge_view(
                                dep,
                            )));
                            assert(edge_views(deps@)[d as int] == edge_view(dep));
                            assert(edge_views(deps@).to_set().contains(edge_view(dep)));
                            assert(!fixed_set(parent_problem).contains(edge_view(dep)));
                            assert(derivation_child_shape(
                                parent_problem,
                                parent_solution,
                                e_star,
                                Problem::Derived(child),
                            ));
                        }
                        result.push(Problem::Derived(child));
                    }
                },
                EdgeStatus::Feasible => {
                    // the selected edge is outside its bounds, so this
                    // case never arises
                },
            }
        }
        d = d + 1;
    }
    result
}

impl BBProblem for Problem {
    type Sol = Solution;

    open spec fn wf(&self) -> bool {
        match *self {
            Problem::Base(b) => b.wf(),
            Problem::Derived(s) => s.wf(),
        }
    }

    open spec fn measure(&self) -> nat {
        let total = self.spec_base_of().spec_instance().spec_graph().edge_set().len()
            as int;
        let fixed = self.spec_added().len() + self.spec_removed().len();
        if total >= fixed {
            (total - fixed) as nat
        } else {
            0
        }
    }

    open spec fn spec_branching(&self) -> nat {
        (self.spec_base_of().spec_instance().spec_graph().edge_set().len() + 1) as nat
    }

    open spec fn solution_of(&self, sol: &Solution) -> bool {
        sol.spec_parent() == self.spec_base_of()
    }

    open spec fn constrains(&self, sol: &Solution) -> bool {
        &&& sol.wf()
        &&& self.solution_of(sol)
        &&& self.spec_added().subset_of(sol.spec_edge_set())
        &&& sol.spec_edge_set().disjoint(self.spec_removed())
    }

    fn solve_relaxation(&self) -> (r: Solution)
        ensures
            r.spec_parent() == self.spec_base_of(),
            r.spec_edge_set().subset_of(
                kruskal_candidates(
                    self.spec_base_of().spec_instance().spec_graph().edge_set(),
                    self.spec_added(),
                    self.spec_removed(),
                ),
            ),
            forall|x: int, y: int|
                0 <= x < self.spec_base_of().spec_instance().spec_graph().spec_verts()
                    && 0 <= y < self.spec_base_of().spec_instance(
                ).spec_graph().spec_verts() ==> (crate::connectivity::connected(
                    r.spec_edge_set(),
                    x,
                    y,
                ) <==> crate::connectivity::connected(
                    kruskal_candidates(
                        self.spec_base_of().spec_instance().spec_graph().edge_set(),
                        self.spec_added(),
                        self.spec_removed(),
                    ),
                    x,
                    y,
                )),
            crate::properties::spec_num_components(
                r.spec_edge_set(),
                self.spec_base_of().spec_instance().spec_graph().spec_verts(),
            ) == self.spec_base_of().spec_instance().spec_graph().spec_verts()
                - r.spec_edge_set().len(),
            self.spec_base_of().spec_instance().spec_graph().spec_verts() >= 1 ==> (
            spans(
                r.spec_edge_set(),
                self.spec_base_of().spec_instance().spec_graph().spec_verts(),
            ) <==> r.spec_edge_set().len() == self.spec_base_of().spec_instance(
            ).spec_graph().spec_verts() - 1),
    {
        proof {
            self.lemma_wf();
            self.spec_base_of().lemma_wf();
            self.spec_base_of().spec_instance().lemma_wf();
            self.spec_base_of().spec_instance().spec_graph().lemma_capacity_ok();
            self.spec_base_of().spec_instance().spec_graph().lemma_edge_set_props();
        }
        let base: Arc<BaseProblem> = match self {
            Problem::Base(base_problem) => Arc::clone(base_problem),
            Problem::Derived(subproblem) => subproblem.base(),
        };
        let chosen: EdgeSet = match self {
            Problem::Base(_) => kruskal(base.instance().graph()),
            Problem::Derived(subproblem) => custom_kruskal(
                base.instance().graph(),
                subproblem.added_edges(),
                subproblem.removed_edges(),
            ),
        };
        let ghost ges = base.spec_instance().spec_graph().edge_set();
        proof {
            assert(chosen.view_set().subset_of(ges)) by {
                match *self {
                    Problem::Base(_) => {},
                    Problem::Derived(s) => {
                        assert forall|e: (int, int)| #[trigger]
                            chosen.view_set().contains(e) implies ges.contains(e) by {
                            assert(kruskal_candidates(
                                ges,
                                s.spec_added(),
                                s.spec_removed(),
                            ).contains(e));
                        }
                    },
                }
            }
        }
        let items = chosen.to_vec();
        let mut edges: Vec<Edge> = Vec::new();
        let mut subgraph = Graph::new(base.instance().graph().num_verts());
        let mut k: usize = 0;
        proof {
            assert(subgraph.edge_set() =~= edge_view_set(edges@));
        }
        while k < items.len()
            invariant
                base.wf(),
                ges == base.spec_instance().spec_graph().edge_set(),
                k <= items@.len(),
                forall|m: int|
                    0 <= m < items@.len() ==> ges.contains(pair_view(
                        #[trigger] items@[m],
                    )),
                forall|m1: int, m2: int|
                    0 <= m1 < m2 < items@.len() ==> pair_view(#[trigger] items@[m1])
                        != pair_view(#[trigger] items@[m2]),
                edges@.len() == k,
                forall|m: int|
                    0 <= m < k ==> edge_view(#[trigger] edges@[m]) == pair_view(
                        items@[m],
                    ),
                subgraph.wf(),
                subgraph.spec_verts() == base.spec_instance().spec_graph().spec_verts(),
                subgraph.edge_set() == edge_view_set(edges@),
            decreases items@.len() - k,
        {
            let (u, v) = items[k];
            proof {
                base.lemma_wf();
                base.spec_instance().lemma_wf();
                base.spec_instance().spec_graph().lemma_edge_set_props();
                assert(ges.contains(pair_view(items@[k as int])));
                assert(!subgraph.edge_set().contains((u as int, v as int))) by {
                    if edge_view_set(edges@).contains((u as int, v as int)) {
                        let m = choose|m: int|
                            0 <= m < edge_views(edges@).len() && edge_views(edges@)[m]
                                == (u as int, v as int);
                        assert(edge_view(edges@[m]) == pair_view(items@[k as int]));
                        assert(pair_view(items@[m]) == pair_view(items@[k as int]));
                    }
                }
            }
            let ghost pre_edges = edges@;
            let res = subgraph.add_edge(u, v);
            edges.push(Edge { u, v });
            proof {
                assert(res is Ok);
                assert(edge_views(edges@) =~= edge_views(pre_edges).push(
                    (u as int, v as int),
                ));
                edge_views(pre_edges).lemma_push_to_set_commute((u as int, v as int));
                assert(subgraph.edge_set() =~= edge_view_set(edges@));
            }
            k = k + 1;
        }
        proof {
            assert forall|k1: int, k2: int|
                0 <= k1 < k2 < edges@.len() implies edge_view(#[trigger] edges@[k1])
                != edge_view(#[trigger] edges@[k2]) by {
                assert(pair_view(items@[k1]) != pair_view(items@[k2]));
            }
            // the solution's edge set is the chosen set
            assert forall|e: (int, int)| #[trigger] edge_view_set(edges@).contains(e)
                implies chosen.view_set().contains(e) by {
                let m = choose|m: int|
                    0 <= m < edge_views(edges@).len() && edge_views(edges@)[m] == e;
                assert(edge_view(edges@[m]) == e);
                assert(pair_view(items@[m]) == e);
                assert(pairs_view(items@)[m] == e);
                assert(pairs_view(items@).to_set().contains(e));
            }
            assert forall|e: (int, int)| #[trigger] chosen.view_set().contains(e)
                implies edge_view_set(edges@).contains(e) by {
                let m = choose|m: int|
                    0 <= m < pairs_view(items@).len() && pairs_view(items@)[m] == e;
                assert(pair_view(items@[m]) == e);
                assert(edge_view(edges@[m]) == e);
                assert(edge_views(edges@)[m] == e);
                assert(edge_views(edges@).to_set().contains(e));
            }
            assert(edge_view_set(edges@) =~= chosen.view_set());
            match *self {
                Problem::Base(_) => {
                    assert(kruskal_candidates(ges, Set::empty(), Set::empty()) =~= ges);
                },
                Problem::Derived(_) => {},
            }
        }
        let sol = Solution::new(edges, subgraph, base);
        proof {
            // the relaxed cost is least among the feasible solutions
            // that respect the fixed edges: each is a competing
            // spanning forest of the same candidates
            let w = base.spec_instance().spec_graph().spec_weights();
            let n = base.spec_instance().spec_graph().spec_verts();
            let cands = kruskal_candidates(ges, self.spec_added(), self.spec_removed());
            lemma_sum_weights_as_set(edges@, w);
            assert(sol.spec_cost() == set_weight(chosen.view_set(), w));
            assert forall|c: Solution|
                c.wf() && self.solution_of(&c) && c.spec_is_feasible()
                    && self.spec_added().subset_of(c.spec_edge_set())
                    && c.spec_edge_set().disjoint(self.spec_removed()) implies sol.spec_cost()
                <= #[trigger] c.spec_cost() by {
                let s2 = c.spec_edge_set();
                assert(c.spec_parent() == *base);
                assert(s2.subset_of(cands)) by {
                    assert forall|q: (int, int)| #[trigger] s2.contains(q) implies cands.contains(
                        q,
                    ) by {
                        let m = choose|m: int|
                            0 <= m < edge_views(c.spec_edges()).len() && edge_views(
                                c.spec_edges(),
                            )[m] == q;
                        assert(edge_view(c.spec_edges()[m]) == q);
                        assert(ges.contains(q));
                    }
                }
                assert(n >= 1);
                lemma_spans_components(s2, n);
                assert(crate::properties::spec_num_components(s2, n) == n - s2.len());
                assert(spans(cands, n)) by {
                    assert forall|x: int, y: int|
                        0 <= x < n && 0 <= y < n implies crate::connectivity::connected(
                        cands,
                        x,
                        y,
                    ) by {
                        crate::connectivity::lemma_connected_subset(s2, cands, x, y);
                    }
                }
                lemma_spans_components(cands, n);
                assert(chosen.view_set().intersect(self.spec_added()).subset_of(s2));
                assert(set_weight(chosen.view_set(), w) <= set_weight(s2, w));
                lemma_sum_weights_as_set(c.spec_edges(), w);
            }
        }
        sol
    }

    fn get_subproblems(&self, solution: &Solution) -> (r: Vec<Problem>)
        ensures
            forall|k: int|
                0 <= k < r@.len() ==> (#[trigger] r@[k]).spec_base_of()
                    == self.spec_base_of() && self.spec_added().subset_of(
                    r@[k].spec_added(),
                ) && self.spec_removed().subset_of(r@[k].spec_removed()),
            r@.len() > 0 <==> branchable(self, solution),
            r@.len() > 0 ==> exists|k: int|
                #[trigger] branch_candidate(self, solution, k) && (forall|m: int|
                    0 <= m < k ==> !branch_candidate(self, solution, m)) && r@[r@.len()
                    - 1].spec_added() == self.spec_added() && r@[r@.len()
                    - 1].spec_removed() == self.spec_removed().insert(
                    edge_view(solution.spec_edges()[k]),
                ) && (forall|m: int|
                    0 <= m < r@.len() - 1 ==> derivation_child_shape(
                        self,
                        solution,
                        solution.spec_edges()[k],
                        #[trigger] r@[m],
                    )),
    {
        let built = expand_subproblems(self, solution);
        let ghost bv = built@;
        let mut rest = built;
        let mut result: Vec<Problem> = Vec::new();
        let ghost pm = self.measure();
        let ghost pb = self.spec_branching();
        while rest.len() > 0
            invariant
                rest@ == bv.subrange(0, rest@.len() as int),
                result@.len() + rest@.len() == bv.len(),
                bv.len() <= pb,
                pm == self.measure(),
                pb == self.spec_branching(),
                forall|m: int|
                    0 <= m < bv.len() ==> (#[trigger] bv[m]).wf() && bv[m].measure()
                        < pm && bv[m].spec_branching() == pb && bv[m].spec_base_of()
                        == self.spec_base_of() && self.spec_added().subset_of(
                        bv[m].spec_added(),
                    ) && self.spec_removed().subset_of(bv[m].spec_removed()),
                forall|m: int|
                    0 <= m < result@.len() ==> #[trigger] result@[m] == bv[bv.len() - 1
                        - m],
            decreases rest@.len(),
        {
            let next = rest.pop();
            match next {
                Some(subproblem) => {
                    result.push(subproblem);
                    proof {
                        assert(rest@ =~= bv.subrange(0, rest@.len() as int));
                    }
                },
                None => {},
            }
        }
        proof {
            if bv.len() > 0 {
                assert(result@[result@.len() - 1] == bv[0]);
            }
        }
        result
    }
}

impl SolutionContract for Solution {
    type Var = Edge;

    type SolCost = EdgeWeight;

    open spec fn spec_is_feasible(&self) -> bool {
        self.spec_is_spanning_tree() && self.spec_satisfies_dependencies()
    }

    open spec fn spec_cost(&self) -> int {
        sum_weights(
            self.spec_edges(),
            self.spec_parent().spec_instance().spec_graph().spec_weights(),
        )
    }

    fn is_feasible(&self) -> (r: bool) {
        proof {
            use_type_invariant(&*self);
        }
        is_spanning_tree(&self.subgraph) && self.satisfies_dependencies()
    }

    fn get_cost(&self) -> (r: EdgeWeight) {
        EdgeWeight { weight: self.cost() }
    }

    fn get_value(&self, var: &Edge) -> (r: bool)
        ensures
            r == self.spec_edge_set().contains(edge_view(*var)),
    {
        self.contains_edge(var)
    }
}

} // verus!
