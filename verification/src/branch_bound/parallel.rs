use vstd::prelude::*;

use vstd::multiset::Multiset;

use crate::branch_bound::solving_status::SolvingStatus;
use crate::branch_bound::traits::BBProblem;
use crate::branch_bound::traits::Solution;
use crate::branch_bound::traits::SolutionCost;

verus! {

/// A multiset of the relaxed-solution costs of the currently open
/// subproblems. The least member is the global lower bound.
pub struct LowerBoundManager<C: SolutionCost> {
    lower_bounds: Vec<C>,
}

impl<C: SolutionCost> LowerBoundManager<C> {
    /// The stored cost values as a multiset.
    pub closed spec fn spec_multiset(self) -> Multiset<int> {
        self.lower_bounds@.map_values(|c: C| c.spec_value()).to_multiset()
    }

    /// Creates an empty manager.
    pub fn new() -> (r: Self)
        ensures
            r.spec_multiset() == Multiset::<int>::empty(),
    {
        let r = Self { lower_bounds: Vec::new() };
        proof {
            broadcast use vstd::seq_lib::group_to_multiset_ensures;

            let mapped = r.lower_bounds@.map_values(|c: C| c.spec_value());
            assert(mapped =~= Seq::empty());
            mapped.to_multiset_ensures();
            vstd::multiset::lemma_multiset_empty_len(mapped.to_multiset());
        }
        r
    }

    /// Records one more open subproblem with lower bound `lb`.
    pub fn register_lower_bound(&mut self, lb: C)
        ensures
            final(self).spec_multiset() == old(self).spec_multiset().insert(
                lb.spec_value(),
            ),
    {
        broadcast use vstd::seq_lib::group_to_multiset_ensures;

        let ghost prev = self.lower_bounds@;
        self.lower_bounds.push(lb);
        proof {
            assert(self.lower_bounds@.map_values(|c: C| c.spec_value()) =~= prev.map_values(
                |c: C| c.spec_value(),
            ).push(lb.spec_value()));
            prev.map_values(|c: C| c.spec_value()).to_multiset_ensures();
            assert(final(self).spec_multiset() =~= old(self).spec_multiset().insert(
                lb.spec_value(),
            ));
        }
    }

    /// Discards one occurrence of the lower bound `lb`; nothing changes
    /// when it is absent.
    pub fn discard_lower_bound(&mut self, lb: C)
        ensures
            final(self).spec_multiset() == (if old(self).spec_multiset().count(
                lb.spec_value(),
            ) > 0 {
                old(self).spec_multiset().remove(lb.spec_value())
            } else {
                old(self).spec_multiset()
            }),
    {
        broadcast use vstd::seq_lib::group_to_multiset_ensures;

        let n = self.lower_bounds.len();
        let mut k: usize = 0;
        let mut idx: usize = n;
        while k < n
            invariant
                self == old(self),
                k <= n,
                n == self.lower_bounds@.len(),
                idx <= n,
                idx == n ==> (forall|m: int|
                    0 <= m < k ==> (#[trigger] self.lower_bounds@[m]).spec_value()
                        != lb.spec_value()),
                idx < n ==> self.lower_bounds@[idx as int].spec_value()
                    == lb.spec_value(),
            decreases n - k,
        {
            if idx == n && self.lower_bounds[k].eq_value(&lb) {
                idx = k;
            }
            k = k + 1;
        }
        let ghost prev = self.lower_bounds@;
        let ghost mapped = prev.map_values(|c: C| c.spec_value());
        if idx == n {
            proof {
                mapped.to_multiset_ensures();
                if old(self).spec_multiset().count(lb.spec_value()) > 0 {
                    assert(mapped.contains(lb.spec_value()));
                    let m = choose|m: int|
                        0 <= m < mapped.len() && mapped[m] == lb.spec_value();
                    assert(prev[m].spec_value() == lb.spec_value());
                }
            }
            return ;
        }
        self.lower_bounds.remove(idx);
        proof {
            mapped.to_multiset_ensures();
            assert(self.lower_bounds@.map_values(|c: C| c.spec_value()) =~= mapped.remove(
                idx as int,
            ));
            assert(mapped[idx as int] == lb.spec_value());
            assert(mapped.contains(mapped[idx as int]));
            assert(old(self).spec_multiset().count(lb.spec_value()) > 0);
            assert(final(self).spec_multiset() =~= old(self).spec_multiset().remove(
                lb.spec_value(),
            ));
        }
    }

    /// Returns a least stored lower bound, or `None` when no
    /// subproblem is open.
    pub fn min_lower_bound(&self) -> (r: Option<&C>)
        ensures
            (r is None) <==> self.spec_multiset().len() == 0,
            r matches Some(c) ==> self.spec_multiset().contains(c.spec_value()) && (
            forall|v: int|
                #[trigger] self.spec_multiset().contains(v) ==> c.spec_value() <= v),
    {
        broadcast use vstd::seq_lib::group_to_multiset_ensures;

        let n = self.lower_bounds.len();
        if n == 0 {
            proof {
                assert(self.lower_bounds@.map_values(|c: C| c.spec_value())
                    =~= Seq::empty());
                assert(self.spec_multiset() =~= Multiset::<int>::empty());
            }
            return None;
        }
        let ghost mapped = self.lower_bounds@.map_values(|c: C| c.spec_value());
        let mut best: usize = 0;
        let mut k: usize = 1;
        while k < n
            invariant
                n == self.lower_bounds@.len(),
                best < k,
                1 <= k <= n,
                mapped == self.lower_bounds@.map_values(|c: C| c.spec_value()),
                forall|m: int|
                    0 <= m < k ==> self.lower_bounds@[best as int].spec_value() <= (
                    #[trigger] self.lower_bounds@[m]).spec_value(),
            decreases n - k,
        {
            if self.lower_bounds[k].lt(&self.lower_bounds[best]) {
                best = k;
            }
            k = k + 1;
        }
        proof {
            mapped.to_multiset_ensures();
            assert(mapped[best as int] == self.lower_bounds@[best as int].spec_value());
            assert(mapped.contains(mapped[best as int]));
            assert forall|v: int| #[trigger] self.spec_multiset().contains(v)
                implies self.lower_bounds@[best as int].spec_value() <= v by {
                assert(mapped.contains(v));
                let m = choose|m: int| 0 <= m < mapped.len() && mapped[m] == v;
                assert(self.lower_bounds@[m].spec_value() == v);
            }
        }
        Some(&self.lower_bounds[best])
    }
}

/// Closing one open subproblem and opening children whose relaxed
/// costs are no smaller keeps every lower bound of the open costs a
/// lower bound: when the relaxation never shrinks along a branch, the
/// global lower bound of the solve never decreases.
pub proof fn lemma_open_bounds_monotone(
    bounds: Multiset<int>,
    parent: int,
    added: Multiset<int>,
    low: int,
)
    requires
        bounds.contains(parent),
        forall|v: int| #[trigger] bounds.contains(v) ==> low <= v,
        forall|v: int| #[trigger] added.contains(v) ==> parent <= v,
    ensures
        forall|v: int| #[trigger]
            bounds.remove(parent).add(added).contains(v) ==> low <= v,
{
    assert forall|v: int| #[trigger]
        bounds.remove(parent).add(added).contains(v) implies low <= v by {
        if bounds.contains(v) {
        } else {
            assert(added.contains(v));
        }
    }
}

/// An instruction for a worker: stop, or treat a problem whose relaxed
/// solution is already known to be infeasible.
pub enum MessageToWorker<T: BBProblem> {
    Finish,
    Treat(T, <T as BBProblem>::Sol),
}

/// One expanded subproblem: the subproblem itself, its relaxed
/// solution, and whether that relaxed solution is feasible.
pub struct SubproblemInfo<T: BBProblem> {
    pub subproblem: T,
    pub relaxed_solution: <T as BBProblem>::Sol,
    pub relaxed_sol_is_feasible: bool,
}

/// A worker's report: the relaxed cost of the problem it treated, and
/// the expanded subproblems.
pub struct MessageFromWorker<T: BBProblem> {
    pub parent_cost: <<T as BBProblem>::Sol as Solution>::SolCost,
    pub infos: Vec<SubproblemInfo<T>>,
}

/// A well-formed report: every subproblem is well formed and its
/// feasibility flag states the feasibility of its relaxed solution.
pub open spec fn message_wf<T: BBProblem>(msg: MessageFromWorker<T>) -> bool {
    forall|k: int|
        0 <= k < msg.infos@.len() ==> (#[trigger] msg.infos@[k]).subproblem.wf() && msg.infos@[
            k
        ].relaxed_sol_is_feasible == msg.infos@[k].relaxed_solution.spec_is_feasible()
}

// assembles the report for a treated problem: it lists exactly the
// given subproblems, in order, each paired with a freshly solved
// relaxation of its own and that relaxation's feasibility flag
fn build_report<T: BBProblem>(
    parent_cost: <<T as BBProblem>::Sol as Solution>::SolCost,
    children: Vec<T>,
) -> (r: MessageFromWorker<T>)
    requires
        forall|k: int| 0 <= k < children@.len() ==> (#[trigger] children@[k]).wf(),
    ensures
        r.parent_cost == parent_cost,
        r.infos@.len() == children@.len(),
        forall|k: int|
            0 <= k < r.infos@.len() ==> (#[trigger] r.infos@[k]).subproblem
                == children@[k] && r.infos@[k].relaxed_sol_is_feasible == r.infos@[
                k
            ].relaxed_solution.spec_is_feasible() && children@[k].solution_of(
                &r.infos@[k].relaxed_solution,
            ) && call_ensures(
                T::solve_relaxation,
                (&children@[k],),
                r.infos@[k].relaxed_solution,
            ),
{
    let ghost cv = children@;
    let mut infos: Vec<SubproblemInfo<T>> = Vec::new();
    let mut rest = children;
    while rest.len() > 0
        invariant
            infos@.len() + rest@.len() == cv.len(),
            rest@ == cv.subrange(infos@.len() as int, cv.len() as int),
            forall|k: int| 0 <= k < cv.len() ==> (#[trigger] cv[k]).wf(),
            forall|k: int|
                0 <= k < infos@.len() ==> (#[trigger] infos@[k]).subproblem == cv[k]
                    && infos@[k].relaxed_sol_is_feasible == infos@[
                    k
                ].relaxed_solution.spec_is_feasible() && cv[k].solution_of(
                    &infos@[k].relaxed_solution,
                ) && call_ensures(
                    T::solve_relaxation,
                    (&cv[k],),
                    infos@[k].relaxed_solution,
                ),
        decreases rest@.len(),
    {
        let subproblem = rest.remove(0);
        proof {
            assert(subproblem == cv[infos@.len() as int]);
        }
        let relaxed = subproblem.solve_relaxation();
        let feasible = relaxed.is_feasible();
        infos.push(
            SubproblemInfo {
                subproblem,
                relaxed_solution: relaxed,
                relaxed_sol_is_feasible: feasible,
            },
        );
        proof {
            assert(rest@ =~= cv.subrange(infos@.len() as int, cv.len() as int));
        }
    }
    MessageFromWorker { parent_cost, infos }
}

/// The work a worker performs for one `Treat` instruction: it expands
/// the problem into subproblems, solves each one's relaxation, and
/// reports exactly those subproblems together with the treated
/// problem's relaxed cost. Every reported subproblem is a strict
/// shrinking of the treated problem and every reported solution
/// answers it.
pub fn worker_treat<T: BBProblem>(problem: T, relaxed_solution: <T as BBProblem>::Sol) -> (r:
    MessageFromWorker<T>)
    requires
        problem.wf(),
        !relaxed_solution.spec_is_feasible(),
    ensures
        message_wf(r),
        r.parent_cost.spec_value() == relaxed_solution.spec_cost(),
        r.infos@.len() <= problem.spec_branching(),
        forall|k: int|
            0 <= k < r.infos@.len() ==> (#[trigger] r.infos@[k]).subproblem.measure()
                < problem.measure() && r.infos@[k].subproblem.spec_branching()
                == problem.spec_branching() && problem.solution_of(
                &r.infos@[k].relaxed_solution,
            ),
        exists|children: Vec<T>|
            #![auto]
            call_ensures(T::get_subproblems, (&problem, &relaxed_solution), children)
                && children@.len() == r.infos@.len() && (forall|k: int|
                0 <= k < r.infos@.len() ==> (#[trigger] r.infos@[k]).subproblem
                    == children@[k] && call_ensures(
                    T::solve_relaxation,
                    (&children@[k],),
                    r.infos@[k].relaxed_solution,
                )),
{
    let children = problem.get_subproblems(&relaxed_solution);
    let ghost cvec = children;
    let ghost cv = children@;
    let report = build_report(relaxed_solution.get_cost(), children);
    proof {
        assert forall|k: int| 0 <= k < report.infos@.len() implies (
        #[trigger] report.infos@[k]).subproblem.measure() < problem.measure()
            && report.infos@[k].subproblem.spec_branching() == problem.spec_branching()
            && problem.solution_of(&report.infos@[k].relaxed_solution) by {
            assert(report.infos@[k].subproblem == cv[k]);
            assert(cv[k].solution_of(&report.infos@[k].relaxed_solution));
        }
        assert(call_ensures(T::get_subproblems, (&problem, &relaxed_solution), cvec));
    }
    report
}

/// What one worker report does to the driver state, folding over the
/// reported subproblems in order: a feasible relaxation that strictly
/// improves on the best known cost becomes the best solution; an
/// infeasible one whose cost is strictly below the best known cost is
/// opened, that is, its cost joins the open bounds and it is
/// dispatched; everything else is pruned. The result is the new best
/// solution, the dispatches in order, and the newly opened bounds.
pub open spec fn spec_process<T: BBProblem>(
    infos: Seq<SubproblemInfo<T>>,
    best: Option<<T as BBProblem>::Sol>,
) -> (Option<<T as BBProblem>::Sol>, Seq<(T, <T as BBProblem>::Sol)>, Multiset<int>)
    decreases infos.len(),
{
    if infos.len() == 0 {
        (best, Seq::empty(), Multiset::empty())
    } else {
        let info = infos.first();
        let improves = match best {
            None => true,
            Some(b) => info.relaxed_solution.spec_cost() < b.spec_cost(),
        };
        if info.relaxed_sol_is_feasible {
            let updated = if improves {
                Some(info.relaxed_solution)
            } else {
                best
            };
            spec_process(infos.drop_first(), updated)
        } else if improves {
            let rest = spec_process(infos.drop_first(), best);
            (
                rest.0,
                seq![(info.subproblem, info.relaxed_solution)] + rest.1,
                rest.2.insert(info.relaxed_solution.spec_cost()),
            )
        } else {
            spec_process(infos.drop_first(), best)
        }
    }
}

/// The upper bound `a` refines `b`: whenever `b` exists, `a` exists
/// and is no larger.
pub open spec fn bound_refines(a: Option<int>, b: Option<int>) -> bool {
    match b {
        None => true,
        Some(bv) => a matches Some(av) && av <= bv,
    }
}

/// The driver-side state of the parallel solve: the multiset of open
/// lower bounds, the count of subproblems handed to workers and not
/// yet reported back, and the solving status. The driver thread owns
/// this state alone; workers only ever see messages.
pub struct Coordinator<T: BBProblem> {
    lb_manager: LowerBoundManager<<<T as BBProblem>::Sol as Solution>::SolCost>,
    open_subproblems: u64,
    status: SolvingStatus<<T as BBProblem>::Sol>,
}

impl<T: BBProblem> Coordinator<T> {
    /// The number of dispatched and unreported subproblems.
    pub closed spec fn spec_open(self) -> int {
        self.open_subproblems as int
    }

    /// The best known solution.
    pub closed spec fn spec_best(self) -> Option<<T as BBProblem>::Sol> {
        self.status.spec_best()
    }

    /// The current upper bound.
    pub closed spec fn spec_upper_bound(self) -> Option<int> {
        self.status.spec_upper_bound()
    }

    /// The current lower bound.
    pub closed spec fn spec_lower_bound(self) -> Option<int> {
        self.status.spec_lower_bound()
    }

    /// The relaxed costs of the open subproblems.
    pub closed spec fn spec_open_bounds(self) -> Multiset<int> {
        self.lb_manager.spec_multiset()
    }

    pub closed spec fn wf(self) -> bool {
        &&& self.status.wf()
        &&& (self.status.spec_best() matches Some(s) ==> s.spec_is_feasible())
    }

    /// Creates a coordinator with no open subproblems and no bounds.
    pub fn new() -> (r: Self)
        ensures
            r.wf(),
            r.spec_open() == 0,
            r.spec_best() is None,
    {
        Self {
            lb_manager: LowerBoundManager::new(),
            open_subproblems: 0,
            status: SolvingStatus::new(),
        }
    }

    /// Treats the root problem: solves its relaxation and registers its
    /// cost as the initial lower bound. When the relaxed solution is
    /// feasible it becomes the best solution and nothing needs
    /// dispatching; otherwise the problem is returned for the first
    /// worker, as one open subproblem.
    pub fn start(&mut self, problem: T) -> (r: Option<(T, <T as BBProblem>::Sol)>)
        requires
            old(self).wf(),
            old(self).spec_open() == 0,
            old(self).spec_best() is None,
            problem.wf(),
        ensures
            final(self).wf(),
            r matches Some(pr) ==> pr.0 == problem && problem.wf()
                && !pr.1.spec_is_feasible() && problem.solution_of(&pr.1) && final(self).spec_open() == 1 && final(self).spec_open_bounds() == old(self).spec_open_bounds().insert(pr.1.spec_cost()) && final(self).spec_best()
                is None,
            r is None ==> (final(self).spec_best() matches Some(s)
                && s.spec_is_feasible() && problem.solution_of(&s) && final(self).spec_upper_bound() == Some(s.spec_cost()) && final(self).spec_open_bounds() == old(self).spec_open_bounds().insert(s.spec_cost()))
                && final(self).spec_open() == 0,
    {
        let root_relaxed_sol = problem.solve_relaxation();
        self.lb_manager.register_lower_bound(root_relaxed_sol.get_cost());
        let _ = self.status.set_lower_bound(root_relaxed_sol.get_cost());
        if root_relaxed_sol.is_feasible() {
            proof {
                self.status.lemma_wf();
            }
            let res = self.status.set_best_solution(root_relaxed_sol);
            proof {
                assert(res is Ok);
            }
            None
        } else {
            self.open_subproblems = 1;
            Some((problem, root_relaxed_sol))
        }
    }

    /// Returns the number of subproblems handed to workers and not yet
    /// reported back.
    pub fn open_subproblems(&self) -> (r: u64)
        ensures
            r == self.spec_open(),
    {
        self.open_subproblems
    }

    /// Determines whether the solve must continue: the bounds have not
    /// met and workers still hold subproblems.
    pub fn keep_running(&self) -> (r: bool)
        requires
            self.wf(),
        ensures
            r == (!(self.spec_lower_bound() is Some && self.spec_upper_bound() is Some
                && self.spec_lower_bound() == self.spec_upper_bound())
                && self.spec_open() > 0),
    {
        !self.status.finished() && self.open_subproblems > 0
    }

    /// Processes one worker report: closes the treated subproblem,
    /// records improving feasible solutions, and returns the
    /// subproblems to dispatch, namely those whose relaxed cost is
    /// strictly below the best known cost. The upper bound never
    /// increases.
    pub fn handle_message(&mut self, msg: MessageFromWorker<T>) -> (r: Vec<
        (T, <T as BBProblem>::Sol),
    >)
        requires
            old(self).wf(),
            old(self).spec_open() >= 1,
            old(self).spec_open() + msg.infos@.len() <= u64::MAX,
            message_wf(msg),
        ensures
            final(self).wf(),
            final(self).spec_best() == spec_process(
                msg.infos@,
                old(self).spec_best(),
            ).0,
            r@ == spec_process(msg.infos@, old(self).spec_best()).1,
            final(self).spec_open_bounds() == (if old(self).spec_open_bounds().count(
                msg.parent_cost.spec_value(),
            ) > 0 {
                old(self).spec_open_bounds().remove(msg.parent_cost.spec_value())
            } else {
                old(self).spec_open_bounds()
            }).add(spec_process(msg.infos@, old(self).spec_best()).2),
            bound_refines(final(self).spec_upper_bound(), old(self).spec_upper_bound()),
            forall|k: int|
                0 <= k < r@.len() ==> (#[trigger] r@[k]).0.wf()
                    && !r@[k].1.spec_is_feasible(),
            final(self).spec_open() == old(self).spec_open() - 1 + r@.len(),
            final(self).spec_lower_bound() == old(self).spec_lower_bound() || (exists|
                v: int,
            |
                final(self).spec_open_bounds().contains(v) && (forall|w: int|
                    #[trigger] final(self).spec_open_bounds().contains(w) ==> v <= w)
                    && final(self).spec_lower_bound() == Some(v)),
    {
        self.open_subproblems = self.open_subproblems - 1;
        self.lb_manager.discard_lower_bound(msg.parent_cost);
        let mut dispatches: Vec<(T, <T as BBProblem>::Sol)> = Vec::new();
        let mut infos = msg.infos;
        let ghost infos0 = infos@;
        let ghost full = spec_process(infos0, old(self).spec_best());
        let ghost ms_base = self.lb_manager.spec_multiset();
        let ghost mut acc_reg = Multiset::<int>::empty();
        let ghost base_open = self.spec_open();
        proof {
            assert(self.lb_manager.spec_multiset() =~= ms_base.add(acc_reg));
        }
        while infos.len() > 0
            invariant
                self.wf(),
                self.spec_lower_bound() == old(self).spec_lower_bound(),
                bound_refines(self.spec_upper_bound(), old(self).spec_upper_bound()),
                forall|k: int|
                    0 <= k < infos@.len() ==> (#[trigger] infos@[k]).subproblem.wf()
                        && infos@[k].relaxed_sol_is_feasible == infos@[
                        k
                    ].relaxed_solution.spec_is_feasible(),
                forall|k: int|
                    0 <= k < dispatches@.len() ==> (#[trigger] dispatches@[k]).0.wf()
                        && !dispatches@[k].1.spec_is_feasible(),
                dispatches@.len() + infos@.len() <= infos0.len(),
                base_open + infos0.len() <= u64::MAX,
                self.spec_open() == base_open + dispatches@.len(),
                full.0 == spec_process(infos@, self.spec_best()).0,
                full.1 == dispatches@ + spec_process(infos@, self.spec_best()).1,
                full.2 == acc_reg.add(spec_process(infos@, self.spec_best()).2),
                self.lb_manager.spec_multiset() == ms_base.add(acc_reg),
            decreases infos@.len(),
        {
            let ghost infos_pre = infos@;
            let ghost best_pre = self.spec_best();
            let ghost rec = spec_process(infos_pre, best_pre);
            let info = infos.remove(0);
            proof {
                assert(infos@ =~= infos_pre.drop_first());
                assert(info == infos_pre.first());
            }
            let cost = info.relaxed_solution.get_cost();
            if info.relaxed_sol_is_feasible {
                proof {
                    self.status.lemma_wf();
                }
                let improves = match self.status.best_solution() {
                    Some(best) => cost.lt(&best.get_cost()),
                    None => true,
                };
                if improves {
                    let res = self.status.set_best_solution(info.relaxed_solution);
                    proof {
                        assert(res is Ok);
                    }
                }
            } else {
                let keep = match self.status.best_solution() {
                    Some(best) => cost.lt(&best.get_cost()),
                    None => true,
                };
                if keep {
                    self.lb_manager.register_lower_bound(cost);
                    let ghost dispatches_pre = dispatches@;
                    dispatches.push((info.subproblem, info.relaxed_solution));
                    self.open_subproblems = self.open_subproblems + 1;
                    proof {
                        acc_reg = acc_reg.insert(info.relaxed_solution.spec_cost());
                        let rest = spec_process(infos@, self.spec_best());
                        assert(full.1 =~= dispatches@ + rest.1) by {
                            assert(rec.1 == seq![
                                (info.subproblem, info.relaxed_solution),
                            ] + rest.1);
                            assert(dispatches_pre + rec.1 =~= dispatches@ + rest.1);
                        }
                        assert(full.2 =~= acc_reg.add(rest.2));
                        assert(self.lb_manager.spec_multiset() =~= ms_base.add(acc_reg));
                    }
                }
            }
        }
        proof {
            assert(full.1 =~= dispatches@);
            assert(full.2 =~= acc_reg);
            assert(self.lb_manager.spec_multiset() =~= ms_base.add(full.2));
        }
        let min_cost = match self.lb_manager.min_lower_bound() {
            Some(min_lb) => Some(min_lb.duplicate()),
            None => None,
        };
        if let Some(c) = min_cost {
            let ghost vv = c.spec_value();
            let res = self.status.set_lower_bound(c);
            proof {
                if res is Ok {
                    assert(self.spec_open_bounds().contains(vv)
                        && self.spec_lower_bound() == Some(vv));
                }
            }
        }
        dispatches
    }

    /// Returns the best solution found, ending the solve.
    pub fn extract_best_solution(self) -> (r: Option<<T as BBProblem>::Sol>)
        requires
            self.wf(),
        ensures
            r == self.spec_best(),
            r matches Some(s) ==> s.spec_is_feasible(),
    {
        self.status.extract_best_solution()
    }
}

} // verus!
