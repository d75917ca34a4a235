use vstd::prelude::*;

use vstd::arithmetic::power::pow;

use crate::branch_bound::solving_status::SolvingStatus;
use crate::branch_bound::traits::BBProblem;
use crate::branch_bound::traits::RelaxedProblemPool;
use crate::branch_bound::traits::Solution;
use crate::branch_bound::traits::SolutionCost;

verus! {

/// The termination measure of a pool: the sum of `b` to the power of
/// each stored problem's own measure. Removing a problem and adding
/// fewer than `b` problems of strictly smaller measure shrinks it.
pub open spec fn pool_measure<T: BBProblem>(
    entries: Seq<(T, <T as BBProblem>::Sol)>,
    b: int,
) -> int
    decreases entries.len(),
{
    if entries.len() == 0 {
        0
    } else {
        pool_measure(entries.drop_last(), b) + pow(b, entries.last().0.measure())
    }
}

proof fn lemma_pool_measure_push<T: BBProblem>(
    entries: Seq<(T, <T as BBProblem>::Sol)>,
    e: (T, <T as BBProblem>::Sol),
    b: int,
)
    ensures
        pool_measure(entries.push(e), b) == pool_measure(entries, b) + pow(
            b,
            e.0.measure(),
        ),
{
    assert(entries.push(e).drop_last() =~= entries);
    assert(entries.push(e).last() == e);
}

proof fn lemma_pool_measure_nonneg<T: BBProblem>(
    entries: Seq<(T, <T as BBProblem>::Sol)>,
    b: int,
)
    requires
        b >= 1,
    ensures
        pool_measure(entries, b) >= 0,
    decreases entries.len(),
{
    broadcast use vstd::arithmetic::power::lemma_pow_positive;

    if entries.len() > 0 {
        lemma_pool_measure_nonneg(entries.drop_last(), b);
    }
}

// all problems in the pool share the branching bound `width`
spec fn pool_uniform<T: BBProblem, P: RelaxedProblemPool<Prob = T>>(
    pool: P,
    width: nat,
) -> bool {
    forall|k: int|
        0 <= k < pool.spec_entries().len() ==> (
        #[trigger] pool.spec_entries()[k]).0.spec_branching() == width
}

// every solution stored in the pool answers the root problem, and
// whatever answers a stored problem answers the root as well
spec fn pool_answers_root<T: BBProblem, P: RelaxedProblemPool<Prob = T>>(
    pool: P,
    root: T,
) -> bool {
    &&& (forall|k: int|
        0 <= k < pool.spec_entries().len() ==> root.solution_of(
            &(#[trigger] pool.spec_entries()[k]).1,
        ))
    &&& (forall|k: int, s: <T as BBProblem>::Sol|
        0 <= k < pool.spec_entries().len() && (#[trigger] pool.spec_entries()[
            k
        ].0.solution_of(&s)) ==> root.solution_of(&s))
}

/// Records a feasible relaxed solution as the best one exactly when it
/// strictly improves on the best known cost; otherwise nothing changes.
fn record_if_improving<S: Solution>(status: &mut SolvingStatus<S>, relaxed: S)
    requires
        old(status).wf(),
        relaxed.spec_is_feasible(),
    ensures
        final(status).wf(),
        final(status).spec_lower_bound() == old(status).spec_lower_bound(),
        final(status).spec_best() == (match old(status).spec_best() {
            None => Some(relaxed),
            Some(b) => if relaxed.spec_cost() < b.spec_cost() {
                Some(relaxed)
            } else {
                Some(b)
            },
        }),
{
    proof {
        status.lemma_wf();
    }
    let improves = match status.best_solution() {
        Some(best_sol) => relaxed.get_cost().lt(&best_sol.get_cost()),
        None => true,
    };
    if improves {
        let res = status.set_best_solution(relaxed);
        proof {
            assert(res is Ok);
        }
    }
}

/// Adds a subproblem and its relaxed solution to the pool exactly when
/// the relaxed cost is strictly below the best known cost (or no best
/// solution is known); otherwise the subproblem is pruned and the pool
/// is unchanged. Returns whether the subproblem was kept.
fn prune_or_add<T: BBProblem, P: RelaxedProblemPool<Prob = T>>(
    pool: &mut P,
    status: &SolvingStatus<<T as BBProblem>::Sol>,
    subproblem: T,
    relaxed: <T as BBProblem>::Sol,
) -> (kept: bool)
    requires
        old(pool).wf(),
        status.wf(),
        subproblem.wf(),
    ensures
        final(pool).wf(),
        kept == (match status.spec_best() {
            None => true,
            Some(b) => relaxed.spec_cost() < b.spec_cost(),
        }),
        final(pool).spec_entries() == (if kept {
            old(pool).spec_entries().push((subproblem, relaxed))
        } else {
            old(pool).spec_entries()
        }),
{
    let keep = match status.best_solution() {
        Some(best_sol) => relaxed.get_cost().lt(&best_sol.get_cost()),
        None => true,
    };
    if keep {
        pool.add(subproblem, relaxed);
    }
    keep
}

/// Serial branch and bound for a minimisation problem: keeps a pool of
/// problems with solved relaxations, extracts one at a time, records a
/// feasible relaxed solution through `record_if_improving`, and
/// otherwise expands the problem into subproblems, keeping each one
/// through `prune_or_add`. The driver halts on every input; a returned
/// solution is always feasible and answers the given problem.
pub fn branch_and_bound<T: BBProblem, P: RelaxedProblemPool<Prob = T>>(problem: T) -> (r:
    Option<<T as BBProblem>::Sol>)
    requires
        problem.wf(),
    ensures
        r matches Some(s) ==> s.spec_is_feasible() && problem.solution_of(&s),
        r is None ==> exists|rx: <T as BBProblem>::Sol|
            #![auto]
            call_ensures(T::solve_relaxation, (&problem,), rx) && !rx.spec_is_feasible(),
{
    let ghost root = problem;
    let ghost width = problem.spec_branching();
    let ghost base = width as int + 1;
    let mut relaxed_problems = P::new();
    let root_relaxed_sol = problem.solve_relaxation();
    let ghost root_rx = root_relaxed_sol;
    proof {
        assert(call_ensures(T::solve_relaxation, (&root,), root_rx));
    }
    relaxed_problems.add(problem, root_relaxed_sol);
    let mut status: SolvingStatus<<T as BBProblem>::Sol> = SolvingStatus::new();
    proof {
        assert(relaxed_problems.spec_entries().drop_last() =~= Seq::empty());
        assert(relaxed_problems.spec_entries()[0] == (root, root_rx));
        assert(relaxed_problems.spec_entries().contains((root, root_rx)));
    }
    while !status.finished() && !relaxed_problems.empty()
        invariant
            status.wf(),
            relaxed_problems.wf(),
            base == width + 1,
            pool_uniform(relaxed_problems, width),
            pool_answers_root(relaxed_problems, root),
            status.spec_best() matches Some(s) ==> s.spec_is_feasible()
                && root.solution_of(&s),
            root_rx.spec_is_feasible() ==> (status.spec_best() is Some
                || relaxed_problems.spec_entries().contains((root, root_rx))),
        decreases pool_measure(relaxed_problems.spec_entries(), base),
    {
        let ghost measure0 = pool_measure(relaxed_problems.spec_entries(), base);
        let ghost entries_pre = relaxed_problems.spec_entries();
        let extracted = relaxed_problems.extract();
        proof {
            broadcast use vstd::arithmetic::power::lemma_pow_positive;

            lemma_pool_measure_nonneg(relaxed_problems.spec_entries(), base);
        }
        proof {
            assert(extracted is Some);
            // the stored root pair is either extracted now or still stored
            if root_rx.spec_is_feasible() && !(status.spec_best() is Some) {
                let j = choose|j: int|
                    0 <= j < entries_pre.len() && entries_pre[j] == (root, root_rx);
                if j < entries_pre.len() - 1 {
                    assert(relaxed_problems.spec_entries()[j] == (root, root_rx));
                    assert(relaxed_problems.spec_entries().contains((root, root_rx)));
                } else {
                    assert(extracted == Some((root, root_rx)));
                }
            }
        }
        if let Some((problem, relaxed_sol)) = extracted {
            let ghost parent_measure = problem.measure();
            let ghost measure1 = pool_measure(relaxed_problems.spec_entries(), base);
            proof {
                assert(measure1 == measure0 - pow(base, parent_measure));
            }
            if relaxed_sol.is_feasible() {
                record_if_improving(&mut status, relaxed_sol);
                proof {
                    broadcast use vstd::arithmetic::power::lemma_pow_positive;

                    assert(pool_measure(relaxed_problems.spec_entries(), base)
                        < measure0);
                }
            } else {
                let mut subproblems = problem.get_subproblems(&relaxed_sol);
                let ghost total_children = subproblems@.len();
                let ghost mut added: int = 0;
                proof {
                    broadcast use vstd::arithmetic::power::lemma_pow_positive;

                    if total_children > 0 {
                        assert(subproblems@[0].measure() < parent_measure);
                    }
                }
                while subproblems.len() > 0
                    invariant
                        status.wf(),
                        relaxed_problems.wf(),
                        base == width + 1,
                        pool_uniform(relaxed_problems, width),
                        pool_answers_root(relaxed_problems, root),
                        status.spec_best() matches Some(s) ==> s.spec_is_feasible()
                            && root.solution_of(&s),
                        forall|k: int|
                            0 <= k < subproblems@.len() ==> (
                            #[trigger] subproblems@[k]).wf() && subproblems@[k].measure()
                                < parent_measure && subproblems@[k].spec_branching()
                                == width,
                        forall|k: int, s: <T as BBProblem>::Sol|
                            0 <= k < subproblems@.len() && (#[trigger] subproblems@[
                                k
                            ].solution_of(&s)) ==> root.solution_of(&s),
                        root_rx.spec_is_feasible() ==> (status.spec_best() is Some
                            || relaxed_problems.spec_entries().contains(
                            (root, root_rx),
                        )),
                        0 <= added,
                        added + subproblems@.len() <= width,
                        parent_measure >= 1 || (added == 0 && subproblems@.len() == 0),
                        pool_measure(relaxed_problems.spec_entries(), base) <= measure1
                            + added * pow(base, (parent_measure - 1) as nat),
                    decreases subproblems@.len(),
                {
                    let subproblem = subproblems.remove(0);
                    let relaxed = subproblem.solve_relaxation();
                    let ghost child_measure = subproblem.measure();
                    let ghost entries0 = relaxed_problems.spec_entries();
                    let kept = prune_or_add(
                        &mut relaxed_problems,
                        &status,
                        subproblem,
                        relaxed,
                    );
                    proof {
                        // adding an entry keeps the stored root pair stored
                        if root_rx.spec_is_feasible() && !(status.spec_best() is Some)
                            && entries0.contains((root, root_rx)) {
                            let j = choose|j: int|
                                0 <= j < entries0.len() && entries0[j] == (
                                root,
                                root_rx,
                            );
                            assert(relaxed_problems.spec_entries()[j] == (
                            root,
                            root_rx,
                            ));
                            assert(relaxed_problems.spec_entries().contains(
                                (root, root_rx),
                            ));
                        }
                    }
                    if kept {
                        proof {
                            broadcast use vstd::arithmetic::power::lemma_pow_positive;

                            lemma_pool_measure_push(
                                entries0,
                                relaxed_problems.spec_entries().last(),
                                base,
                            );
                            assert(relaxed_problems.spec_entries().last().0.measure()
                                == child_measure);
                            vstd::arithmetic::power::lemma_pow_increases(
                                base as nat,
                                child_measure,
                                (parent_measure - 1) as nat,
                            );
                            added = added + 1;
                            assert((added - 1) * pow(base, (parent_measure - 1) as nat)
                                + pow(base, (parent_measure - 1) as nat) == added * pow(
                                base,
                                (parent_measure - 1) as nat,
                            )) by (nonlinear_arith);
                        }
                    }
                }
                proof {
                    // fewer than `base` children, each a power lower,
                    // keep the pool measure strictly below its old value
                    broadcast use vstd::arithmetic::power::lemma_pow_positive;

                    if parent_measure >= 1 {
                        let pm1 = (parent_measure - 1) as nat;
                        assert(added * pow(base, pm1) <= width * pow(base, pm1))
                            by (nonlinear_arith)
                            requires
                                0 <= added <= width,
                                pow(base, pm1) > 0,
                        ;
                        vstd::arithmetic::power::lemma_pow_adds(base, 1, pm1);
                        vstd::arithmetic::power::lemma_pow1(base);
                        assert(pow(base, parent_measure) == base * pow(base, pm1));
                        assert(width * pow(base, pm1) < base * pow(base, pm1))
                            by (nonlinear_arith)
                            requires
                                base == width + 1,
                                pow(base, pm1) > 0,
                        ;
                        assert(pool_measure(relaxed_problems.spec_entries(), base)
                            < measure0);
                    } else {
                        assert(added == 0);
                        vstd::arithmetic::power::lemma_pow0(base);
                        assert(pool_measure(relaxed_problems.spec_entries(), base)
                            < measure0);
                    }
                }
            }
        }
        let min_cost = match relaxed_problems.min_relaxed_solution() {
            Some(min_relax_sol) => Some(min_relax_sol.get_cost()),
            None => None,
        };
        if let Some(c) = min_cost {
            let _ = status.set_lower_bound(c);
        }
        proof {
            lemma_pool_measure_nonneg(relaxed_problems.spec_entries(), base);
        }
    }
    proof {
        // a run that ends without a best solution never saw a feasible
        // relaxation of the root problem: the loop can only stop with a
        // recorded best or an empty pool
        status.lemma_wf();
        if root_rx.spec_is_feasible() && !(status.spec_best() is Some) {
            assert(relaxed_problems.spec_entries().contains((root, root_rx)));
            assert(relaxed_problems.spec_entries().len() == 0);
            assert(false);
        }
    }
    status.extract_best_solution()
}

} // verus!
