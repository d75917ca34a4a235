use vstd::prelude::*;

use crate::branch_bound::traits::BBProblem;
use crate::branch_bound::traits::RelaxedProblemPool;
use crate::branch_bound::traits::Solution;
use crate::branch_bound::traits::SolutionCost;

verus! {

/// A last-in first-out pool of problems, each optionally paired with
/// its relaxed solution. Used through `RelaxedProblemPool` the pool
/// holds solved problems only.
pub struct ProblemPool<T: BBProblem> {
    problems: Vec<(T, Option<<T as BBProblem>::Sol>)>,
}

impl<T: BBProblem> ProblemPool<T> {
    /// The stored pairs, oldest first.
    pub closed spec fn spec_pool(self) -> Seq<(T, Option<<T as BBProblem>::Sol>)> {
        self.problems@
    }

    /// Creates an empty pool.
    pub fn new() -> (r: Self)
        ensures
            r.spec_pool().len() == 0,
    {
        Self { problems: Vec::new() }
    }

    /// Returns the least relaxed-solution cost among the solved
    /// entries, or `None` when no entry is solved.
    pub fn min_solution_cost(&self) -> (r: Option<<<T as BBProblem>::Sol as Solution>::SolCost>)
        ensures
            (r is None) <==> (forall|k: int|
                0 <= k < self.spec_pool().len() ==> !((
                #[trigger] self.spec_pool()[k]).1 is Some)),
            r matches Some(c) ==> (exists|k: int|
                0 <= k < self.spec_pool().len() && ((#[trigger] self.spec_pool()[k]).1
                    matches Some(s) && s.spec_cost() == c.spec_value()))
                && (forall|k: int|
                0 <= k < self.spec_pool().len() && (#[trigger] self.spec_pool()[k]).1
                    is Some ==> c.spec_value() <= self.spec_pool()[k].1.unwrap().spec_cost()),
    {
        let n = self.problems.len();
        let mut best: Option<<<T as BBProblem>::Sol as Solution>::SolCost> = None;
        let ghost mut best_idx: int = 0;
        let mut k: usize = 0;
        while k < n
            invariant
                n == self.spec_pool().len(),
                k <= n,
                (best is None) <==> (forall|m: int|
                    0 <= m < k ==> !((#[trigger] self.spec_pool()[m]).1 is Some)),
                best matches Some(c) ==> 0 <= best_idx < k && ((
                self.spec_pool()[best_idx]).1 matches Some(s) && s.spec_cost()
                    == c.spec_value()),
                best matches Some(c) ==> (forall|m: int|
                    0 <= m < k && (#[trigger] self.spec_pool()[m]).1 is Some
                        ==> c.spec_value() <= self.spec_pool()[m].1.unwrap().spec_cost()),
            decreases n - k,
        {
            match &self.problems[k].1 {
                Some(s) => {
                    let c = s.get_cost();
                    let replace = match &best {
                        Some(b) => c.lt(b),
                        None => true,
                    };
                    if replace {
                        best = Some(c);
                        proof {
                            best_idx = k as int;
                        }
                    }
                },
                None => {},
            }
            k = k + 1;
        }
        best
    }

    /// Adds a problem without a relaxed solution.
    pub fn add_unsolved_problem(&mut self, problem: T)
        ensures
            final(self).spec_pool() == old(self).spec_pool().push((
                problem,
                None::<<T as BBProblem>::Sol>,
            )),
    {
        self.problems.push((problem, None));
    }

    /// Adds a problem together with its relaxed solution.
    pub fn add_solved_problem(&mut self, problem: T, solution: <T as BBProblem>::Sol)
        ensures
            final(self).spec_pool() == old(self).spec_pool().push((
                problem,
                Some(solution),
            )),
    {
        self.problems.push((problem, Some(solution)));
    }

    /// Extracts the most recently added entry.
    pub fn extract_problem(&mut self) -> (r: Option<
        (T, Option<<T as BBProblem>::Sol>),
    >)
        ensures
            old(self).spec_pool().len() == 0 ==> r is None && final(self).spec_pool()
                == old(self).spec_pool(),
            old(self).spec_pool().len() > 0 ==> r == Some(old(self).spec_pool().last())
                && final(self).spec_pool() == old(self).spec_pool().drop_last(),
    {
        self.problems.pop()
    }
}

impl<T: BBProblem> RelaxedProblemPool for ProblemPool<T> {
    type Prob = T;

    closed spec fn spec_entries(&self) -> Seq<(T, <T as BBProblem>::Sol)> {
        self.problems@.map_values(
            |e: (T, Option<<T as BBProblem>::Sol>)| (e.0, e.1.unwrap()),
        )
    }

    closed spec fn wf(&self) -> bool {
        forall|k: int|
            0 <= k < self.problems@.len() ==> (#[trigger] self.problems@[k]).1 is Some
                && self.problems@[k].0.wf()
    }

    fn new() -> (r: Self) {
        Self { problems: Vec::new() }
    }

    fn add(&mut self, p: T, s: <T as BBProblem>::Sol) {
        self.problems.push((p, Some(s)));
        proof {
            assert(final(self).spec_entries() =~= old(self).spec_entries().push((p, s)));
        }
    }

    fn empty(&self) -> (r: bool) {
        self.problems.len() == 0
    }

    fn extract(&mut self) -> (r: Option<(T, <T as BBProblem>::Sol)>) {
        match self.problems.pop() {
            Some((p, s)) => {
                proof {
                    assert(final(self).spec_entries() =~= old(self).spec_entries().drop_last());
                    assert(old(self).problems@.last().1 is Some);
                }
                Some((p, s.unwrap()))
            },
            None => None,
        }
    }

    fn min_relaxed_solution(&self) -> (r: Option<&<T as BBProblem>::Sol>) {
        let n = self.problems.len();
        if n == 0 {
            return None;
        }
        let mut best: usize = 0;
        let mut k: usize = 1;
        while k < n
            invariant
                self.wf(),
                n == self.problems@.len(),
                n >= 1,
                best < k,
                1 <= k <= n,
                forall|m: int|
                    0 <= m < k ==> (self.spec_entries()[best as int]).1.spec_cost() <= (
                    #[trigger] self.spec_entries()[m]).1.spec_cost(),
            decreases n - k,
        {
            let candidate = self.problems[k].1.as_ref().unwrap();
            let current = self.problems[best].1.as_ref().unwrap();
            if candidate.get_cost().lt(&current.get_cost()) {
                best = k;
            }
            k = k + 1;
        }
        let s = self.problems[best].1.as_ref().unwrap();
        proof {
            assert((self.spec_entries()[best as int]).1.spec_cost() == s.spec_cost());
        }
        Some(s)
    }
}

} // verus!
