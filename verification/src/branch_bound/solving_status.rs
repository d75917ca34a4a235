use vstd::prelude::*;

use crate::branch_bound::traits::Solution;
use crate::branch_bound::traits::SolutionCost;

verus! {

/// Keeps track of the current lower bound and the best known feasible
/// solution. The upper bound is the best solution's cost; the solve is
/// finished when the two bounds meet.
pub struct SolvingStatus<S: Solution> {
    lower_bound: Option<S::SolCost>,
    upper_bound: Option<S::SolCost>,
    best_solution: Option<S>,
}

impl<S: Solution> SolvingStatus<S> {
    /// The current lower bound, as an integer.
    pub closed spec fn spec_lower_bound(self) -> Option<int> {
        match self.lower_bound {
            Some(c) => Some(c.spec_value()),
            None => None,
        }
    }

    /// The current upper bound, as an integer.
    pub closed spec fn spec_upper_bound(self) -> Option<int> {
        match self.upper_bound {
            Some(c) => Some(c.spec_value()),
            None => None,
        }
    }

    /// The best known solution.
    pub closed spec fn spec_best(self) -> Option<S> {
        self.best_solution
    }

    /// The upper bound exists exactly with a best solution and equals
    /// its cost.
    pub closed spec fn wf(self) -> bool {
        &&& (self.upper_bound is Some <==> self.best_solution is Some)
        &&& (self.best_solution matches Some(s) ==> self.spec_upper_bound() == Some(
            s.spec_cost(),
        ))
    }

    /// The upper bound and the best solution exist together, and the
    /// bound is the best solution's cost.
    pub proof fn lemma_wf(&self)
        requires
            self.wf(),
        ensures
            self.spec_upper_bound() is Some <==> self.spec_best() is Some,
            self.spec_best() matches Some(s) ==> self.spec_upper_bound() == Some(
                s.spec_cost(),
            ),
    {
    }

    /// Returns an empty status: no bounds, no solution.
    pub fn new() -> (r: Self)
        ensures
            r.wf(),
            r.spec_lower_bound() is None,
            r.spec_upper_bound() is None,
            r.spec_best() is None,
    {
        Self { lower_bound: None, upper_bound: None, best_solution: None }
    }

    /// Determines whether the solve is finished: both bounds exist and
    /// coincide.
    pub fn finished(&self) -> (r: bool)
        requires
            self.wf(),
        ensures
            r == (self.spec_lower_bound() is Some && self.spec_upper_bound() is Some
                && self.spec_lower_bound() == self.spec_upper_bound()),
    {
        match (&self.lower_bound, &self.upper_bound) {
            (Some(lb), Some(ub)) => lb.eq_value(ub),
            _ => false,
        }
    }

    /// Returns the best known solution, if any.
    pub fn best_solution(&self) -> (r: &Option<S>)
        ensures
            *r == self.spec_best(),
    {
        &self.best_solution
    }

    /// Returns the current upper bound, if any.
    pub fn upper_bound(&self) -> (r: &Option<S::SolCost>)
        ensures
            (*r is Some) == (self.spec_upper_bound() is Some),
            *r matches Some(c) ==> self.spec_upper_bound() == Some(c.spec_value()),
    {
        &self.upper_bound
    }

    /// Sets the lower bound. Fails exactly when `lb` exceeds the
    /// current upper bound, leaving the status unchanged.
    pub fn set_lower_bound(&mut self, lb: S::SolCost) -> (r: Result<(), &'static str>)
        requires
            old(self).wf(),
        ensures
            final(self).wf(),
            r is Ok <==> !(old(self).spec_upper_bound() matches Some(ub)
                && lb.spec_value() > ub),
            r is Ok ==> final(self).spec_lower_bound() == Some(lb.spec_value()) && final(self).spec_upper_bound() == old(self).spec_upper_bound() && final(self).spec_best() == old(self).spec_best(),
            r is Err ==> final(self).spec_lower_bound() == old(self).spec_lower_bound()
                && final(self).spec_upper_bound() == old(self).spec_upper_bound()
                && final(self).spec_best() == old(self).spec_best(),
    {
        let exceeds = match &self.upper_bound {
            Some(ub) => !lb.le(ub),
            None => false,
        };
        if exceeds {
            Err("SolvingStatus: attempt to set a lower bound greater than current upper bound")
        } else {
            self.lower_bound = Some(lb);
            Ok(())
        }
    }

    /// Sets the best known solution and with it the upper bound. Fails
    /// exactly when a solution at least as good is already known,
    /// leaving the status unchanged.
    pub fn set_best_solution(&mut self, sol: S) -> (r: Result<(), &'static str>)
        requires
            old(self).wf(),
        ensures
            final(self).wf(),
            r is Ok <==> !(old(self).spec_upper_bound() matches Some(ub) && ub
                <= sol.spec_cost()),
            r is Ok ==> final(self).spec_best() == Some(sol) && final(self).spec_upper_bound() == Some(sol.spec_cost()) && final(self).spec_lower_bound() == old(self).spec_lower_bound(),
            r is Err ==> final(self).spec_lower_bound() == old(self).spec_lower_bound()
                && final(self).spec_upper_bound() == old(self).spec_upper_bound()
                && final(self).spec_best() == old(self).spec_best(),
    {
        let sol_cost = sol.get_cost();
        let improves = match &self.upper_bound {
            Some(ub) => sol_cost.lt(ub),
            None => true,
        };
        if improves {
            self.best_solution = Some(sol);
            self.upper_bound = Some(sol_cost);
            Ok(())
        } else {
            Err("SolvingStatus: attempt to set a solution worse than current best solution")
        }
    }

    /// Moves the best solution out of the status.
    pub fn extract_best_solution(self) -> (r: Option<S>)
        ensures
            r == self.spec_best(),
    {
        self.best_solution
    }
}

} // verus!
