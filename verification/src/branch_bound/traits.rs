use vstd::prelude::*;

verus! {

/// A variable of an optimisation problem.
pub trait Variable {
    type ValueType;
}

/// A solution cost: a value totally ordered by its integer view.
pub trait SolutionCost: Sized {
    /// The cost as a mathematical integer.
    spec fn spec_value(&self) -> int;

    /// Strict comparison of two costs.
    fn lt(&self, other: &Self) -> (r: bool)
        ensures
            r == (self.spec_value() < other.spec_value()),
    ;

    /// Non-strict comparison of two costs.
    fn le(&self, other: &Self) -> (r: bool)
        ensures
            r == (self.spec_value() <= other.spec_value()),
    ;

    /// Equality of two costs.
    fn eq_value(&self, other: &Self) -> (r: bool)
        ensures
            r == (self.spec_value() == other.spec_value()),
    ;

    /// A copy with the same value.
    fn duplicate(&self) -> (r: Self)
        ensures
            r.spec_value() == self.spec_value(),
    ;
}

/// A candidate solution of an optimisation problem.
pub trait Solution: Sized {
    /// The variable type of the underlying problem.
    type Var: Variable;

    /// The cost type.
    type SolCost: SolutionCost;

    /// Whether the solution satisfies every constraint of the problem.
    spec fn spec_is_feasible(&self) -> bool;

    /// The solution's cost as a mathematical integer.
    spec fn spec_cost(&self) -> int;

    /// Determines whether the solution is feasible.
    fn is_feasible(&self) -> (r: bool)
        ensures
            r == self.spec_is_feasible(),
    ;

    /// Returns the cost of the solution.
    fn get_cost(&self) -> (r: Self::SolCost)
        ensures
            r.spec_value() == self.spec_cost(),
    ;

    /// Returns the value the solution assigns to `var`.
    fn get_value(&self, var: &Self::Var) -> <Self::Var as Variable>::ValueType;
}

/// A minimisation problem suitable for branch and bound: it solves its
/// own relaxation and splits itself into subproblems along an
/// infeasibility of a relaxed solution.
pub trait BBProblem: Sized {
    /// The solution type.
    type Sol: Solution;

    /// Well-formedness of the problem instance.
    spec fn wf(&self) -> bool;

    /// A measure that shrinks from a problem to each of its
    /// subproblems; it bounds the depth of the branching tree.
    spec fn measure(&self) -> nat;

    /// An upper bound on how many subproblems one expansion yields,
    /// constant across the whole branching tree.
    spec fn spec_branching(&self) -> nat;

    /// Whether `sol` answers this problem: relaxations answer the
    /// problem they were solved for, and a subproblem's solutions also
    /// answer the problem it was derived from, so whatever a driver
    /// returns answers the problem it was given.
    spec fn solution_of(&self, sol: &Self::Sol) -> bool;

    /// Whether `sol` respects this subproblem's own constraints, so
    /// that the subproblem's relaxation speaks for it: the feasible
    /// solutions it constrains cost no less than the relaxed one.
    spec fn constrains(&self, sol: &Self::Sol) -> bool;

    /// Solves the problem's relaxation, returning its relaxed
    /// solution, whose cost is a lower bound on the cost of every
    /// feasible solution the problem constrains.
    fn solve_relaxation(&self) -> (r: Self::Sol)
        requires
            self.wf(),
        ensures
            self.solution_of(&r),
            forall|c: Self::Sol|
                self.constrains(&c) && c.spec_is_feasible() ==> r.spec_cost()
                    <= #[trigger] c.spec_cost(),
    ;

    /// Returns the subproblems that split this problem along an
    /// infeasibility of `solution`, in the order they are to be tried.
    fn get_subproblems(&self, solution: &Self::Sol) -> (r: Vec<Self>)
        requires
            self.wf(),
            !solution.spec_is_feasible(),
        ensures
            r@.len() <= self.spec_branching(),
            forall|k: int| 0 <= k < r@.len() ==> (#[trigger] r@[k]).wf(),
            forall|k: int| 0 <= k < r@.len() ==> (#[trigger] r@[k]).measure() < self.measure(),
            forall|k: int|
                0 <= k < r@.len() ==> (#[trigger] r@[k]).spec_branching() == self.spec_branching(),
            forall|k: int, s: Self::Sol|
                0 <= k < r@.len() && (#[trigger] r@[k].solution_of(&s))
                    ==> self.solution_of(&s),
            forall|k: int, s: Self::Sol|
                0 <= k < r@.len() && (#[trigger] r@[k].constrains(&s))
                    ==> self.constrains(&s),
    ;
}

/// A store of problems paired with their relaxed solutions, consumed
/// in last-in first-out order.
pub trait RelaxedProblemPool: Sized {
    /// The problem type.
    type Prob: BBProblem;

    /// The stored pairs, oldest first.
    spec fn spec_entries(&self) -> Seq<
        (Self::Prob, <Self::Prob as BBProblem>::Sol),
    >;

    /// Well-formedness of the pool.
    spec fn wf(&self) -> bool;

    /// Creates an empty pool.
    fn new() -> (r: Self)
        ensures
            r.wf(),
            r.spec_entries().len() == 0,
    ;

    /// Adds a problem and its relaxed solution.
    fn add(&mut self, p: Self::Prob, s: <Self::Prob as BBProblem>::Sol)
        requires
            old(self).wf(),
            p.wf(),
        ensures
            final(self).wf(),
            final(self).spec_entries() == old(self).spec_entries().push((p, s)),
    ;

    /// Determines whether the pool is empty.
    fn empty(&self) -> (r: bool)
        requires
            self.wf(),
        ensures
            r == (self.spec_entries().len() == 0),
    ;

    /// Extracts the most recently added problem and its relaxed
    /// solution.
    fn extract(&mut self) -> (r: Option<
        (Self::Prob, <Self::Prob as BBProblem>::Sol),
    >)
        requires
            old(self).wf(),
        ensures
            final(self).wf(),
            old(self).spec_entries().len() == 0 ==> r is None && final(self).spec_entries() == old(self).spec_entries(),
            old(self).spec_entries().len() > 0 ==> r == Some(
                old(self).spec_entries().last(),
            ) && final(self).spec_entries() == old(self).spec_entries().drop_last(),
            r matches Some(e) ==> e.0.wf(),
    ;

    /// Returns a relaxed solution of least cost among the stored pairs,
    /// or `None` when the pool is empty.
    fn min_relaxed_solution(&self) -> (r: Option<
        &<Self::Prob as BBProblem>::Sol,
    >)
        requires
            self.wf(),
        ensures
            (r is None) <==> self.spec_entries().len() == 0,
            r matches Some(s) ==> (exists|k: int|
                0 <= k < self.spec_entries().len() && (
                #[trigger] self.spec_entries()[k]).1.spec_cost() == s.spec_cost())
                && (forall|k: int|
                0 <= k < self.spec_entries().len() ==> s.spec_cost() <= (
                #[trigger] self.spec_entries()[k]).1.spec_cost()),
    ;
}

} // verus!
