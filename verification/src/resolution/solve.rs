//! Running the search on an instance and reading its outcome.
//!
//! The search engine maximises, and the layout problem asks for the least
//! cost: the engine is handed negated costs, and the value that it reports
//! is negated back. The engine itself is handed in by the caller as a
//! function; nothing is asked of what it reports.

use vstd::prelude::*;
use crate::instance::{SrflpInstance, InstanceError};
use crate::resolution::heuristics::{SrflpRanking, SrflpWidth};

verus! {

/// What a search is asked for.
#[derive(Debug, Clone)]
pub struct Solve {
    /// The path to the instance file.
    pub instance: String,
    /// The number of nodes allowed in a layer for each department.
    pub width: usize,
    /// The seconds after which the search is cut off.
    pub timeout: u64,
    /// If present, the path of an html report.
    pub output: Option<String>,
}

/// One step on a path through the decision diagram: a variable and the
/// department that it is given.
#[derive(Debug, Clone, Copy, PartialEq, Eq)]
pub struct Decision {
    /// The variable, which is the place in the row, counted from the left.
    pub variable: usize,
    /// The department that goes there.
    pub value: isize,
}

/// What the engine reports when it stops.
#[derive(Debug, Clone)]
pub struct SearchOutcome {
    /// Whether the search went to its end, so that the best value is proved
    /// to be the optimum.
    pub is_exact: bool,
    /// The best value that was found, as the engine counts: the negated
    /// cost.
    pub best_value: Option<isize>,
    /// The path of the best solution, if one was kept.
    pub best_solution: Option<Vec<Decision>>,
}

/// A layout and what it costs.
#[derive(Debug, Clone, PartialEq, Eq)]
pub struct Solution {
    /// The cost of the layout.
    pub value: isize,
    /// Whether the cost is proved to be the least.
    pub is_exact: bool,
    /// The departments in the order of the path that led to them.
    pub placement: Vec<isize>,
}

/// Why there is no solution to report.
#[derive(Debug, Clone, Copy, PartialEq, Eq)]
pub enum SolveError {
    /// The instance breaks a rule.
    InvalidInstance(InstanceError),
    /// The cap on the layers, `width` nodes for each department, is more
    /// than a `usize` holds.
    WidthOverflow,
    /// The search was cut off before it had a solution.
    NoSolution,
    /// The value that the engine reports has no negation.
    ValueOverflow,
}

/// The departments that the decisions of `path` choose, in their order.
pub open spec fn placement_of(path: Seq<Decision>) -> Seq<isize> {
    Seq::new(path.len(), |k: int| path[k].value)
}

/// The cost that stands for the engine's `best_value`: its negation, and
/// the largest value where the engine has none.
pub open spec fn cost_of(best_value: Option<isize>) -> int {
    match best_value {
        Some(value) => -value,
        None => isize::MAX as int,
    }
}

impl SearchOutcome {
    /// Why this outcome gives no solution, if it gives none.
    pub open spec fn failure(self) -> Option<SolveError> {
        if self.best_solution is None {
            Some(SolveError::NoSolution)
        } else if self.best_value == Some(isize::MIN) {
            Some(SolveError::ValueOverflow)
        } else {
            None
        }
    }

    /// `r` is what is made of this outcome: its solution, or why it gives
    /// none.
    pub open spec fn read_as(self, r: Result<Solution, SolveError>) -> bool {
        match r {
            Ok(solution) => self.failure() is None && self.gives(solution),
            Err(e) => self.failure() == Some(e),
        }
    }

    /// `solution` is what this outcome reports.
    pub open spec fn gives(self, solution: Solution) -> bool {
        &&& self.best_solution matches Some(path)
        &&& solution.placement@ == placement_of(path@)
        &&& solution.is_exact == self.is_exact
        &&& solution.value == cost_of(self.best_value)
    }
}

/// The solution of an instance without departments: nothing is placed, at
/// no cost, and that is the optimum.
pub open spec fn is_trivial(solution: Solution) -> bool {
    &&& solution.value == 0
    &&& solution.is_exact
    &&& solution.placement@.len() == 0
}

/// The departments that the decisions of `path` choose, in their order.
fn placement(path: &Vec<Decision>) -> (values: Vec<isize>)
    ensures
        values@ == placement_of(path@),
{
    let mut values: Vec<isize> = Vec::new();
    let mut k: usize = 0;
    while k < path.len()
        invariant
            k <= path@.len(),
            values@.len() == k,
            forall|m: int| 0 <= m < k ==> values@[m] == path@[m].value,
        decreases path@.len() - k,
    {
        values.push(path[k].value);
        k += 1;
    }
    assert(values@ =~= placement_of(path@));
    values
}

impl Solve {
    /// Why the search is not even started on `instance`, if it is not.
    pub open spec fn refusal(&self, instance: &SrflpInstance) -> Option<SolveError> {
        match instance@.defect() {
            Some(e) => Some(SolveError::InvalidInstance(e)),
            None => if instance.nb_departments * self.width > usize::MAX {
                Some(SolveError::WidthOverflow)
            } else {
                None
            },
        }
    }

    /// Reads the outcome of a search: the cost is the negated value, the
    /// placement holds the departments along the best path. An outcome
    /// without a best path is no solution.
    pub fn report(outcome: &SearchOutcome) -> (r: Result<Solution, SolveError>)
        ensures
            outcome.read_as(r),
    {
        let path = match &outcome.best_solution {
            Some(path) => path,
            None => {
                return Err(SolveError::NoSolution);
            },
        };
        let value = match outcome.best_value {
            Some(value) => {
                if value == isize::MIN {
                    return Err(SolveError::ValueOverflow);
                }
                -value
            },
            None => isize::MAX,
        };
        Ok(Solution { value, is_exact: outcome.is_exact, placement: placement(path) })
    }

    /// Solves `instance`.
    ///
    /// An instance that breaks a rule is refused. One without departments
    /// has the empty layout for its solution, and the engine is not asked.
    /// Otherwise `engine` is run once, with the ranking of states by depth,
    /// a cap of `width` nodes for each department on every layer and the
    /// timeout, and its outcome is reported.
    pub fn solve<E: FnOnce(&SrflpInstance, SrflpRanking, SrflpWidth, u64) -> SearchOutcome>(
        &self,
        instance: &SrflpInstance,
        engine: E,
    ) -> (r: Result<Solution, SolveError>)
        requires
            forall|ranking: SrflpRanking, width: SrflpWidth|
                call_requires(engine, (instance, ranking, width, self.timeout)),
        ensures
            self.refusal(instance) matches Some(e) ==> r == Err::<Solution, SolveError>(e),
            self.refusal(instance) is None && instance.nb_departments == 0 ==> (r matches Ok(
                solution,
            ) && is_trivial(solution)),
            self.refusal(instance) is None && instance.nb_departments > 0 ==> exists|
                width: SrflpWidth,
                outcome: SearchOutcome,
            |
                {
                    &&& width.nb_vars() == instance.nb_departments
                    &&& width.factor() == self.width
                    &&& #[trigger] call_ensures(
                        engine,
                        (instance, SrflpRanking, width, self.timeout),
                        outcome,
                    )
                    &&& outcome.read_as(r)
                },
    {
        match instance.validate() {
            Ok(_) => {},
            Err(e) => {
                return Err(SolveError::InvalidInstance(e));
            },
        }
        if instance.nb_departments.checked_mul(self.width).is_none() {
            return Err(SolveError::WidthOverflow);
        }
        if instance.nb_departments == 0 {
            return Ok(Solution { value: 0, is_exact: true, placement: Vec::new() });
        }
        let width = SrflpWidth::new(instance.nb_departments, self.width);
        let outcome = engine(instance, SrflpRanking, width, self.timeout);
        Self::report(&outcome)
    }
}

} // verus!
