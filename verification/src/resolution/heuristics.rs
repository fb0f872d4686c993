//! The heuristics that steer the search.

use vstd::prelude::*;
use std::cmp::Ordering;

verus! {

/// Ranks the states of the search by their depth, the number of
/// departments that are placed already: the deeper state ranks higher.
#[derive(Debug, Copy, Clone)]
pub struct SrflpRanking;

impl SrflpRanking {
    /// Compares a state at `depth_a` with one at `depth_b`.
    pub fn compare(&self, depth_a: usize, depth_b: usize) -> (order: Ordering)
        ensures
            order == Ordering::Less <==> depth_a < depth_b,
            order == Ordering::Equal <==> depth_a == depth_b,
            order == Ordering::Greater <==> depth_a > depth_b,
    {
        if depth_a < depth_b {
            Ordering::Less
        } else if depth_a == depth_b {
            Ordering::Equal
        } else {
            Ordering::Greater
        }
    }
}

/// Caps every layer of a decision diagram at the same number of nodes:
/// `factor` nodes for each variable of the problem.
pub struct SrflpWidth {
    nb_vars: usize,
    factor: usize,
}

impl SrflpWidth {
    /// The number of variables of the problem.
    pub closed spec fn nb_vars(&self) -> usize {
        self.nb_vars
    }

    /// The number of nodes allowed for each variable.
    pub closed spec fn factor(&self) -> usize {
        self.factor
    }

    /// A cap of `factor` nodes for each of `nb_vars` variables.
    pub fn new(nb_vars: usize, factor: usize) -> (width: SrflpWidth)
        ensures
            width.nb_vars() == nb_vars,
            width.factor() == factor,
    {
        SrflpWidth { nb_vars, factor }
    }

    /// The most nodes that a layer may hold, whatever the state of the
    /// search.
    pub fn max_width(&self) -> (width: usize)
        requires
            self.nb_vars() * self.factor() <= usize::MAX,
        ensures
            width == self.nb_vars() * self.factor(),
    {
        self.nb_vars * self.factor
    }
}

} // verus!
