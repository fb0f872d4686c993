//! Solving an instance with a branch-and-bound search on decision
//! diagrams: the heuristics that the search is given, and what is made of
//! its outcome.

pub mod heuristics;
pub mod solve;
