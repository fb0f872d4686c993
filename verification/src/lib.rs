//! Tools for the single-row facility layout problem: a generator of clustered
//! benchmark instances and the configuration of a branch-and-bound search on
//! them.
//!
//! The functions of this crate are verified, but for the calls into `rand`
//! and `std::time`, which stand in `sampling` with the contracts that they
//! are trusted to keep. What needs floating point (the normal distribution)
//! or a search engine is handed in by the caller as a function, and the
//! contracts hold for every such function.

pub mod clusters;
pub mod flows;
pub mod generate;
pub mod instance;
pub mod resolution;
pub mod sampling;
pub mod seed;
