//! Exact-arithmetic portfolio rebalancing.
//!
//! Given a snapshot of positions (current value, target fraction of the
//! total allocation) and a strategy, the library computes a target value
//! for every position.  All arithmetic is exact: values are rational
//! numbers kept in lowest terms, so results can be compared for exact
//! equality.

pub mod rational;
pub mod types;
pub mod functions;
pub mod laws;

pub use rational::Rational;
