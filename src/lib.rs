//! Exact probability laws over rational parameters.
//!
//! Every quantity here is a ratio of integers, so moments and masses are
//! computed without rounding.
pub mod bernoulli;
pub mod binomial;
pub mod combinatorics;
pub mod distribution;
pub mod expectation;
pub mod normal;
pub mod ratio;
pub mod sequence;
