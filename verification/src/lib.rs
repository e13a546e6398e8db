//! Expectation-maximization training engine for a V(D)J recombination model.
//!
//! Probabilities are exact non-negative rationals (`rat::Q`), so every
//! normalization and likelihood statement in the contracts is exact rather
//! than approximate.

pub mod dist;
pub mod feature;
pub mod markov;
pub mod rat;
pub mod sequence;
