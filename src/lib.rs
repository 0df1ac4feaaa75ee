//! One-dimensional cellular automaton: evolution of a sparse row of filled
//! cells and classification of its long-run behaviour.

pub mod pattern;
pub mod row;
pub mod classify;
pub mod outcomes;
