//! A constraint-propagation and backtracking solver for square number-place
//! puzzles of side `n = k * k`.

pub mod analyze;
pub mod board;
pub mod complete;
pub mod fixpoint;
pub mod flat;
pub mod geometry;
pub mod infer;
pub mod laws;
pub mod lists;
pub mod solve;
pub mod types;
pub mod update;
pub mod validators;
