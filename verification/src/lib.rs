//! A Sudoku solving engine over a 9x9 grid: per-cell candidate bookkeeping,
//! constraint checking, exhaustive solution counting with a
//! minimum-remaining-values backtracking search, and a technique-based solver
//! that applies human-style deductions under a time budget and scores the
//! difficulty of the solve.

pub mod bitset;
pub mod board;
pub mod codec;
pub mod constraint;
pub mod groups;
pub mod search;
pub mod solver;
pub mod technique;
