//! An N-queens solver: a mutable board with constraint checks, a
//! backtracking search that enumerates every valid placement, and
//! plain-text rendering of boards and solutions.

pub mod board;
pub mod render;
pub mod search;
