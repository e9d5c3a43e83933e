//! A verified 9x9 Sudoku solving engine.
//!
//! The engine combines constraint propagation (row/column/box elimination,
//! hidden singles by distribution, and box-line reduction on short segments)
//! with recursive guess-and-backtrack search. Input and output are
//! 81-character digit strings, row-major, with `0` for an unknown cell.

pub mod board;
pub mod checker;
pub mod cell;
pub mod codec;
pub mod laws;
pub mod rules;
pub mod solve;
