//! Minimum-total-risk paths through rectangular cost grids.
//!
//! A grid of per-cell costs (each in 1..=9) is searched from its top-left
//! to its bottom-right cell, moving between orthogonal neighbours; the cost
//! of a path is the sum of the costs of every cell entered (the starting
//! cell's own cost is not counted).  The crate also provides the expansion
//! transform that tiles a grid five by five with a wrapping cost increment,
//! and a parser that reads a grid from newline-separated digit rows.

pub mod grid;
pub mod parse;
pub mod paths;
pub mod solver;
pub mod laws;
