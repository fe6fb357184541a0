//! Solver for long-multiplication cryptarithms ("mushikui"): a multiplication
//! laid out with its partial products, where some digits are hidden.
//!
//! - `digit`: one cell, a known decimal digit or a hidden one.
//! - `arith`: numbers as digit sequences, and the laws of shifted sums.
//! - `puzzle`: the puzzle record, its construction, and the two arithmetic
//!   steps (a partial product, the product as a column sum).
//! - `search`: the backtracking search and what its results are.
//! - `grid`: reading a puzzle written as text.

pub mod arith;
pub mod digit;
pub mod grid;
pub mod puzzle;
pub mod search;
