//! A Sudoku solver: constraint propagation over the 81 cells, interleaved with
//! backtracking search.
//!
//! - `grid`: cell states, candidate domains, the constraint neighbourhood of a cell, and
//!   the queries that seed propagation and pick the cell to branch on.
//! - `propagate`: arc consistency for the not-equal constraints of rows, columns and
//!   boxes, run to a fixed point.
//! - `search`: the backtracking driver and the top-level `solve`.
//! - `text`: reading a puzzle from digits and rendering a grid.
//! - `units`: what a solution holds in each row, column and box.
//!
//! The driver branches on the open cell with the fewest candidates (lowest index among
//! equals) and tries candidates in increasing order. It stops at the first solution:
//! a puzzle with several solutions yields one of them, and uniqueness is not checked.
use vstd::prelude::*;

pub mod grid;
pub mod propagate;
pub mod search;
pub mod text;
pub mod units;

verus! {

} // verus!
