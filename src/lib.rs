//! A 9x9 Sudoku solver by backtracking search, verified with Verus.
//!
//! - `grid`: the board, its model and the consistency check.
//! - `search`: depth-first search for the first completion, a completion in
//!   shuffled digit order, and the number of completions.
//! - `laws`: properties that relate the search results to each other.
//! - `parse`: reading a board from comma- and line-separated text.
use vstd::prelude::*;

pub mod grid;
pub mod laws;
pub mod parse;
pub mod search;

verus! {

} // verus!
