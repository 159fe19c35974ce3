mod bits;
mod grid;
mod rng;
mod solver;
mod sudoku;

pub use grid::Cell;
pub use solver::Solver;
pub use sudoku::Board;
pub use sudoku::Solution;

use vstd::prelude::*;

verus! {

/// The ways a solve session can fail before or during the search.
#[derive(Clone, Copy, Debug, PartialEq, Eq, Structural)]
pub enum SudokuError {
    /// Malformed puzzle text: wrong length or a non-digit character.
    Format,
    /// A puzzle's fixed clues repeat a digit within one 3x3 block.
    Conflict,
    /// A cell claimed by both grids or by neither when merging.
    Merge,
    /// The chosen block holds fewer than two candidate-owned cells.
    NoMove,
}

} // verus!
