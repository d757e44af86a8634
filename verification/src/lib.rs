//! A verified solver for 9×9 exact-fill digit puzzles.
//!
//! The solver tracks, for every row, column and box, the digits that are
//! still free as a 9-bit mask, orders the open cells by the number of digits
//! that remain for them, and searches depth first with rollback.

use vstd::prelude::*;

pub mod basic;
pub mod bits;
pub mod bitset;
pub mod board;
pub mod model;
pub mod rules;
pub mod solver;
pub mod state;

pub use board::{board_from_2d, parse_board, Board, ParseError, Solution};
pub use model::SolveError;
pub use solver::{Solver, Status};

verus! {

/// A way of solving a puzzle: it returns a solution of the puzzle, or
/// nothing where the puzzle has none.
pub trait SudokuSolver {
    /// The puzzle's 81 cells in row-major order, 0 for an empty cell.
    spec fn cells(&self) -> Seq<u8>;

    /// Solves the puzzle.
    fn solve(&self) -> (solution: Option<Solution>)
        ensures
            match solution {
                Some(s) => rules::solves(s@, self.cells()),
                None => !rules::solvable(self.cells()),
            },
    ;
}

} // verus!
