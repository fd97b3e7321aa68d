//! The conditions under which an operation of this crate fails.

use vstd::prelude::*;

verus! {

/// Why an operation on a grid, a puzzle or a solver did not succeed.
#[derive(Debug, Clone, Copy, PartialEq, Eq, Structural)]
pub enum SudokuError {
    /// The cells handed to a grid are not 9 rows of 9 digits between 0 and 9.
    InvalidDimensions,
    /// The text of a puzzle does not hold 9 rows of 9 cells.
    MalformedInput,
    /// A coordinate lies outside the 9×9 grid.
    OutOfBounds,
    /// A solver used up its tries before the puzzle was done.
    SolveExhausted,
    /// The search went through every candidate: the puzzle has no solution.
    Unsolvable,
}

} // verus!
