//! Solvers: what they have in common, and the two strategies.

pub mod annealing;
pub mod backtracing;
pub mod energy;
pub mod filling;
pub mod montecarlo;
pub mod search;

use vstd::prelude::*;
use crate::cells::{cleared, empty_fields, same_outside};
use crate::rules::done;
use crate::sudoku::Sudoku;

pub use backtracing::Backtracing;
pub use energy::EnergyDimension;
pub use montecarlo::{Acceptance, Montecarlo};

verus! {

/// A strategy that solves puzzles within a number of tries.
///
/// `solve` takes the puzzle and hands it back, changed in its mutable fields
/// only. Afterwards `is_success` tells whether the puzzle is done, and
/// `get_tries` how many steps were counted.
pub trait Solver {
    /// The number of tries counted so far.
    spec fn tries(&self) -> nat;

    /// The ceiling on the tries.
    spec fn max_tries(&self) -> nat;

    /// Whether the solver reports success.
    spec fn success(&self) -> bool;

    /// What the solver asks of itself and of a puzzle before it starts.
    spec fn accepts(&self, sudoku: &Sudoku) -> bool;

    /// Tells whether the last call of `solve` succeeded.
    fn is_success(&self) -> (success: bool)
        ensures
            success == self.success(),
    ;

    /// The tries counted so far, whether `solve` succeeded or not.
    fn get_tries(&self) -> (tries: u32)
        ensures
            tries == self.tries(),
    ;

    /// Works on the puzzle until it is done or the tries reach the ceiling,
    /// and hands it back. Only a puzzle that is done is a success. A puzzle
    /// as it is made or read is itself again once the mutable fields of what
    /// comes back are emptied.
    fn solve(&mut self, sudoku: Sudoku) -> (solved: Sudoku)
        requires
            old(self).accepts(&sudoku),
        ensures
            solved.wf(),
            solved.grid.mutable() == sudoku.grid.mutable(),
            same_outside(solved.grid@, sudoku.grid@, sudoku.grid.mutable()),
            sudoku.grid.mutable() == empty_fields(sudoku.grid@) ==> cleared(
                solved.grid@,
                solved.grid.mutable(),
            ) == sudoku.grid@,
            final(self).success() ==> done(solved.grid@, solved.grid.mutable()),
            final(self).success() ==> final(self).tries() < final(self).max_tries(),
            final(self).tries() >= old(self).tries(),
            final(self).max_tries() == old(self).max_tries(),
    ;
}

} // verus!
