//! A solver for 9×9 Sudoku puzzles, verified with Verus.
//!
//! A puzzle is a [`Sudoku`], which owns a [`Grid`] of cells addressed by
//! [`Field`]s. It is read from text (`parse`), judged by the rules of the
//! game (`rules`, `common`) and written as text again (`text`). Two
//! strategies solve it behind the [`Solver`] trait: [`Backtracing`], an
//! exhaustive search that is proved to find a solution wherever there is
//! one, and [`Montecarlo`], a randomised search by simulated annealing.
//!
//! The contracts speak of a grid as a sequence of nine rows of nine digits;
//! `cells` holds that model.

pub mod cells;
pub mod common;
pub mod error;
pub mod field;
pub mod grid;
pub mod parse;
pub mod rules;
pub mod solver;
pub mod sudoku;
pub mod text;

pub use error::SudokuError;
pub use field::Field;
pub use grid::Grid;
pub use solver::{Acceptance, Backtracing, EnergyDimension, Montecarlo, Solver};
pub use sudoku::Sudoku;
