//! Solving by backtracking.

use vstd::prelude::*;
use crate::cells::{
    empty_fields, lemma_cleared_restores, lemma_write_keeps_outside, same_outside,
};
use crate::error::SudokuError;
use crate::field::Field;
use crate::rules;
use crate::rules::{done, first_above, solvable, solves, valid_units};
use crate::solver::search::{
    lemma_backtracing_solves, lemma_backtracing_sound, lemma_unsolvable_has_no_solution, search,
    search_bound, Outcome,
};
use crate::solver::Solver;
use crate::sudoku::Sudoku;

verus! {

/// The backtracking solver: it walks through the mutable fields in row-major
/// order, gives each the smallest legal guess above its digit, and steps
/// back where none is left.
pub struct Backtracing {
    max_tries: u32,
    tries: u32,
    unsolvable: bool,
}

/// The first of some values that is greater than `current`.
fn next_above(values: &Vec<u8>, current: u8) -> (next: Option<u8>)
    ensures
        next == first_above(values@, current),
{
    let mut i: usize = 0;
    assert(values@.skip(0) =~= values@);
    while i < values.len()
        invariant
            i <= values.len(),
            first_above(values@.skip(i as int), current) == first_above(values@, current),
        decreases values.len() - i,
    {
        assert(values@.skip(i as int).skip(1) =~= values@.skip(i + 1));
        if values[i] > current {
            return Some(values[i]);
        }
        i += 1;
    }
    None
}

impl Backtracing {
    /// Whether the last search ran out of candidates.
    pub closed spec fn stuck(&self) -> bool {
        self.unsolvable
    }

    /// A solver that has counted no try yet and stops at `max_tries`.
    pub fn new(max_tries: u32) -> (solver: Backtracing)
        ensures
            solver.tries() == 0,
            solver.max_tries() == max_tries,
            !solver.stuck(),
    {
        Backtracing { max_tries, tries: 0, unsolvable: false }
    }

    /// Tells whether the search went through every candidate without
    /// reaching a grid that is done. A puzzle as it is made or read then has
    /// no solution.
    pub fn is_unsolvable(&self) -> (stuck: bool)
        ensures
            stuck == self.stuck(),
    {
        self.unsolvable
    }

    /// What became of the search: `Ok` after a success, `Unsolvable` where
    /// the candidates ran out, `SolveExhausted` where the tries did.
    pub fn status(&self) -> (status: Result<(), SudokuError>)
        ensures
            status == if self.success() {
                Ok::<(), SudokuError>(())
            } else if self.stuck() {
                Err::<(), SudokuError>(SudokuError::Unsolvable)
            } else {
                Err::<(), SudokuError>(SudokuError::SolveExhausted)
            },
    {
        if self.unsolvable {
            Err(SudokuError::Unsolvable)
        } else if self.tries < self.max_tries {
            Ok(())
        } else {
            Err(SudokuError::SolveExhausted)
        }
    }
}

impl Solver for Backtracing {
    closed spec fn tries(&self) -> nat {
        self.tries as nat
    }

    closed spec fn max_tries(&self) -> nat {
        self.max_tries as nat
    }

    /// The tries stayed below the ceiling and the candidates did not run out.
    open spec fn success(&self) -> bool {
        self.tries() < self.max_tries() && !self.stuck()
    }

    /// Any well-formed puzzle, as long as the counter of tries can still
    /// count.
    open spec fn accepts(&self, sudoku: &Sudoku) -> bool {
        sudoku.wf() && self.tries() < u32::MAX
    }

    fn is_success(&self) -> (success: bool) {
        self.tries < self.max_tries && !self.unsolvable
    }

    fn get_tries(&self) -> (tries: u32) {
        self.tries
    }

    /// Runs the search from the first mutable field and hands the puzzle
    /// back as the search left it.
    ///
    /// A success on a puzzle as it is made or read, with valid rows, columns
    /// and parcels, leaves a solved grid. Where such a puzzle has a solution,
    /// the search does not end as unsolvable; and it succeeds if the ceiling
    /// lies above the tries already counted and the bound of the search.
    fn solve(&mut self, sudoku: Sudoku) -> (solved: Sudoku)
        ensures
            sudoku.grid.mutable() == empty_fields(sudoku.grid@) && valid_units(sudoku.grid@)
                && final(self).success() ==> rules::solved(solved.grid@),
            sudoku.grid.mutable() == empty_fields(sudoku.grid@) && solvable(sudoku.grid@) && old(
                self,
            ).tries() + search_bound(sudoku.grid.mutable().len()) < old(self).max_tries()
                ==> final(self).success() && rules::solved(solved.grid@),
            sudoku.grid.mutable() == empty_fields(sudoku.grid@) && final(self).stuck() ==> !solvable(
                sudoku.grid@,
            ),
            (Outcome {
                cells: solved.grid@,
                tries: final(self).tries() as int,
                unsolvable: final(self).stuck(),
            }) == search(
                sudoku.grid@,
                sudoku.grid.mutable(),
                0,
                old(self).tries() as int,
                old(self).max_tries() as int,
            ),
    {
        let mut sudoku = sudoku;
        let ghost start = sudoku.grid@;
        let ghost mutable = sudoku.grid.mutable();
        let ghost goal = search(start, mutable, 0, self.tries as int, self.max_tries as int);
        let mut index: usize = 0;
        self.unsolvable = false;
        loop
            invariant_except_break
                index <= mutable.len(),
                !self.unsolvable,
                self.tries < u32::MAX,
                search(sudoku.grid@, mutable, index as int, self.tries as int, self.max_tries as int)
                    == goal,
            invariant
                sudoku.wf(),
                sudoku.grid.mutable() == mutable,
                self.max_tries == old(self).max_tries,
                self.tries >= old(self).tries,
                same_outside(sudoku.grid@, start, mutable),
            ensures
                (Outcome {
                    cells: sudoku.grid@,
                    tries: self.tries as int,
                    unsolvable: self.unsolvable,
                }) == goal,
                self.tries < self.max_tries && !self.unsolvable ==> done(sudoku.grid@, mutable),
            decreases self.max_tries - self.tries,
        {
            if sudoku.is_done() {
                break;
            }
            if index >= sudoku.grid.mutable_fields().len() {
                self.unsolvable = true;
                break;
            }
            let field: Field = sudoku.grid.mutable_fields()[index];
            let ghost before = sudoku.grid@;
            assert(mutable.contains(field));
            let value: u8 = match sudoku.grid.get(&field) {
                Ok(value) => value,
                Err(_) => {
                    proof {
                        assert(false);
                    }
                    0
                },
            };
            let guesses = sudoku.get_field_guesses(&field);
            match next_above(&guesses, value) {
                None => {
                    let _ = sudoku.grid.set(&field, 0);
                    if index == 0 {
                        self.unsolvable = true;
                    } else {
                        index -= 1;
                    }
                },
                Some(guess) => {
                    proof {
                        crate::rules::lemma_next_guess(before, field, value);
                    }
                    let _ = sudoku.grid.set(&field, guess);
                    index += 1;
                },
            }
            proof {
                lemma_write_keeps_outside(before, sudoku.grid@, start, mutable, field);
            }
            self.tries += 1;
            if self.unsolvable || self.tries >= self.max_tries {
                break;
            }
        }
        proof {
            if mutable == empty_fields(start) {
                lemma_cleared_restores(start, sudoku.grid@);
            }
            if mutable == empty_fields(start) && self.unsolvable {
                lemma_unsolvable_has_no_solution(
                    start,
                    old(self).tries as int,
                    self.max_tries as int,
                );
            }
            if mutable == empty_fields(start) && valid_units(start) {
                lemma_backtracing_sound(start, old(self).tries as int, self.max_tries as int);
            }
            if mutable == empty_fields(start) && solvable(start) && old(self).tries + search_bound(
                mutable.len(),
            ) < self.max_tries {
                let solution = choose|solution: Seq<Seq<u8>>| solves(solution, start);
                lemma_backtracing_solves(
                    start,
                    solution,
                    old(self).tries as int,
                    self.max_tries as int,
                );
            }
        }
        sudoku
    }
}

} // verus!
