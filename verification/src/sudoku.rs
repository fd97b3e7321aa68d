//! The puzzle: a grid with the rules of Sudoku.

use rand::rngs::StdRng;
use std::collections::HashSet;
use vstd::prelude::*;
use vstd::string::*;
use crate::cells::{
    cell, cleared, empty_fields, fields_in_parcel, is_grid, lemma_cleared_restores,
    parcel_field, parcel_fields, parcel_rows, parcel_values, same_outside,
};
use crate::common::has_only_unique_digits;
use crate::error::SudokuError;
use crate::field::Field;
use crate::grid::Grid;
use crate::parse::{lemma_row_digits, parse, parse_puzzle};
use crate::rules::{
    done, guesses, guesses_upto, seen, valid_column, valid_field, valid_parcel, valid_parcels,
    valid_row,
};
use crate::solver::annealing::same_parcel_digits;
use crate::solver::energy::energy;
use crate::solver::filling::{can_fill, filled};
use crate::solver::search::{search, Outcome};
use crate::solver::{Acceptance, Backtracing, Montecarlo, Solver};
use crate::text::{
    arrow, decimal, grid_lines, grid_text, join, join_lines, line_views, paired_lines, push_decimal,
};

verus! {

/// A Sudoku puzzle. It owns its grid; a solver changes the mutable fields
/// of that grid and nothing else.
#[derive(Debug)]
pub struct Sudoku {
    pub grid: Grid,
}

/// The nine digits of a parcel that is given as three rows of three, row by
/// row.
fn flatten(parcel: &Vec<Vec<u8>>) -> (values: Vec<u8>)
    requires
        parcel.len() == 3,
        forall|i: int| 0 <= i < 3 ==> (#[trigger] parcel[i]).len() == 3,
    ensures
        values@ == Seq::new(9, |k: int| parcel[k / 3][k % 3]),
{
    let mut values: Vec<u8> = Vec::new();
    let mut i: usize = 0;
    while i < 3
        invariant
            i <= 3,
            parcel.len() == 3,
            forall|i: int| 0 <= i < 3 ==> (#[trigger] parcel[i]).len() == 3,
            values@ == Seq::new((3 * i) as nat, |k: int| parcel[k / 3][k % 3]),
        decreases 3 - i,
    {
        let mut j: usize = 0;
        while j < 3
            invariant
                i < 3,
                j <= 3,
                parcel.len() == 3,
                forall|i: int| 0 <= i < 3 ==> (#[trigger] parcel[i]).len() == 3,
                values@ == Seq::new((3 * i + j) as nat, |k: int| parcel[k / 3][k % 3]),
            decreases 3 - j,
        {
            values.push(parcel[i][j]);
            assert(values@ =~= Seq::new((3 * i + j + 1) as nat, |k: int| parcel[k / 3][k % 3]));
            j += 1;
        }
        i += 1;
    }
    values
}

/// Puts every value of a list into a set.
fn extend(set: &mut HashSet<u8>, values: &Vec<u8>)
    ensures
        forall|d: u8| #[trigger]
            final(set)@.contains(d) <==> old(set)@.contains(d) || values@.contains(d),
{
    broadcast use vstd::std_specs::hash::group_hash_axioms;

    let mut i: usize = 0;
    while i < values.len()
        invariant
            i <= values.len(),
            forall|d: u8| #[trigger]
                set@.contains(d) <==> old(set)@.contains(d) || exists|j: int|
                    0 <= j < i && values@[j] == d,
        decreases values.len() - i,
    {
        set.insert(values[i]);
        i += 1;
    }
}

impl Sudoku {
    /// The grid is well formed.
    pub open spec fn wf(&self) -> bool {
        self.grid.wf()
    }

    /// Makes a puzzle with an empty grid: every cell is empty and mutable.
    /// `read` fills it from a text.
    pub fn new() -> (sudoku: Sudoku)
        ensures
            sudoku.wf(),
            sudoku.grid@ == Seq::new(9, |r: int| Seq::new(9, |c: int| 0u8)),
            sudoku.grid.mutable() == empty_fields(sudoku.grid@),
    {
        let mut rows: Vec<Vec<u8>> = Vec::new();
        let mut r: usize = 0;
        while r < 9
            invariant
                r <= 9,
                rows.len() == r,
                forall|i: int| 0 <= i < r ==> (#[trigger] rows[i])@ == Seq::new(9, |c: int| 0u8),
            decreases 9 - r,
        {
            let row: Vec<u8> = vec![0u8, 0u8, 0u8, 0u8, 0u8, 0u8, 0u8, 0u8, 0u8];
            assert(row@ =~= Seq::new(9, |c: int| 0u8));
            rows.push(row);
            r += 1;
        }
        assert(rows.deep_view() =~~= Seq::new(9, |r: int| Seq::new(9, |c: int| 0u8)));
        match Grid::new(rows) {
            Ok(grid) => Sudoku { grid },
            Err(_) => {
                proof {
                    assert(false);
                }
                vstd::pervasive::unreached()
            },
        }
    }

    /// Reads a puzzle from its text and replaces the grid by the one that the
    /// text writes; the empty cells of the text become the mutable fields.
    ///
    /// A text that does not write nine rows of nine cells is refused with
    /// `MalformedInput`, and the puzzle stays as it was.
    pub fn read(&mut self, source: &str) -> (read: Result<(), SudokuError>)
        ensures
            match read {
                Ok(_) => {
                    &&& parse_puzzle(source.spec_bytes()) == Some(final(self).grid@)
                    &&& final(self).grid.mutable() == empty_fields(final(self).grid@)
                    &&& final(self).wf()
                },
                Err(e) => {
                    &&& e == SudokuError::MalformedInput
                    &&& parse_puzzle(source.spec_bytes()) is None
                    &&& *final(self) == *old(self)
                },
            },
    {
        let rows = match parse(source.as_bytes()) {
            Ok(rows) => rows,
            Err(_) => {
                return Err(SudokuError::MalformedInput);
            },
        };
        proof {
            let cells = rows.deep_view();
            let lines = crate::parse::data_lines(crate::parse::split_lines(source.spec_bytes()));
            assert forall|r: int, c: int| 0 <= r < 9 && 0 <= c < 9 implies #[trigger] cells[r][c]
                <= 9 by {
                assert(crate::parse::is_row_line(lines[r]));
                lemma_row_digits(lines[r]);
            }
            assert forall|r: int| 0 <= r < 9 implies (#[trigger] cells[r]).len() == 9 by {
                assert(crate::parse::is_row_line(lines[r]));
            }
            assert(is_grid(cells));
        }
        match Grid::new(rows) {
            Ok(grid) => {
                self.grid = grid;
                Ok(())
            },
            Err(_) => Err(SudokuError::MalformedInput),
        }
    }

    /// Tests whether no digit occurs twice in a row.
    pub fn is_valid_row(&self, row_index: u8) -> (valid: bool)
        requires
            self.wf(),
            row_index < 9,
        ensures
            valid == valid_row(self.grid@, row_index as int),
    {
        let row = self.grid.get_row(row_index);
        has_only_unique_digits(&row)
    }

    /// Tests whether no digit occurs twice in a column.
    pub fn is_valid_col(&self, col_index: u8) -> (valid: bool)
        requires
            self.wf(),
            col_index < 9,
        ensures
            valid == valid_column(self.grid@, col_index as int),
    {
        let column = self.grid.get_col(col_index);
        has_only_unique_digits(&column)
    }

    /// The nine digits of a parcel, row by row.
    pub fn get_parcel_values(&self, parcel_index: u8) -> (values: Vec<u8>)
        requires
            self.wf(),
            parcel_index < 9,
        ensures
            values@ == parcel_values(self.grid@, parcel_index as int),
    {
        let parcel = self.grid.get_parcel(parcel_index);
        let ghost rows = parcel_rows(self.grid@, parcel_index as int);
        assert(parcel.len() == 3 && (forall|i: int|
            0 <= i < 3 ==> (#[trigger] parcel[i]).len() == 3)) by {
            assert(parcel.deep_view().len() == 3);
            assert forall|i: int| 0 <= i < 3 implies (#[trigger] parcel[i]).len() == 3 by {
                assert(parcel.deep_view()[i] =~= parcel[i]@);
                assert(rows[i].len() == 3);
            }
        }
        let values = flatten(&parcel);
        assert(values@ =~= parcel_values(self.grid@, parcel_index as int)) by {
            assert forall|k: int| 0 <= k < 9 implies values@[k] == parcel_values(
                self.grid@,
                parcel_index as int,
            )[k] by {
                assert(parcel.deep_view()[k / 3] =~= parcel[k / 3]@);
                assert(rows[k / 3][k % 3] == cell(
                    self.grid@,
                    parcel_field(parcel_index as int, k / 3, k % 3),
                ));
            }
        }
        values
    }

    /// Tests whether no digit occurs twice in a parcel.
    pub fn is_valid_parcel(&self, parcel_index: u8) -> (valid: bool)
        requires
            self.wf(),
            parcel_index < 9,
        ensures
            valid == valid_parcel(self.grid@, parcel_index as int),
    {
        let values = self.get_parcel_values(parcel_index);
        has_only_unique_digits(&values)
    }

    /// Tests whether the row, the column and the parcel of a field are valid.
    pub fn is_valid_field(&self, field: &Field) -> (valid: bool)
        requires
            self.wf(),
            field.in_grid(),
        ensures
            valid == valid_field(self.grid@, *field),
    {
        let parcel_index = Grid::get_parcel_index(field);
        self.is_valid_row(field.row) && self.is_valid_col(field.column) && self.is_valid_parcel(
            parcel_index,
        )
    }

    /// Tests whether every parcel is valid.
    pub fn is_valid(&self) -> (valid: bool)
        requires
            self.wf(),
        ensures
            valid == valid_parcels(self.grid@),
    {
        let mut parcel_index: u8 = 0;
        while parcel_index < 9
            invariant
                parcel_index <= 9,
                self.wf(),
                forall|p: int| 0 <= p < parcel_index ==> valid_parcel(self.grid@, p),
            decreases 9 - parcel_index,
        {
            if !self.is_valid_parcel(parcel_index) {
                return false;
            }
            parcel_index += 1;
        }
        true
    }

    /// Tests whether the puzzle is done: every mutable field is filled and
    /// every parcel is valid.
    pub fn is_done(&self) -> (is_done: bool)
        requires
            self.wf(),
        ensures
            is_done == done(self.grid@, self.grid.mutable()),
    {
        let fields = self.grid.mutable_fields();
        let mut i: usize = 0;
        while i < fields.len()
            invariant
                i <= fields.len(),
                self.wf(),
                fields@ == self.grid.mutable(),
                forall|k: int| 0 <= k < i ==> cell(self.grid@, #[trigger] fields[k]) != 0,
            decreases fields.len() - i,
        {
            match self.grid.get(&fields[i]) {
                Ok(value) => {
                    if value == 0 {
                        return false;
                    }
                },
                Err(_) => {
                    assert(false);
                },
            }
            i += 1;
        }
        self.is_valid()
    }

    /// The legal guesses for a field: the digits from 1 to 9 that stand
    /// neither in its row nor in its column nor in its parcel, ascending.
    ///
    /// The digits that are seen are gathered in a set, and the digits from 1
    /// to 9 are then asked of it in turn.
    pub fn get_field_guesses(&self, field: &Field) -> (found: Vec<u8>)
        requires
            self.wf(),
            field.in_grid(),
        ensures
            found@ == guesses(self.grid@, *field),
    {
        broadcast use vstd::std_specs::hash::group_hash_axioms;

        let values_row: Vec<u8> = self.grid.get_row(field.row);
        let values_col: Vec<u8> = self.grid.get_col(field.column);
        let values_parcel: Vec<u8> = self.get_parcel_values(Grid::get_parcel_index(field));
        let mut seen_digits: HashSet<u8> = HashSet::new();
        extend(&mut seen_digits, &values_row);
        let ghost in_row = seen_digits@;
        extend(&mut seen_digits, &values_col);
        let ghost in_row_or_column = seen_digits@;
        extend(&mut seen_digits, &values_parcel);
        assert forall|d: u8| #[trigger] seen_digits@.contains(d) <==> seen(self.grid@, *field, d) by {
            assert(in_row.contains(d) <==> values_row@.contains(d));
            assert(in_row_or_column.contains(d) <==> in_row.contains(d) || values_col@.contains(d));
        }
        let mut found: Vec<u8> = Vec::new();
        let mut digit: u8 = 1;
        while digit <= 9
            invariant
                1 <= digit <= 10,
                forall|d: u8| #[trigger] seen_digits@.contains(d) <==> seen(self.grid@, *field, d),
                found@ == guesses_upto(self.grid@, *field, (digit - 1) as nat),
            decreases 10 - digit,
        {
            if !seen_digits.contains(&digit) {
                found.push(digit);
            }
            digit += 1;
        }
        found
    }

    /// The nine fields of a parcel, row by row.
    pub fn get_parcel_fields(parcel_index: u8) -> (fields: Vec<Field>)
        requires
            parcel_index < 9,
        ensures
            fields@ == parcel_fields(parcel_index as int),
    {
        Grid::get_parcel_fields(parcel_index)
    }

    /// The mutable fields that lie in a parcel, in row-major order.
    pub fn get_mutable_fields_of_parcel(&self, parcel_index: u8) -> (fields: Vec<Field>)
        requires
            self.wf(),
            parcel_index < 9,
        ensures
            fields@ == fields_in_parcel(self.grid.mutable(), parcel_index as int),
    {
        self.grid.get_mutable_fields_of_parcel(parcel_index)
    }

    /// Empties every mutable field again.
    pub fn reset(&mut self)
        requires
            old(self).wf(),
        ensures
            final(self).grid@ == cleared(old(self).grid@, old(self).grid.mutable()),
            final(self).grid.mutable() == old(self).grid.mutable(),
            final(self).wf(),
    {
        self.grid.reset();
    }

    /// The grid as it was before any solving: a copy with every mutable field
    /// empty.
    pub fn get_unsolved(&self) -> (unsolved: Grid)
        requires
            self.wf(),
        ensures
            unsolved@ == cleared(self.grid@, self.grid.mutable()),
            unsolved.mutable() == self.grid.mutable(),
            unsolved.wf(),
    {
        let mut grid_copy = self.grid.clone();
        grid_copy.reset();
        grid_copy
    }

    /// The grid as text.
    pub fn fmt(&self) -> (out: String)
        requires
            self.wf(),
        ensures
            out@ == grid_text(self.grid@),
    {
        self.grid.fmt()
    }

    /// The text that shows the puzzle: the grid, or, with `show_unsolved`,
    /// each line of the unsolved grid followed by ` -> ` and the line of the
    /// grid as it is now. Lines are joined by line breaks.
    pub fn render(&self, show_unsolved: bool) -> (out: String)
        requires
            self.wf(),
        ensures
            out@ == if show_unsolved {
                join_lines(
                    paired_lines(
                        grid_lines(cleared(self.grid@, self.grid.mutable())),
                        grid_lines(self.grid@),
                    ),
                )
            } else {
                grid_text(self.grid@)
            },
    {
        if !show_unsolved {
            return self.grid.fmt();
        }
        let unsolved = self.get_unsolved().lines();
        let solved = self.grid.lines();
        let ghost left = grid_lines(cleared(self.grid@, self.grid.mutable()));
        let ghost right = grid_lines(self.grid@);
        let mut lines: Vec<String> = Vec::new();
        let mut k: usize = 0;
        assert(unsolved@.len() == line_views(unsolved@).len());
        assert(solved@.len() == line_views(solved@).len());
        while k < 11
            invariant
                k <= 11,
                unsolved.len() == 11,
                solved.len() == 11,
                line_views(unsolved@) == left,
                line_views(solved@) == right,
                line_views(lines@) == paired_lines(left, right).take(k as int),
            decreases 11 - k,
        {
            let ghost before = lines@;
            assert(before.len() == line_views(before).len());
            proof {
                reveal_strlit(" -> ");
            }
            let mut line = unsolved[k].clone();
            line.append(" -> ");
            line.append(solved[k].as_str());
            assert(" -> "@ =~= arrow());
            assert(line_views(unsolved@)[k as int] == unsolved[k as int]@);
            assert(line_views(solved@)[k as int] == solved[k as int]@);
            lines.push(line);
            assert forall|i: int| 0 <= i < k + 1 implies line_views(lines@)[i] == paired_lines(
                left,
                right,
            ).take(k + 1)[i] by {
                if i < k {
                    assert(line_views(before)[i] == paired_lines(left, right).take(k as int)[i]);
                }
            }
            assert(line_views(lines@) =~= paired_lines(left, right).take(k + 1));
            k += 1;
        }
        assert(paired_lines(left, right).take(11) =~= paired_lines(left, right));
        join(&lines)
    }

    /// Solves the puzzle by backtracking, within `max_tries` tries, and
    /// reports in words how that went.
    ///
    /// The grid is left as the search left it. The report is `Ok` where the
    /// search ended below the ceiling with a grid that is done, and tells the
    /// tries that it needed; else it is `Err`, and tells that the ceiling was
    /// reached or that the candidates ran out.
    pub fn solve_backtrace(&mut self, max_tries: u32) -> (report: Result<String, String>)
        requires
            old(self).wf(),
        ensures
            final(self).wf(),
            final(self).grid.mutable() == old(self).grid.mutable(),
            final(self).grid@ == search(
                old(self).grid@,
                old(self).grid.mutable(),
                0,
                0,
                max_tries as int,
            ).cells,
            report_is(
                report,
                search(old(self).grid@, old(self).grid.mutable(), 0, 0, max_tries as int),
                max_tries,
            ),
    {
        let mut solver = Backtracing::new(max_tries);
        let copy = Sudoku { grid: self.grid.clone() };
        let solved = solver.solve(copy);
        self.grid = solved.grid;
        proof {
            reveal_strlit("Solved. Needed ");
            reveal_strlit(" tries.");
            reveal_strlit("Could not solve sudoko. It has no solution.");
            reveal_strlit("Could not solve sudoko. Exeeded limit of ");
        }
        match solver.status() {
            Ok(_) => {
                let mut text = String::from_str("Solved. Needed ");
                push_decimal(&mut text, solver.get_tries());
                text.append(" tries.");
                Ok(text)
            },
            Err(SudokuError::Unsolvable) => Err(
                String::from_str("Could not solve sudoko. It has no solution."),
            ),
            Err(_) => {
                let mut text = String::from_str("Could not solve sudoko. Exeeded limit of ");
                push_decimal(&mut text, max_tries);
                text.append(" tries.");
                Err(text)
            },
        }
    }

    /// Solves the puzzle by a Monte Carlo search, within `max_tries` tries,
    /// and reports in words how that went. The search draws from `rng` and
    /// keeps exchanges that raise the energy as `acceptance` decides.
    ///
    /// The grid is left as the search left it: filled, and changed by
    /// exchanges inside parcels only. The report is `Ok` where the search
    /// ended below the ceiling, with a grid that is done and has no energy,
    /// and tells the tries that it needed; else it is `Err`, and tells that
    /// the ceiling was reached. A puzzle that is done without energy once it
    /// is filled needs no try and is left as it was filled.
    pub fn solve_montecarlo<A: Acceptance>(
        &mut self,
        max_tries: u32,
        rng: StdRng,
        acceptance: A,
    ) -> (report: Result<String, String>)
        requires
            old(self).wf(),
            can_fill(old(self).grid@, old(self).grid.mutable()),
        ensures
            final(self).wf(),
            final(self).grid.mutable() == old(self).grid.mutable(),
            same_outside(final(self).grid@, old(self).grid@, old(self).grid.mutable()),
            same_parcel_digits(final(self).grid@, filled(old(self).grid@, old(self).grid.mutable())),
            match report {
                Ok(text) => {
                    &&& done(final(self).grid@, final(self).grid.mutable())
                    &&& energy(final(self).grid@) == 0
                    &&& exists|tries: nat|
                        tries < max_tries && text@ == #[trigger] needed_text(tries)
                },
                Err(text) => text@ == exceeded_text(max_tries as nat),
            },
            done(filled(old(self).grid@, old(self).grid.mutable()), old(self).grid.mutable())
                && energy(filled(old(self).grid@, old(self).grid.mutable())) == 0 && max_tries > 0
                ==> (report matches Ok(text) && text@ == needed_text(0)),
            done(filled(old(self).grid@, old(self).grid.mutable()), old(self).grid.mutable())
                && energy(filled(old(self).grid@, old(self).grid.mutable())) == 0
                ==> final(self).grid@ == filled(old(self).grid@, old(self).grid.mutable()),
    {
        let mut solver = Montecarlo::new(max_tries, rng, acceptance);
        let copy = Sudoku { grid: self.grid.clone() };
        let solved = solver.solve(copy);
        self.grid = solved.grid;
        proof {
            reveal_strlit("Solved. Needed ");
            reveal_strlit(" tries.");
            reveal_strlit("Could not solve sudoko. Exeeded limit of ");
        }
        if solver.is_success() {
            let tries = solver.get_tries();
            let mut text = String::from_str("Solved. Needed ");
            push_decimal(&mut text, tries);
            text.append(" tries.");
            assert(text@ == needed_text(tries as nat));
            Ok(text)
        } else {
            let mut text = String::from_str("Could not solve sudoko. Exeeded limit of ");
            push_decimal(&mut text, max_tries);
            text.append(" tries.");
            Err(text)
        }
    }

    /// Solves the puzzle with the strategy of first choice, backtracking;
    /// see `solve_backtrace`.
    pub fn solve(&mut self, max_tries: u32) -> (report: Result<String, String>)
        requires
            old(self).wf(),
        ensures
            final(self).wf(),
            final(self).grid.mutable() == old(self).grid.mutable(),
            final(self).grid@ == search(
                old(self).grid@,
                old(self).grid.mutable(),
                0,
                0,
                max_tries as int,
            ).cells,
            report_is(
                report,
                search(old(self).grid@, old(self).grid.mutable(), 0, 0, max_tries as int),
                max_tries,
            ),
    {
        self.solve_backtrace(max_tries)
    }
}

/// The words that report a success after so many tries.
pub open spec fn needed_text(tries: nat) -> Seq<char> {
    "Solved. Needed "@ + decimal(tries) + " tries."@
}

/// The words that report that the ceiling of the tries was reached.
pub open spec fn exceeded_text(max_tries: nat) -> Seq<char> {
    "Could not solve sudoko. Exeeded limit of "@ + decimal(max_tries) + " tries."@
}

/// The words that report a puzzle without solution.
pub open spec fn unsolvable_text() -> Seq<char> {
    "Could not solve sudoko. It has no solution."@
}

/// The report on a backtracking search ends as the search did: `Ok` with
/// the tries that were needed where it ended below the ceiling and not as
/// unsolvable, else `Err` with the reason.
pub open spec fn report_is(report: Result<String, String>, end: Outcome, max_tries: u32) -> bool {
    match report {
        Ok(text) => {
            &&& !end.unsolvable
            &&& end.tries < max_tries
            &&& text@ == needed_text(end.tries as nat)
        },
        Err(text) => if end.unsolvable {
            text@ == unsolvable_text()
        } else {
            &&& end.tries >= max_tries
            &&& text@ == exceeded_text(max_tries as nat)
        },
    }
}

/// Solving and emptying gives back what was read. Where a puzzle as it is
/// made or read was changed in its mutable fields only, as the solvers do,
/// the grid with those fields emptied again is the grid of the puzzle.
pub proof fn lemma_unsolved_is_what_was_read(read: Sudoku, solved: Sudoku)
    requires
        read.wf(),
        read.grid.mutable() == empty_fields(read.grid@),
        solved.grid.mutable() == read.grid.mutable(),
        same_outside(solved.grid@, read.grid@, read.grid.mutable()),
    ensures
        cleared(solved.grid@, solved.grid.mutable()) == read.grid@,
{
    lemma_cleared_restores(read.grid@, solved.grid@);
}

} // verus!
