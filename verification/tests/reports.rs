use rand::rngs::StdRng;
use rand::SeedableRng;
use sudoku_solver::solver::montecarlo::can_initialize;
use sudoku_solver::{Acceptance, Backtracing, Field, Solver, Sudoku};

/// Keeps every exchange.
struct Always;

impl Acceptance for Always {
    fn accept(&mut self, _rng: &mut StdRng, _energy_last: u32, _energy: u32) -> bool {
        true
    }
}

const SUDOKU1: &str = "000260701\n680070090\n190004500\n820100040\n004602900\n050003028\n009300074\n040050036\n703018000";

const SUDOKU1_SOLUTION: &str = "435269781\n682571493\n197834562\n826195347\n374682915\n951743628\n519326874\n248957136\n763418259";

fn puzzle(text: &str) -> Sudoku {
    let mut s = Sudoku::new();
    s.read(text).unwrap();
    s
}

#[test]
fn the_report_tells_the_tries_that_were_needed() {
    let mut solver = Backtracing::new(100000);
    solver.solve(puzzle(SUDOKU1));
    let tries = solver.get_tries();

    let mut s = puzzle(SUDOKU1);
    assert_eq!(
        s.solve_backtrace(100000),
        Ok(format!("Solved. Needed {} tries.", tries))
    );
    assert_eq!(s.fmt(), puzzle(SUDOKU1_SOLUTION).fmt());

    let mut s = puzzle(SUDOKU1);
    assert_eq!(
        s.solve(100000),
        Ok(format!("Solved. Needed {} tries.", tries))
    );
    assert_eq!(s.fmt(), puzzle(SUDOKU1_SOLUTION).fmt());
}

#[test]
fn the_report_on_a_puzzle_that_is_done_tells_of_no_try() {
    let mut s = puzzle(SUDOKU1_SOLUTION);
    assert_eq!(s.solve_backtrace(5), Ok("Solved. Needed 0 tries.".to_string()));
}

#[test]
fn the_report_counts_one_try_for_one_empty_cell() {
    let text = SUDOKU1_SOLUTION.replacen("4", "0", 1);
    let mut s = puzzle(&text);
    assert_eq!(s.solve_backtrace(5), Ok("Solved. Needed 1 tries.".to_string()));
    assert_eq!(s.grid.get(&Field::new(0, 0)), Ok(4));
}

#[test]
fn the_report_tells_that_the_ceiling_was_reached() {
    let mut s = puzzle(SUDOKU1);
    assert_eq!(
        s.solve_backtrace(1),
        Err("Could not solve sudoko. Exeeded limit of 1 tries.".to_string())
    );
    let mut s = puzzle(SUDOKU1);
    assert_eq!(
        s.solve(12),
        Err("Could not solve sudoko. Exeeded limit of 12 tries.".to_string())
    );
    assert_eq!(s.get_unsolved().fmt(), puzzle(SUDOKU1).fmt());
    // The try that fills the last cell reaches the ceiling as well.
    let text = SUDOKU1_SOLUTION.replacen("4", "0", 1);
    let mut s = puzzle(&text);
    assert_eq!(
        s.solve_backtrace(1),
        Err("Could not solve sudoko. Exeeded limit of 1 tries.".to_string())
    );
    assert!(s.is_done());
}

#[test]
fn the_report_tells_that_there_is_no_solution() {
    let text = "012345678\n900000000\n000000000\n000000000\n000000000\n000000000\n000000000\n000000000\n000000000";
    let mut s = puzzle(text);
    assert_eq!(
        s.solve_backtrace(100000),
        Err("Could not solve sudoko. It has no solution.".to_string())
    );
}

#[test]
fn a_puzzle_as_it_is_read_can_be_filled() {
    assert!(can_initialize(&puzzle(SUDOKU1)));
    assert!(can_initialize(&puzzle(SUDOKU1_SOLUTION)));
    assert!(can_initialize(&Sudoku::new()));
    // With a digit in a mutable field, parcel 0 lacks four digits for five
    // mutable fields.
    let mut s = puzzle(SUDOKU1);
    s.grid.set(&Field::new(0, 0), 3).unwrap();
    assert!(!can_initialize(&s));
}

#[test]
fn a_puzzle_that_is_done_once_filled_is_left_as_it_was_filled() {
    // The first row lacks its 4 only, which the filling writes.
    let text = SUDOKU1_SOLUTION.replacen("4", "0", 1);
    let mut s = puzzle(&text);
    let report = s.solve_montecarlo(7, StdRng::seed_from_u64(2), Always);
    assert_eq!(report, Ok("Solved. Needed 0 tries.".to_string()));
    assert_eq!(s.fmt(), puzzle(SUDOKU1_SOLUTION).fmt());
}
