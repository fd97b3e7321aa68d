use rand::rngs::StdRng;
use rand::Rng;
use rand::SeedableRng;
use sudoku_solver::solver::montecarlo::{initialize, missing, propose, settle};
use sudoku_solver::{
    Acceptance, Backtracing, EnergyDimension, Field, Grid, Montecarlo, Solver, Sudoku, SudokuError,
};

const SUDOKU1: &str = "000260701\n680070090\n190004500\n820100040\n004602900\n050003028\n009300074\n040050036\n703018000";

const SUDOKU1_SOLUTION: &str = "435269781\n682571493\n197834562\n826195347\n374682915\n951743628\n519326874\n248957136\n763418259";

fn puzzle(text: &str) -> Sudoku {
    let mut s = Sudoku::new();
    s.read(text).unwrap();
    s
}

fn rows_of(grid: &Grid) -> Vec<Vec<u8>> {
    (0..9).map(|r| grid.get_row(r)).collect()
}

fn sorted(mut values: Vec<u8>) -> Vec<u8> {
    values.sort();
    values
}

fn is_solution(s: &Sudoku) -> bool {
    let all: Vec<u8> = (1..=9).collect();
    (0..9).all(|i| {
        sorted(s.grid.get_row(i)) == all
            && sorted(s.grid.get_col(i)) == all
            && sorted(s.get_parcel_values(i)) == all
    })
}

/// Keeps a swap that raises the energy with the probability of simulated
/// annealing.
struct Metropolis {
    temperature: f64,
}

impl Acceptance for Metropolis {
    fn accept(&mut self, rng: &mut StdRng, energy_last: u32, energy: u32) -> bool {
        let threshold: f64 = rng.gen_range(0.0, 1.0);
        let result = ((f64::from(energy_last) - f64::from(energy)) / self.temperature).exp();
        !(result < threshold)
    }
}

/// Undoes every swap that raises the energy.
struct Never;

impl Acceptance for Never {
    fn accept(&mut self, _rng: &mut StdRng, _energy_last: u32, _energy: u32) -> bool {
        false
    }
}

#[test]
fn backtracing_solves_the_puzzle() {
    let mut solver = Backtracing::new(100000);
    let solved = solver.solve(puzzle(SUDOKU1));
    assert!(solver.is_success());
    assert!(!solver.is_unsolvable());
    assert_eq!(solver.status(), Ok(()));
    assert!(solver.get_tries() >= 45);
    assert!(solver.get_tries() < 100000);
    assert!(solved.is_done());
    assert!(is_solution(&solved));
    assert_eq!(rows_of(&solved.grid), rows_of(&puzzle(SUDOKU1_SOLUTION).grid));
    assert_eq!(solved.calc_energy(), 0);
}

#[test]
fn backtracing_keeps_the_given_cells_and_the_mutable_fields() {
    let start = puzzle(SUDOKU1);
    let given = rows_of(&start.grid);
    let fields = start.grid.mutable_fields.clone();
    let mut solver = Backtracing::new(100000);
    let solved = solver.solve(start);
    assert_eq!(solved.grid.mutable_fields, fields);
    for r in 0..9u8 {
        for c in 0..9u8 {
            if given[r as usize][c as usize] != 0 {
                assert_eq!(solved.grid.get(&Field::new(r, c)), Ok(given[r as usize][c as usize]));
            }
        }
    }
    assert_eq!(rows_of(&solved.get_unsolved()), given);
}

#[test]
fn backtracing_stops_at_the_ceiling() {
    let mut solver = Backtracing::new(1);
    let left = solver.solve(puzzle(SUDOKU1));
    assert!(!solver.is_success());
    assert_eq!(solver.get_tries(), 1);
    assert_eq!(solver.status(), Err(SudokuError::SolveExhausted));
    assert!(!solver.is_unsolvable());
    assert_eq!(left.grid.get(&Field::new(0, 0)), Ok(3));
    assert_eq!(rows_of(&left.get_unsolved()), rows_of(&puzzle(SUDOKU1).grid));
}

#[test]
fn backtracing_takes_the_guesses_in_ascending_order_and_steps_back() {
    // (0,0) can take 1 or 2; with 1 there, (0,1) has no guess left.
    let text = "003456789\n000000000\n000000000\n000000000\n000000000\n000000000\n000000000\n000000000\n020000000";
    let mut solver = Backtracing::new(3);
    let left = solver.solve(puzzle(text));
    assert_eq!(solver.get_tries(), 3);
    assert!(!solver.is_success());
    // Step 1 wrote 1 into (0,0), step 2 emptied (0,1), step 3 wrote 2 into (0,0).
    assert_eq!(left.grid.get_row(0), vec![2, 0, 3, 4, 5, 6, 7, 8, 9]);
}

#[test]
fn backtracing_on_a_puzzle_that_is_done_counts_no_try() {
    let mut solver = Backtracing::new(10);
    let solved = solver.solve(puzzle(SUDOKU1_SOLUTION));
    assert!(solver.is_success());
    assert_eq!(solver.get_tries(), 0);
    assert_eq!(rows_of(&solved.grid), rows_of(&puzzle(SUDOKU1_SOLUTION).grid));
    let mut none = Backtracing::new(0);
    none.solve(puzzle(SUDOKU1_SOLUTION));
    assert!(!none.is_success());
    assert_eq!(none.get_tries(), 0);
}

#[test]
fn backtracing_reports_a_puzzle_without_solution() {
    // (0,0) sees 1 to 8 in its row and 9 in its column.
    let text = "012345678\n900000000\n000000000\n000000000\n000000000\n000000000\n000000000\n000000000\n000000000";
    let mut solver = Backtracing::new(100000);
    let left = solver.solve(puzzle(text));
    assert!(solver.is_unsolvable());
    assert!(!solver.is_success());
    assert_eq!(solver.status(), Err(SudokuError::Unsolvable));
    assert_eq!(solver.get_tries(), 1);
    assert_eq!(rows_of(&left.grid), rows_of(&puzzle(text).grid));
}

#[test]
fn backtracing_goes_through_every_candidate_before_it_gives_up() {
    // (0,0) can take 8 or 9, and (0,1), with both in its column, nothing.
    let text = "001234567\n000000000\n000000000\n000000000\n000000000\n000000000\n000000000\n080000000\n090000000";
    let mut solver = Backtracing::new(100000);
    solver.solve(puzzle(text));
    assert!(solver.is_unsolvable());
    // 8, back, 9, back, nothing left.
    assert_eq!(solver.get_tries(), 5);
}

#[test]
fn the_energy_counts_what_is_missing_from_27_times_9() {
    assert_eq!(Sudoku::new().calc_energy(), 243 - 27);
    assert_eq!(puzzle(SUDOKU1_SOLUTION).calc_energy(), 0);
    let mut s = puzzle(SUDOKU1_SOLUTION);
    // 4 becomes 3 at (0,0): row 0, column 0 and parcel 0 each lose one value.
    s.grid.set(&Field::new(0, 0), 3).unwrap();
    assert_eq!(s.calc_energy(), 3);
    assert!(!s.is_done_with_energy(None));
    assert!(s.is_done_with_energy(Some(0)) == s.is_done());
}

#[test]
fn unique_elements_are_counted_with_the_empty_cells() {
    let s = puzzle(SUDOKU1);
    // Row 0 is 0 0 0 2 6 0 7 0 1.
    assert_eq!(s.count_unique_elements(&EnergyDimension::Row, 0), 5);
    // Column 0 is 0 6 1 8 0 0 0 0 7.
    assert_eq!(s.count_unique_elements(&EnergyDimension::Column, 0), 5);
    // Parcel 0 is 0 0 0 / 6 8 0 / 1 9 0.
    assert_eq!(s.count_unique_elements(&EnergyDimension::Parcel, 0), 5);
    let full = puzzle(SUDOKU1_SOLUTION);
    for i in 0..9 {
        assert_eq!(full.count_unique_elements(&EnergyDimension::Row, i), 9);
        assert_eq!(full.count_unique_elements(&EnergyDimension::Column, i), 9);
        assert_eq!(full.count_unique_elements(&EnergyDimension::Parcel, i), 9);
    }
}

#[test]
fn is_done_with_energy_takes_the_energy_it_is_told() {
    let s = puzzle(SUDOKU1_SOLUTION);
    assert!(s.is_done_with_energy(Some(0)));
    assert!(!s.is_done_with_energy(Some(2)));
    assert!(s.is_done_with_energy(None));
    assert!(!puzzle(SUDOKU1).is_done_with_energy(Some(0)));
}

#[test]
fn missing_digits_are_listed_in_ascending_order() {
    assert_eq!(missing(vec![0, 0, 0, 6, 8, 0, 1, 9, 0]), vec![2, 3, 4, 5, 7]);
    assert_eq!(missing(vec![]), vec![1, 2, 3, 4, 5, 6, 7, 8, 9]);
    assert_eq!(missing(vec![9, 8, 7, 6, 5, 4, 3, 2, 1]), Vec::<u8>::new());
    assert_eq!(missing(vec![3, 3, 0, 3]), vec![1, 2, 4, 5, 6, 7, 8, 9]);
}

#[test]
fn filling_gives_every_parcel_the_digits_it_lacks() {
    let ready = initialize(puzzle(SUDOKU1));
    let all: Vec<u8> = (1..=9).collect();
    for p in 0..9 {
        assert_eq!(sorted(ready.get_parcel_values(p)), all);
        assert!(ready.is_valid_parcel(p));
    }
    // Parcel 0 was 0 0 0 / 6 8 0 / 1 9 0 and lacked 2 3 4 5 7.
    assert_eq!(
        ready.grid.get_parcel(0),
        vec![vec![2, 3, 4], vec![6, 8, 5], vec![1, 9, 7]]
    );
    // Parcel 8 was 0 7 4 / 0 3 6 / 0 0 0 and lacked 1 2 5 8 9.
    assert_eq!(
        ready.grid.get_parcel(8),
        vec![vec![1, 7, 4], vec![2, 3, 6], vec![5, 8, 9]]
    );
    assert_eq!(rows_of(&ready.get_unsolved()), rows_of(&puzzle(SUDOKU1).grid));
}

#[test]
fn montecarlo_stops_at_the_ceiling() {
    let mut solver = Montecarlo::new(1, StdRng::seed_from_u64(7), Metropolis { temperature: 0.15 });
    let left = solver.solve(puzzle(SUDOKU1));
    assert!(!solver.is_success());
    assert_eq!(solver.get_tries(), 1);
    assert_eq!(solver.status(), Err(SudokuError::SolveExhausted));
    assert_eq!(rows_of(&left.get_unsolved()), rows_of(&puzzle(SUDOKU1).grid));
}

#[test]
fn montecarlo_only_moves_digits_inside_parcels() {
    let all: Vec<u8> = (1..=9).collect();
    for seed in 0..4u64 {
        let mut solver =
            Montecarlo::new(2000, StdRng::seed_from_u64(seed), Metropolis { temperature: 0.15 });
        let left = solver.solve(puzzle(SUDOKU1));
        for p in 0..9 {
            assert_eq!(sorted(left.get_parcel_values(p)), all);
        }
        assert_eq!(rows_of(&left.get_unsolved()), rows_of(&puzzle(SUDOKU1).grid));
        assert!(solver.get_tries() >= 1);
        assert!(solver.get_tries() <= 2000);
        if solver.is_success() {
            assert!(is_solution(&left));
            assert_eq!(left.calc_energy(), 0);
        } else {
            assert_eq!(solver.get_tries(), 2000);
        }
    }
}

#[test]
fn montecarlo_never_raises_the_energy_when_no_rise_is_accepted() {
    let ready = initialize(puzzle(SUDOKU1));
    let before = ready.calc_energy();
    let mut solver = Montecarlo::new(500, StdRng::seed_from_u64(11), Never);
    let left = solver.solve(puzzle(SUDOKU1));
    assert!(left.calc_energy() <= before);
}

#[test]
fn montecarlo_on_a_solved_puzzle_counts_no_try() {
    let mut solver = Montecarlo::new(10, StdRng::seed_from_u64(3), Never);
    let solved = solver.solve(puzzle(SUDOKU1_SOLUTION));
    assert!(solver.is_success());
    assert_eq!(solver.status(), Ok(()));
    assert_eq!(solver.get_tries(), 0);
    assert_eq!(rows_of(&solved.grid), rows_of(&puzzle(SUDOKU1_SOLUTION).grid));
}

#[test]
fn montecarlo_finishes_a_puzzle_with_one_pair_to_swap() {
    // The solution with (0,0) and (0,1) emptied: filling writes 3 and 4,
    // one swap away from 4 and 3.
    let text = SUDOKU1_SOLUTION.replacen("43", "00", 1);
    let mut solver = Montecarlo::new(100000, StdRng::seed_from_u64(5), Never);
    let solved = solver.solve(puzzle(&text));
    assert!(solver.is_success());
    assert!(solver.get_tries() >= 1);
    assert_eq!(rows_of(&solved.grid), rows_of(&puzzle(SUDOKU1_SOLUTION).grid));
}

#[test]
fn backtracing_succeeds_within_the_bound_of_the_search() {
    // Three empty cells: the search ends within 9 * (9 * (9 * 1 + 2) + 2) tries.
    let text = SUDOKU1_SOLUTION.replacen("435", "000", 1);
    let mut solver = Backtracing::new(910);
    let solved = solver.solve(puzzle(&text));
    assert!(solver.is_success());
    assert_eq!(solver.get_tries(), 3);
    assert!(is_solution(&solved));
    assert_eq!(rows_of(&solved.grid), rows_of(&puzzle(SUDOKU1_SOLUTION).grid));
}

#[test]
fn the_report_of_a_monte_carlo_search_tells_how_it_went() {
    let text = SUDOKU1_SOLUTION.replacen("43", "00", 1);
    let mut s = puzzle(&text);
    let report = s.solve_montecarlo(100000, StdRng::seed_from_u64(5), Never);
    let mut solver = Montecarlo::new(100000, StdRng::seed_from_u64(5), Never);
    solver.solve(puzzle(&text));
    assert_eq!(report, Ok(format!("Solved. Needed {} tries.", solver.get_tries())));
    assert_eq!(rows_of(&s.grid), rows_of(&puzzle(SUDOKU1_SOLUTION).grid));

    let mut s = puzzle(SUDOKU1_SOLUTION);
    assert_eq!(
        s.solve_montecarlo(3, StdRng::seed_from_u64(1), Never),
        Ok("Solved. Needed 0 tries.".to_string())
    );

    let mut s = puzzle(SUDOKU1);
    assert_eq!(
        s.solve_montecarlo(3, StdRng::seed_from_u64(1), Metropolis { temperature: 0.15 }),
        Err("Could not solve sudoko. Exeeded limit of 3 tries.".to_string())
    );
    assert_eq!(rows_of(&s.get_unsolved()), rows_of(&puzzle(SUDOKU1).grid));
}

#[test]
fn a_try_exchanges_the_first_two_fields_of_the_shuffled_list() {
    let ready = initialize(puzzle(SUDOKU1));
    let before = rows_of(&ready.grid);
    let energy_before = ready.calc_energy();
    // Parcel 0 is 2 3 4 / 6 8 5 / 1 9 7 after the filling.
    let shuffled = vec![Field::new(1, 2), Field::new(0, 0), Field::new(0, 1)];
    let (proposal, energy) = propose(ready, &shuffled);
    assert_eq!(proposal.grid.get_row(0), vec![5, 3, 4, 2, 6, 1, 7, 2, 1]);
    assert_eq!(proposal.grid.get_row(1), vec![6, 8, 2, 3, 7, 5, 3, 9, 4]);
    for r in 2..9usize {
        assert_eq!(proposal.grid.get_row(r as u8), before[r]);
    }
    assert_eq!(energy, proposal.calc_energy());
    assert_eq!(proposal.grid.mutable_fields.len(), 45);

    // A proposal that is kept stays, with its energy.
    let (left, handed_on) = settle(proposal, &shuffled, energy + 1, energy, false);
    assert_eq!(left.grid.get_row(0), vec![5, 3, 4, 2, 6, 1, 7, 2, 1]);
    assert_eq!(handed_on, energy);
    let (left, handed_on) = settle(left, &shuffled, energy, energy, false);
    assert_eq!(left.grid.get_row(0), vec![5, 3, 4, 2, 6, 1, 7, 2, 1]);
    assert_eq!(handed_on, energy);
    let (left, handed_on) = settle(left, &shuffled, 0, energy, true);
    assert_eq!(left.grid.get_row(1), vec![6, 8, 2, 3, 7, 5, 3, 9, 4]);
    assert_eq!(handed_on, energy);

    // A rise that is not accepted is undone, and the energy before goes on.
    let (left, handed_on) = settle(left, &shuffled, energy_before, energy_before + 1, false);
    assert_eq!(rows_of(&left.grid), before);
    assert_eq!(handed_on, energy_before);
}

#[test]
fn a_try_on_a_list_without_a_pair_leaves_the_grid() {
    let ready = initialize(puzzle(SUDOKU1));
    let before = rows_of(&ready.grid);
    let energy_before = ready.calc_energy();
    let (proposal, energy) = propose(ready, &vec![Field::new(0, 0)]);
    assert_eq!(rows_of(&proposal.grid), before);
    assert_eq!(energy, energy_before);
    let (proposal, energy) = propose(proposal, &vec![]);
    assert_eq!(rows_of(&proposal.grid), before);
    assert_eq!(energy, energy_before);
    let (left, handed_on) = settle(proposal, &vec![], energy_before, energy + 2, false);
    assert_eq!(rows_of(&left.grid), before);
    assert_eq!(handed_on, energy_before);
    // A field outside the grid offers no pair either.
    let outside = vec![Field::new(0, 0), Field::new(9, 0)];
    let (proposal, energy) = propose(left, &outside);
    assert_eq!(rows_of(&proposal.grid), before);
    assert_eq!(energy, energy_before);
}
