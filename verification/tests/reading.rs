use sudoku_solver::{Field, Grid, Sudoku, SudokuError};

const PUZZLE: &str = "# an easy puzzle\n\
xxx|26x|7x1\n\
68x|x7x|x9x\n\
19x|xx4|5xx\n\
-----------\n\
82x|1xx|x4x\n\
xx4|6x2|9xx\n\
x5x|xx3|x28\n\
-----------\n\
xx9|3xx|x74\n\
x4x|x5x|x36\n\
7x3|x18|xxx";

const PLAIN: &str = "000260701\n680070090\n190004500\n820100040\n004602900\n050003028\n009300074\n040050036\n703018000";

fn rows_of(grid: &Grid) -> Vec<Vec<u8>> {
    (0..9).map(|r| grid.get_row(r)).collect()
}

#[test]
fn read_skips_comments_and_decoration() {
    let mut decorated = Sudoku::new();
    decorated.read(PUZZLE).unwrap();
    let mut plain = Sudoku::new();
    plain.read(PLAIN).unwrap();
    assert_eq!(rows_of(&decorated.grid), rows_of(&plain.grid));
    assert_eq!(decorated.grid.get_row(0), vec![0, 0, 0, 2, 6, 0, 7, 0, 1]);
    assert_eq!(decorated.grid.get_row(8), vec![7, 0, 3, 0, 1, 8, 0, 0, 0]);
    assert_eq!(decorated.grid.mutable_fields, plain.grid.mutable_fields);
}

#[test]
fn read_refuses_a_short_row() {
    let mut s = Sudoku::new();
    let text = PLAIN.replace("680070090", "68007009");
    assert_eq!(s.read(&text), Err(SudokuError::MalformedInput));
}

#[test]
fn read_refuses_a_long_row() {
    let mut s = Sudoku::new();
    let text = PLAIN.replace("680070090", "6800700901");
    assert_eq!(s.read(&text), Err(SudokuError::MalformedInput));
}

#[test]
fn read_refuses_a_character_that_is_no_digit() {
    let mut s = Sudoku::new();
    let text = PLAIN.replace("680070090", "68007a090");
    assert_eq!(s.read(&text), Err(SudokuError::MalformedInput));
    let text = PLAIN.replace("680070090", "68007 090");
    assert_eq!(s.read(&text), Err(SudokuError::MalformedInput));
}

#[test]
fn read_refuses_too_few_and_too_many_rows() {
    let mut s = Sudoku::new();
    let eight = PLAIN.replace("\n703018000", "");
    assert_eq!(s.read(&eight), Err(SudokuError::MalformedInput));
    let ten = format!("{}\n000000000", PLAIN);
    assert_eq!(s.read(&ten), Err(SudokuError::MalformedInput));
    assert_eq!(s.read(""), Err(SudokuError::MalformedInput));
}

#[test]
fn read_takes_a_final_line_break_for_an_empty_row() {
    let mut s = Sudoku::new();
    let text = format!("{}\n", PLAIN);
    assert_eq!(s.read(&text), Err(SudokuError::MalformedInput));
}

#[test]
fn read_leaves_the_puzzle_alone_when_it_fails() {
    let mut s = Sudoku::new();
    s.read(PLAIN).unwrap();
    let before = rows_of(&s.grid);
    assert_eq!(s.read("12345"), Err(SudokuError::MalformedInput));
    assert_eq!(rows_of(&s.grid), before);
    assert_eq!(s.grid.mutable_fields.len(), 45);
}

#[test]
fn read_drops_a_commented_row_wherever_the_mark_stands() {
    let mut s = Sudoku::new();
    let text = format!("{}\n123456789#", PLAIN);
    s.read(&text).unwrap();
    assert_eq!(s.grid.get_row(8), vec![7, 0, 3, 0, 1, 8, 0, 0, 0]);
}

#[test]
fn a_new_puzzle_is_empty() {
    let s = Sudoku::new();
    assert_eq!(rows_of(&s.grid), vec![vec![0u8; 9]; 9]);
    assert_eq!(s.grid.mutable_fields.len(), 81);
    assert_eq!(s.grid.mutable_fields(), &s.grid.mutable_fields);
}

#[test]
fn guesses_leave_out_what_the_row_the_column_and_the_parcel_hold() {
    let mut s = Sudoku::new();
    s.read("003010040\n000000000\n000000000\n000000000\n000000000\n000000000\n000000000\n000000000\n000000000")
        .unwrap();
    assert_eq!(s.get_field_guesses(&Field::new(0, 0)), vec![2, 5, 6, 7, 8, 9]);
    // (1,1) shares the parcel with the 3 only.
    assert_eq!(s.get_field_guesses(&Field::new(1, 1)), vec![1, 2, 4, 5, 6, 7, 8, 9]);
    // (5,4) shares the column with the 1 only.
    assert_eq!(s.get_field_guesses(&Field::new(5, 4)), vec![2, 3, 4, 5, 6, 7, 8, 9]);
    assert_eq!(s.get_field_guesses(&Field::new(8, 0)), vec![1, 2, 3, 4, 5, 6, 7, 8, 9]);
    // A filled field sees its own digit.
    assert_eq!(s.get_field_guesses(&Field::new(0, 2)), vec![2, 5, 6, 7, 8, 9]);
    let mut puzzle = Sudoku::new();
    puzzle.read(PLAIN).unwrap();
    assert_eq!(puzzle.get_field_guesses(&Field::new(0, 0)), vec![3, 4, 5]);
    assert!(puzzle.is_valid_field(&Field::new(0, 0)));
    for i in 0..9 {
        assert!(puzzle.is_valid_row(i));
        assert!(puzzle.is_valid_col(i));
        assert!(puzzle.is_valid_parcel(i));
    }
    puzzle.grid.set(&Field::new(0, 0), 6).unwrap();
    assert!(!puzzle.is_valid_row(0));
    assert!(!puzzle.is_valid_col(0));
    assert!(!puzzle.is_valid_parcel(0));
    assert!(!puzzle.is_valid_field(&Field::new(0, 0)));
    assert!(!puzzle.is_valid_field(&Field::new(0, 8)));
    assert!(puzzle.is_valid_field(&Field::new(8, 8)));
}
