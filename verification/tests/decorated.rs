use sudoku_solver::{Field, Sudoku};

const SUDOKU1: &str = "xxx|26x|7x1\n68x|x7x|x9x\n19x|xx4|5xx\n-----------\n82x|1xx|x4x\nxx4|6x2|9xx\nx5x|xx3|x28\n-----------\nxx9|3xx|x74\nx4x|x5x|x36\n7x3|x18|xxx";

const SUDOKU1_SOLUTION: &str = "435|269|781\n682|571|493\n197|834|562\n-----------\n826|195|347\n374|682|915\n951|743|628\n-----------\n519|326|874\n248|957|136\n763|418|259";

fn get(s: &Sudoku, row: u8, col: u8) -> u8 {
    s.grid.get(&Field::new(row, col)).unwrap()
}

#[test]
fn sudoku_it_should_read_file() {
    let mut s = Sudoku::new();
    s.read(SUDOKU1_SOLUTION).unwrap();
}

#[test]
fn sudoku_it_should_get_row_col_values() {
    let mut s = Sudoku::new();
    s.read(SUDOKU1_SOLUTION).unwrap();
    assert_eq!(get(&s, 0, 6), 7);
    assert_eq!(get(&s, 1, 6), 4);
}

#[test]
fn sudoku_it_should_get_parcels() {
    let mut s = Sudoku::new();
    s.read(SUDOKU1_SOLUTION).unwrap();
    assert_eq!(
        s.grid.get_parcel(0),
        vec![vec![4, 3, 5], vec![6, 8, 2], vec![1, 9, 7]]
    );
    assert_eq!(
        s.grid.get_parcel(3),
        vec![vec![8, 2, 6], vec![3, 7, 4], vec![9, 5, 1]]
    );
}

#[test]
fn sudoku_it_should_test_parcel_validity() {
    let mut s = Sudoku::new();
    s.read(SUDOKU1_SOLUTION).unwrap();
    assert!(s.is_valid_parcel(0));

    s.grid.set(&Field::new(0, 0), 1).unwrap();
    s.grid.set(&Field::new(0, 1), 1).unwrap();
    assert!(!s.is_valid_parcel(0));
}

#[test]
fn sudoku_it_should_give_rows() {
    let mut s = Sudoku::new();
    s.read(SUDOKU1_SOLUTION).unwrap();
    assert_eq!(s.grid.get_row(2), vec![1, 9, 7, 8, 3, 4, 5, 6, 2]);
}

#[test]
fn sudoku_it_should_give_columns() {
    let mut s = Sudoku::new();
    s.read(SUDOKU1_SOLUTION).unwrap();
    assert_eq!(s.grid.get_col(2), vec![5, 2, 7, 6, 4, 1, 9, 8, 3]);
}

#[test]
fn sudoku_it_should_be_valid() {
    let mut s = Sudoku::new();
    s.read(SUDOKU1_SOLUTION).unwrap();
    assert!(s.is_valid());

    s.grid.set(&Field::new(0, 0), 6).unwrap();
    assert!(!s.is_valid());
}

#[test]
fn sudoku_it_should_flag_solution_as_done() {
    let mut s = Sudoku::new();
    s.read(SUDOKU1_SOLUTION).unwrap();
    assert!(s.is_done());
}

#[test]
fn sudoku_it_should_flag_unsolved_sudoko_as_not_done() {
    let mut s = Sudoku::new();
    s.read(SUDOKU1).unwrap();
    assert!(!s.is_done());
}

#[test]
fn sudoku_it_should_mark_mutable_fields() {
    let mut s = Sudoku::new();
    s.read(SUDOKU1).unwrap();
    let mutable_fields: Vec<(u8, u8)> = s
        .grid
        .mutable_fields
        .iter()
        .map(|f| (f.row, f.column))
        .collect();

    assert_eq!(
        mutable_fields,
        vec![
            (0, 0),
            (0, 1),
            (0, 2),
            (0, 5),
            (0, 7),
            (1, 2),
            (1, 3),
            (1, 5),
            (1, 6),
            (1, 8),
            (2, 2),
            (2, 3),
            (2, 4),
            (2, 7),
            (2, 8),
            (3, 2),
            (3, 4),
            (3, 5),
            (3, 6),
            (3, 8),
            (4, 0),
            (4, 1),
            (4, 4),
            (4, 7),
            (4, 8),
            (5, 0),
            (5, 2),
            (5, 3),
            (5, 4),
            (5, 6),
            (6, 0),
            (6, 1),
            (6, 4),
            (6, 5),
            (6, 6),
            (7, 0),
            (7, 2),
            (7, 3),
            (7, 5),
            (7, 6),
            (8, 1),
            (8, 3),
            (8, 6),
            (8, 7),
            (8, 8)
        ]
    );
}

#[test]
fn sudoku_it_should_have_correct_field_guesses() {
    let mut s = Sudoku::new();
    s.read(SUDOKU1).unwrap();
    assert_eq!(s.get_field_guesses(&Field::new(0, 0)), vec![3, 4, 5]);
    assert_eq!(s.get_field_guesses(&Field::new(8, 8)), vec![2, 5, 9]);
}

#[test]
fn sudoku_it_should_reset_values() {
    let mut s = Sudoku::new();
    s.read(SUDOKU1).unwrap();

    // Sanity check; (0,0) must be mutable field
    assert_eq!(s.grid.mutable_fields[0], Field::new(0, 0));

    s.grid.set(&Field::new(0, 0), 5).unwrap(); // change value so that there is something to reset
    assert_eq!(get(&s, 0, 0), 5);

    s.reset();
    assert_eq!(get(&s, 0, 0), 0);
}
