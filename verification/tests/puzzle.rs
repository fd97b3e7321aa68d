use sudoku_solver::{Field, Sudoku};

const SUDOKU1: &str = "000260701\n680070090\n190004500\n820100040\n004602900\n050003028\n009300074\n040050036\n703018000";

const SUDOKU1_SOLUTION: &str = "435269781\n682571493\n197834562\n826195347\n374682915\n951743628\n519326874\n248957136\n763418259";

#[test]
fn mod_it_should_read_file() {
    let mut s = Sudoku::new();
    s.read(SUDOKU1_SOLUTION).unwrap();
}

#[test]
fn mod_it_should_get_row_col_values() {
    let mut s = Sudoku::new();
    s.read(SUDOKU1_SOLUTION).unwrap();
    assert_eq!(s.grid.get(&Field::new(0, 6)).unwrap(), 7);
    assert_eq!(s.grid.get(&Field::new(1, 6)).unwrap(), 4);
}

#[test]
fn mod_it_should_get_parcels() {
    let mut s = Sudoku::new();
    s.read(SUDOKU1_SOLUTION).unwrap();
    assert_eq!(
        s.grid.get_parcel(0),
        vec![vec![4, 3, 5], vec![6, 8, 2], vec![1, 9, 7]]
    );
    assert_eq!(
        s.grid.get_parcel(3),
        vec![vec![8, 2, 6], vec![3, 7, 4], vec![9, 5, 1]]
    );
}

#[test]
fn mod_it_should_test_parcel_validity() {
    let mut s = Sudoku::new();
    s.read(SUDOKU1_SOLUTION).unwrap();
    assert!(s.is_valid_parcel(0));

    s.grid.set(&Field::new(0, 0), 1).unwrap();
    s.grid.set(&Field::new(0, 1), 1).unwrap();
    assert!(!s.is_valid_parcel(0));
}

#[test]
fn mod_it_should_give_rows() {
    let mut s = Sudoku::new();
    s.read(SUDOKU1_SOLUTION).unwrap();
    assert_eq!(s.grid.get_row(2), vec![1, 9, 7, 8, 3, 4, 5, 6, 2]);
}

#[test]
fn mod_it_should_give_columns() {
    let mut s = Sudoku::new();
    s.read(SUDOKU1_SOLUTION).unwrap();
    assert_eq!(s.grid.get_col(2), vec![5, 2, 7, 6, 4, 1, 9, 8, 3]);
}

#[test]
fn mod_it_should_be_valid() {
    let mut s = Sudoku::new();
    s.read(SUDOKU1_SOLUTION).unwrap();
    assert!(s.is_valid());

    s.grid.set(&Field::new(0, 0), 6).unwrap();
    assert!(!s.is_valid());
}

#[test]
fn mod_it_should_flag_solution_as_done() {
    let mut s = Sudoku::new();
    s.read(SUDOKU1_SOLUTION).unwrap();
    assert!(s.is_done());
    assert!(s.is_done_with_energy(None));
}

#[test]
fn mod_it_should_flag_unsolved_sudoko_as_not_done() {
    let mut s = Sudoku::new();
    s.read(SUDOKU1).unwrap();
    assert!(!s.is_done());
    assert!(!s.is_done_with_energy(None));
}

#[test]
fn mod_it_should_mark_mutable_fields() {
    let mut s = Sudoku::new();
    s.read(SUDOKU1).unwrap();

    assert_eq!(
        s.grid.mutable_fields,
        vec![
            Field::new(0, 0),
            Field::new(0, 1),
            Field::new(0, 2),
            Field::new(0, 5),
            Field::new(0, 7),
            Field::new(1, 2),
            Field::new(1, 3),
            Field::new(1, 5),
            Field::new(1, 6),
            Field::new(1, 8),
            Field::new(2, 2),
            Field::new(2, 3),
            Field::new(2, 4),
            Field::new(2, 7),
            Field::new(2, 8),
            Field::new(3, 2),
            Field::new(3, 4),
            Field::new(3, 5),
            Field::new(3, 6),
            Field::new(3, 8),
            Field::new(4, 0),
            Field::new(4, 1),
            Field::new(4, 4),
            Field::new(4, 7),
            Field::new(4, 8),
            Field::new(5, 0),
            Field::new(5, 2),
            Field::new(5, 3),
            Field::new(5, 4),
            Field::new(5, 6),
            Field::new(6, 0),
            Field::new(6, 1),
            Field::new(6, 4),
            Field::new(6, 5),
            Field::new(6, 6),
            Field::new(7, 0),
            Field::new(7, 2),
            Field::new(7, 3),
            Field::new(7, 5),
            Field::new(7, 6),
            Field::new(8, 1),
            Field::new(8, 3),
            Field::new(8, 6),
            Field::new(8, 7),
            Field::new(8, 8)
        ]
    );
}

#[test]
fn mod_it_should_have_correct_field_guesses() {
    let mut s = Sudoku::new();
    s.read(SUDOKU1).unwrap();
    assert_eq!(s.get_field_guesses(&Field::new(0, 0)), vec![3, 4, 5]);
    assert_eq!(s.get_field_guesses(&Field::new(8, 8)), vec![2, 5, 9]);
}

#[test]
fn mod_it_should_reset_values() {
    let mut s = Sudoku::new();
    s.read(SUDOKU1).unwrap();

    // Sanity check; (0,0) must be mutable field
    assert_eq!(s.grid.mutable_fields[0], Field::new(0, 0));

    s.grid.set(&Field::new(0, 0), 5).unwrap(); // change value so that there is something to reset
    assert_eq!(s.grid.get(&Field::new(0, 0)).unwrap(), 5);

    s.grid.reset();
    assert_eq!(s.grid.get(&Field::new(0, 0)).unwrap(), 0);
}

#[test]
fn mod_it_should_list_all_parcel_fields() {
    assert_eq!(
        Sudoku::get_parcel_fields(0),
        vec![
            Field::new(0, 0),
            Field::new(0, 1),
            Field::new(0, 2),
            Field::new(1, 0),
            Field::new(1, 1),
            Field::new(1, 2),
            Field::new(2, 0),
            Field::new(2, 1),
            Field::new(2, 2)
        ]
    );
    assert_eq!(
        Sudoku::get_parcel_fields(7),
        vec![
            Field::new(6, 3),
            Field::new(6, 4),
            Field::new(6, 5),
            Field::new(7, 3),
            Field::new(7, 4),
            Field::new(7, 5),
            Field::new(8, 3),
            Field::new(8, 4),
            Field::new(8, 5)
        ]
    );
}

#[test]
fn it_should_list_all_mutable_parcel_fields() {
    let mut s = Sudoku::new();
    s.read(SUDOKU1).unwrap();
    let mutable_fields = s.get_mutable_fields_of_parcel(5);

    assert_eq!(
        mutable_fields,
        vec![
            Field::new(3, 6),
            Field::new(3, 8),
            Field::new(4, 7),
            Field::new(4, 8),
            Field::new(5, 6),
        ]
    );
}
