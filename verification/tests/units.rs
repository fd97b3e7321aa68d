use sudoku_solver::common::has_only_unique_digits;
use sudoku_solver::{Field, Grid, SudokuError};

#[test]
fn it_should_check_for_unique_numbers() {
    let non_unique = vec![1, 1, 2];
    let unique = vec![1, 2, 3];
    assert!(!has_only_unique_digits(&non_unique));
    assert!(has_only_unique_digits(&unique));
}

#[test]
fn it_should_ignore_zeros() {
    let unique = vec![0, 0, 1, 2, 3];
    assert!(has_only_unique_digits(&unique));
}

#[test]
fn unique_digits_on_edge_cases() {
    assert!(has_only_unique_digits(&vec![]));
    assert!(has_only_unique_digits(&vec![0, 0, 0]));
    assert!(has_only_unique_digits(&vec![0, 4, 0, 9, 0, 1, 0]));
    assert!(!has_only_unique_digits(&vec![0, 4, 0, 9, 0, 4, 0]));
    assert!(!has_only_unique_digits(&vec![7, 1, 2, 3, 7]));
}

#[test]
fn it_should_format() {
    assert_eq!(Field::new(1, 2).fmt(), "(1,2)");
}

#[test]
fn fields_format_with_longer_numbers() {
    assert_eq!(Field::new(0, 0).fmt(), "(0,0)");
    assert_eq!(Field::new(10, 255).fmt(), "(10,255)");
    assert_eq!(Field::new(100, 9).fmt(), "(100,9)");
}

#[test]
fn fields_compare_by_row_then_column() {
    assert_eq!(Field::new(3, 4), Field::new(3, 4));
    assert_ne!(Field::new(3, 4), Field::new(4, 3));
    assert!(Field::new(0, 8) < Field::new(1, 0));
    assert!(Field::new(2, 3) < Field::new(2, 4));
}

#[test]
fn it_should_return_field_value() {
    let grid = Grid::new(vec![vec![0; 9]; 9]).unwrap();
    assert_eq!(grid.get(&Field::new(0, 0)).unwrap(), 0);
    assert_eq!(grid.get(&Field::new(8, 8)).unwrap(), 0);
}

#[test]
fn grid_it_should_list_all_parcel_fields() {
    assert_eq!(
        Grid::get_parcel_fields(0),
        vec![
            Field::new(0, 0),
            Field::new(0, 1),
            Field::new(0, 2),
            Field::new(1, 0),
            Field::new(1, 1),
            Field::new(1, 2),
            Field::new(2, 0),
            Field::new(2, 1),
            Field::new(2, 2)
        ]
    );
    assert_eq!(
        Grid::get_parcel_fields(7),
        vec![
            Field::new(6, 3),
            Field::new(6, 4),
            Field::new(6, 5),
            Field::new(7, 3),
            Field::new(7, 4),
            Field::new(7, 5),
            Field::new(8, 3),
            Field::new(8, 4),
            Field::new(8, 5)
        ]
    );
}

#[test]
fn a_grid_needs_nine_rows_of_nine_digits() {
    assert_eq!(Grid::new(vec![vec![0; 9]; 8]).err(), Some(SudokuError::InvalidDimensions));
    assert_eq!(Grid::new(vec![vec![0; 9]; 10]).err(), Some(SudokuError::InvalidDimensions));
    assert_eq!(Grid::new(vec![vec![0; 8]; 9]).err(), Some(SudokuError::InvalidDimensions));
    assert_eq!(Grid::new(vec![]).err(), Some(SudokuError::InvalidDimensions));
    let mut rows = vec![vec![0u8; 9]; 9];
    rows[4].push(0);
    assert_eq!(Grid::new(rows).err(), Some(SudokuError::InvalidDimensions));
    let mut rows = vec![vec![9u8; 9]; 9];
    assert!(Grid::new(rows.clone()).is_ok());
    rows[8][8] = 10;
    assert_eq!(Grid::new(rows).err(), Some(SudokuError::InvalidDimensions));
}

#[test]
fn a_grid_refuses_fields_outside_of_it() {
    let mut grid = Grid::new(vec![vec![0; 9]; 9]).unwrap();
    assert_eq!(grid.get(&Field::new(9, 0)), Err(SudokuError::OutOfBounds));
    assert_eq!(grid.get(&Field::new(0, 9)), Err(SudokuError::OutOfBounds));
    assert_eq!(grid.get(&Field::new(255, 255)), Err(SudokuError::OutOfBounds));
    assert_eq!(grid.set(&Field::new(9, 8), 1), Err(SudokuError::OutOfBounds));
    assert_eq!(grid.set(&Field::new(8, 9), 1), Err(SudokuError::OutOfBounds));
    assert_eq!(grid.set(&Field::new(8, 8), 1), Ok(()));
    assert_eq!(grid.get(&Field::new(8, 8)), Ok(1));
    assert_eq!(grid.get(&Field::new(8, 7)), Ok(0));
}

#[test]
fn mutable_fields_are_the_cells_that_were_empty() {
    let mut rows = vec![vec![5u8; 9]; 9];
    rows[0][3] = 0;
    rows[7][1] = 0;
    rows[7][0] = 0;
    let mut grid = Grid::new(rows).unwrap();
    assert_eq!(
        grid.mutable_fields,
        vec![Field::new(0, 3), Field::new(7, 0), Field::new(7, 1)]
    );
    grid.set(&Field::new(0, 3), 4).unwrap();
    grid.set(&Field::new(0, 0), 0).unwrap();
    assert_eq!(
        grid.mutable_fields,
        vec![Field::new(0, 3), Field::new(7, 0), Field::new(7, 1)]
    );
    grid.reset();
    assert_eq!(grid.get(&Field::new(0, 3)), Ok(0));
    assert_eq!(grid.get(&Field::new(0, 0)), Ok(0));
    assert_eq!(grid.get(&Field::new(1, 1)), Ok(5));
    let copy = grid.clone();
    assert_eq!(copy.mutable_fields, grid.mutable_fields);
    assert_eq!(copy.get_row(7), vec![0, 0, 5, 5, 5, 5, 5, 5, 5]);
}

#[test]
fn parcel_indices_count_row_by_row() {
    assert_eq!(Grid::get_parcel_index(&Field::new(0, 0)), 0);
    assert_eq!(Grid::get_parcel_index(&Field::new(2, 8)), 2);
    assert_eq!(Grid::get_parcel_index(&Field::new(3, 0)), 3);
    assert_eq!(Grid::get_parcel_index(&Field::new(4, 4)), 4);
    assert_eq!(Grid::get_parcel_index(&Field::new(8, 2)), 6);
    assert_eq!(Grid::get_parcel_index(&Field::new(8, 8)), 8);
}

#[test]
fn swapping_exchanges_two_digits() {
    let mut rows = vec![vec![0u8; 9]; 9];
    rows[1][2] = 7;
    rows[4][5] = 3;
    let mut grid = Grid::new(rows).unwrap();
    assert_eq!(grid.swap(&Field::new(1, 2), &Field::new(4, 5)), Ok(()));
    assert_eq!(grid.get(&Field::new(1, 2)), Ok(3));
    assert_eq!(grid.get(&Field::new(4, 5)), Ok(7));
    assert_eq!(grid.swap(&Field::new(1, 2), &Field::new(1, 2)), Ok(()));
    assert_eq!(grid.get(&Field::new(1, 2)), Ok(3));
    assert_eq!(grid.swap(&Field::new(1, 2), &Field::new(0, 0)), Ok(()));
    assert_eq!(grid.get(&Field::new(1, 2)), Ok(0));
    assert_eq!(grid.get(&Field::new(0, 0)), Ok(3));
    assert_eq!(grid.swap(&Field::new(9, 2), &Field::new(4, 5)), Err(SudokuError::OutOfBounds));
    assert_eq!(grid.swap(&Field::new(4, 5), &Field::new(4, 9)), Err(SudokuError::OutOfBounds));
    assert_eq!(grid.get(&Field::new(4, 5)), Ok(7));
    assert_eq!(grid.mutable_fields.len(), 79);
}

#[test]
fn the_parcel_comes_as_its_rows() {
    let rows: Vec<Vec<u8>> = (0..9u8)
        .map(|r| (0..9u8).map(|c| (r * 3 + c) % 10).collect())
        .collect();
    let grid = Grid::new(rows).unwrap();
    // Parcel 5 holds the rows 3 to 5 in the columns 6 to 8.
    assert_eq!(
        grid.get_parcel(5),
        vec![vec![5, 6, 7], vec![8, 9, 0], vec![1, 2, 3]]
    );
    assert_eq!(grid.get_col(8), vec![8, 1, 4, 7, 0, 3, 6, 9, 2]);
    assert_eq!(grid.get_row(3), vec![9, 0, 1, 2, 3, 4, 5, 6, 7]);
}
