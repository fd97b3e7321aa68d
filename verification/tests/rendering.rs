use sudoku_solver::{Backtracing, Solver, Sudoku};

const SUDOKU1: &str = "000260701\n680070090\n190004500\n820100040\n004602900\n050003028\n009300074\n040050036\n703018000";

fn puzzle(text: &str) -> Sudoku {
    let mut s = Sudoku::new();
    s.read(text).unwrap();
    s
}

const UNSOLVED: &str = "xxx|26x|7x1\n\
68x|x7x|x9x\n\
19x|xx4|5xx\n\
-----------\n\
82x|1xx|x4x\n\
xx4|6x2|9xx\n\
x5x|xx3|x28\n\
-----------\n\
xx9|3xx|x74\n\
x4x|x5x|x36\n\
7x3|x18|xxx";

const SOLVED: &str = "435|269|781\n\
682|571|493\n\
197|834|562\n\
-----------\n\
826|195|347\n\
374|682|915\n\
951|743|628\n\
-----------\n\
519|326|874\n\
248|957|136\n\
763|418|259";

const BOTH: &str = "xxx|26x|7x1 -> 435|269|781\n\
68x|x7x|x9x -> 682|571|493\n\
19x|xx4|5xx -> 197|834|562\n\
----------- -> -----------\n\
82x|1xx|x4x -> 826|195|347\n\
xx4|6x2|9xx -> 374|682|915\n\
x5x|xx3|x28 -> 951|743|628\n\
----------- -> -----------\n\
xx9|3xx|x74 -> 519|326|874\n\
x4x|x5x|x36 -> 248|957|136\n\
7x3|x18|xxx -> 763|418|259";

#[test]
fn a_grid_is_written_with_bars_and_dashes() {
    let s = puzzle(SUDOKU1);
    assert_eq!(s.grid.fmt(), UNSOLVED);
    assert_eq!(s.fmt(), UNSOLVED);
    assert_eq!(s.render(false), UNSOLVED);
    assert_eq!(s.grid.lines().len(), 11);
    assert_eq!(s.grid.lines()[3], "-----------");
    assert_eq!(s.grid.lines()[10], "7x3|x18|xxx");
}

#[test]
fn the_text_of_a_grid_can_be_read_again() {
    let s = puzzle(SUDOKU1);
    let again = puzzle(&s.fmt());
    assert_eq!(again.fmt(), s.fmt());
    assert_eq!(again.grid.mutable_fields, s.grid.mutable_fields);
}

#[test]
fn the_solved_grid_is_shown_beside_the_unsolved_one() {
    let mut solver = Backtracing::new(100000);
    let solved = solver.solve(puzzle(SUDOKU1));
    assert_eq!(solved.fmt(), SOLVED);
    assert_eq!(solved.render(false), SOLVED);
    assert_eq!(solved.render(true), BOTH);
    assert_eq!(solved.get_unsolved().fmt(), UNSOLVED);
}

#[test]
fn an_empty_grid_is_all_placeholders() {
    let text = Sudoku::new().fmt();
    assert_eq!(text.len(), 131);
    let lines: Vec<&str> = text.split('\n').collect();
    assert_eq!(lines.len(), 11);
    assert_eq!(lines[0], "xxx|xxx|xxx");
    assert_eq!(lines[7], "-----------");
}
