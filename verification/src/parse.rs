//! The text format of puzzles.
//!
//! A puzzle is written as lines of text, parted by line breaks. A line that
//! holds a `#` is a comment and a line that holds a `-` is decoration; both
//! are skipped. In every other line each `|` is dropped, and what is left
//! must be nine cells: a digit, or `x` for an empty cell. There must be nine
//! such lines. An empty line is a line like any other: it writes no cells and
//! so no row, and a text that ends with a line break ends with an empty line.

use vstd::prelude::*;
use crate::common::holds;
use crate::error::SudokuError;

verus! {

/// The byte that breaks a line.
pub const LINE_BREAK: u8 = 10;

/// The byte `#`, which marks a comment.
pub const COMMENT_MARK: u8 = 35;

/// The byte `-`, which marks a line of decoration.
pub const DASH: u8 = 45;

/// The byte `|`, which may stand between the cells of a row.
pub const BAR: u8 = 124;

/// The byte `x`, which writes an empty cell.
pub const EMPTY_CELL: u8 = 120;

/// The byte `0`, the first of the ten digits.
pub const DIGIT_ZERO: u8 = 48;

/// The byte `9`, the last of the ten digits.
pub const DIGIT_NINE: u8 = 57;

/// The text split at its line breaks. Reading from the left, a line break
/// opens a new, empty line and any other byte goes to the end of the last
/// line; so a text with `n` line breaks has `n + 1` lines.
pub open spec fn split_lines(text: Seq<u8>) -> Seq<Seq<u8>>
    decreases text.len(),
{
    if text.len() == 0 {
        seq![Seq::empty()]
    } else {
        let before = split_lines(text.drop_last());
        if text.last() == LINE_BREAK {
            before.push(Seq::empty())
        } else {
            before.drop_last().push(before.last().push(text.last()))
        }
    }
}

/// A line that is neither a comment (with a `#`) nor decoration (with a `-`).
pub open spec fn is_data_line(line: Seq<u8>) -> bool {
    !line.contains(COMMENT_MARK) && !line.contains(DASH)
}

/// The data lines among some lines, in their order.
pub open spec fn data_lines(lines: Seq<Seq<u8>>) -> Seq<Seq<u8>>
    decreases lines.len(),
{
    if lines.len() == 0 {
        lines
    } else if is_data_line(lines.last()) {
        data_lines(lines.drop_last()).push(lines.last())
    } else {
        data_lines(lines.drop_last())
    }
}

/// A byte that writes a cell: `x` or a decimal digit.
pub open spec fn is_cell_byte(byte: u8) -> bool {
    byte == EMPTY_CELL || DIGIT_ZERO <= byte <= DIGIT_NINE
}

/// The digit that a cell byte stands for; `x` stands for 0.
pub open spec fn cell_value(byte: u8) -> u8 {
    if byte == EMPTY_CELL {
        0
    } else {
        (byte - DIGIT_ZERO) as u8
    }
}

/// The cells that a data line writes: every `|` is dropped and each other
/// byte gives one cell. `None` if one of them writes no cell.
pub open spec fn row_of_line(line: Seq<u8>) -> Option<Seq<u8>>
    decreases line.len(),
{
    if line.len() == 0 {
        Some(Seq::empty())
    } else {
        match row_of_line(line.drop_last()) {
            None => None,
            Some(cells) => if line.last() == BAR {
                Some(cells)
            } else if is_cell_byte(line.last()) {
                Some(cells.push(cell_value(line.last())))
            } else {
                None
            },
        }
    }
}

/// Whether a line writes a row of the grid: nine cells.
pub open spec fn is_row_line(line: Seq<u8>) -> bool {
    row_of_line(line) matches Some(cells) && cells.len() == 9
}

/// The cells that a text writes: it must have nine data lines, each a row of
/// nine cells. `None` for any other text.
pub open spec fn parse_puzzle(text: Seq<u8>) -> Option<Seq<Seq<u8>>> {
    let lines = data_lines(split_lines(text));
    if lines.len() == 9 && (forall|r: int| 0 <= r < 9 ==> is_row_line(#[trigger] lines[r])) {
        Some(Seq::new(9, |r: int| row_of_line(lines[r])->0))
    } else {
        None
    }
}

/// Every data line of some lines is among their data lines.
pub proof fn lemma_data_lines_hold(lines: Seq<Seq<u8>>, k: int)
    requires
        0 <= k < lines.len(),
        is_data_line(lines[k]),
    ensures
        data_lines(lines).contains(lines[k]),
    decreases lines.len(),
{
    let all = data_lines(lines);
    if k == lines.len() - 1 {
        assert(all[all.len() - 1] == lines[k]);
    } else {
        let before = data_lines(lines.drop_last());
        lemma_data_lines_hold(lines.drop_last(), k);
        let j = choose|j: int| 0 <= j < before.len() && before[j] == lines.drop_last()[k];
        assert(all[j] == lines[k]);
    }
}

/// The cells of a row are digits up to 9.
pub proof fn lemma_row_digits(line: Seq<u8>)
    requires
        row_of_line(line) is Some,
    ensures
        forall|c: int| 0 <= c < row_of_line(line)->0.len() ==> #[trigger] row_of_line(line)->0[c] <= 9,
    decreases line.len(),
{
    if line.len() > 0 {
        lemma_row_digits(line.drop_last());
    }
}

/// Splits a text at its line breaks.
pub fn lines_of(text: &[u8]) -> (lines: Vec<Vec<u8>>)
    ensures
        lines.deep_view() == split_lines(text@),
{
    let mut lines: Vec<Vec<u8>> = Vec::new();
    let mut current: Vec<u8> = Vec::new();
    let mut i: usize = 0;
    assert(text@.take(0) =~= Seq::empty());
    assert(lines.deep_view().push(current@) =~~= split_lines(text@.take(0)));
    while i < text.len()
        invariant
            i <= text.len(),
            lines.deep_view().push(current@) == split_lines(text@.take(i as int)),
        decreases text.len() - i,
    {
        let ghost before = split_lines(text@.take(i as int));
        let ghost closed = lines.deep_view();
        assert(text@.take(i + 1).drop_last() =~= text@.take(i as int));
        assert(before.drop_last() =~= closed);
        let byte: u8 = text[i];
        if byte == LINE_BREAK {
            lines.push(current);
            current = Vec::new();
            assert(lines.deep_view() =~~= before);
        } else {
            current.push(byte);
        }
        assert(lines.deep_view().push(current@) =~~= split_lines(text@.take(i + 1)));
        i += 1;
    }
    assert(text@.take(i as int) =~= text@);
    let ghost closed = lines.deep_view();
    lines.push(current);
    assert(lines.deep_view() =~~= closed.push(current@));
    lines
}

/// Reads the cells of a data line; `None` if a byte of it writes no cell.
pub fn parse_line(line: &Vec<u8>) -> (row: Option<Vec<u8>>)
    ensures
        match row {
            Some(cells) => row_of_line(line@) == Some(cells@),
            None => row_of_line(line@) is None,
        },
{
    let mut cells: Vec<u8> = Vec::new();
    let mut i: usize = 0;
    assert(line@.take(0) =~= Seq::empty());
    while i < line.len()
        invariant
            i <= line.len(),
            row_of_line(line@.take(i as int)) == Some(cells@),
        decreases line.len() - i,
    {
        assert(line@.take(i + 1).drop_last() =~= line@.take(i as int));
        let byte: u8 = line[i];
        if byte == BAR {
        } else if byte == EMPTY_CELL {
            cells.push(0);
        } else if DIGIT_ZERO <= byte && byte <= DIGIT_NINE {
            cells.push(byte - DIGIT_ZERO);
        } else {
            proof {
                lemma_row_prefix(line@, i + 1);
            }
            return None;
        }
        i += 1;
    }
    assert(line@.take(i as int) =~= line@);
    Some(cells)
}

/// A line with a prefix that writes no row writes none.
pub proof fn lemma_row_prefix(line: Seq<u8>, n: int)
    requires
        0 <= n <= line.len(),
        row_of_line(line.take(n)) is None,
    ensures
        row_of_line(line) is None,
    decreases line.len(),
{
    if n < line.len() {
        assert(line.drop_last().take(n) =~= line.take(n));
        lemma_row_prefix(line.drop_last(), n);
    } else {
        assert(line.take(n) =~= line);
    }
}

/// Reads the nine rows of a puzzle from its text, or fails with
/// `MalformedInput` where the text does not write nine rows of nine cells.
pub fn parse(text: &[u8]) -> (rows: Result<Vec<Vec<u8>>, SudokuError>)
    ensures
        match rows {
            Ok(cells) => parse_puzzle(text@) == Some(cells.deep_view()),
            Err(e) => e == SudokuError::MalformedInput && parse_puzzle(text@) is None,
        },
{
    let lines = lines_of(text);
    let ghost all = split_lines(text@);
    let mut rows: Vec<Vec<u8>> = Vec::new();
    let mut k: usize = 0;
    assert(all.take(0) =~= Seq::empty());
    while k < lines.len()
        invariant
            k <= lines.len(),
            lines.deep_view() == all,
            all == split_lines(text@),
            rows.len() == data_lines(all.take(k as int)).len(),
            forall|r: int|
                0 <= r < rows.len() ==> is_row_line(#[trigger] data_lines(all.take(k as int))[r])
                    && row_of_line(data_lines(all.take(k as int))[r]) == Some(rows[r]@),
        decreases lines.len() - k,
    {
        let ghost before = data_lines(all.take(k as int));
        assert(all.take(k + 1).drop_last() =~= all.take(k as int));
        assert(all.take(k + 1).last() == all[k as int]);
        assert(lines[k as int]@ =~= all[k as int]);
        if !holds(&lines[k], COMMENT_MARK) && !holds(&lines[k], DASH) {
            let row = parse_line(&lines[k]);
            let bad: bool = match &row {
                Some(cells) => cells.len() != 9,
                None => true,
            };
            if bad {
                proof {
                    assert(all.take(all.len() as int) =~= all);
                    lemma_data_lines_hold(all, k as int);
                }
                return Err(SudokuError::MalformedInput);
            }
            match row {
                Some(cells) => {
                    rows.push(cells);
                },
                None => {},
            }
            assert forall|r: int| 0 <= r < rows.len() implies is_row_line(
                #[trigger] data_lines(all.take(k + 1))[r],
            ) && row_of_line(data_lines(all.take(k + 1))[r]) == Some(rows[r]@) by {
                if r < before.len() {
                    assert(data_lines(all.take(k + 1))[r] == before[r]);
                }
            }
        }
        k += 1;
    }
    assert(all.take(k as int) =~= all);
    if rows.len() != 9 {
        return Err(SudokuError::MalformedInput);
    }
    assert(rows.deep_view() =~~= parse_puzzle(text@)->0) by {
        assert forall|r: int| 0 <= r < 9 implies #[trigger] rows.deep_view()[r] == row_of_line(
            data_lines(all)[r],
        )->0 by {
            assert(is_row_line(data_lines(all)[r]));
            assert(rows.deep_view()[r] =~= rows[r]@);
        }
    }
    Ok(rows)
}

} // verus!
