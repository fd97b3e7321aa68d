//! The 9×9 grid of cells and the list of its mutable fields.

use vstd::prelude::*;
use vstd::string::*;
use crate::cells::{
    cell, cleared, column_values, empty_fields, empty_fields_before, field_at, fields_in_parcel,
    is_grid, lemma_empty_fields, ordered, parcel_field, parcel_fields, parcel_rows, swapped,
    with_cell,
};
use crate::error::SudokuError;
use crate::field::Field;
use crate::text::{grid_lines, grid_text, join, line_views, row_string, separator};

verus! {

/// A 9×9 grid of digits, 0 for an empty cell, together with its mutable
/// fields: the fields that were empty when the grid was made. They are the
/// only ones that a solver changes and that `reset` empties again.
#[derive(Debug)]
pub struct Grid {
    fields: Vec<Vec<u8>>,
    pub mutable_fields: Vec<Field>,
}

impl View for Grid {
    type V = Seq<Seq<u8>>;

    /// The cells, row by row.
    closed spec fn view(&self) -> Seq<Seq<u8>> {
        self.fields.deep_view()
    }
}

/// Tests whether the rows are nine rows of nine digits up to 9.
fn is_grid_shaped(fields: &Vec<Vec<u8>>) -> (ok: bool)
    ensures
        ok == is_grid(fields.deep_view()),
{
    if fields.len() != 9 {
        return false;
    }
    let mut r: usize = 0;
    while r < 9
        invariant
            r <= 9,
            fields.len() == 9,
            forall|i: int| 0 <= i < r ==> (#[trigger] fields.deep_view()[i]).len() == 9,
            forall|i: int, j: int|
                0 <= i < r && 0 <= j < 9 ==> #[trigger] fields.deep_view()[i][j] <= 9,
        decreases 9 - r,
    {
        if fields[r].len() != 9 {
            assert(fields.deep_view()[r as int].len() != 9);
            return false;
        }
        let mut c: usize = 0;
        while c < 9
            invariant
                c <= 9,
                r < 9,
                fields.len() == 9,
                fields[r as int].len() == 9,
                forall|j: int| 0 <= j < c ==> #[trigger] fields.deep_view()[r as int][j] <= 9,
            decreases 9 - c,
        {
            if fields[r][c] > 9 {
                assert(fields.deep_view()[r as int][c as int] > 9);
                return false;
            }
            c += 1;
        }
        r += 1;
    }
    true
}

impl Grid {
    /// The grid is 9×9, holds digits up to 9, and its mutable fields are
    /// fields of the grid in strictly ascending row-major order.
    pub open spec fn wf(&self) -> bool {
        &&& is_grid(self@)
        &&& ordered(self.mutable())
    }

    /// The mutable fields, as a sequence.
    pub closed spec fn mutable(&self) -> Seq<Field> {
        self.mutable_fields@
    }

    /// Whether a field is one of the grid's mutable fields.
    pub open spec fn is_mutable(&self, field: Field) -> bool {
        self.mutable().contains(field)
    }

    /// The mutable fields, in row-major order.
    pub fn mutable_fields(&self) -> (fields: &Vec<Field>)
        ensures
            fields@ == self.mutable(),
    {
        &self.mutable_fields
    }

    /// Each stored row is the row of the view.
    proof fn lemma_rows(&self)
        requires
            is_grid(self@),
        ensures
            self.fields@.len() == 9,
            forall|r: int| 0 <= r < 9 ==> (#[trigger] self.fields@[r])@ == self@[r],
            forall|r: int| 0 <= r < 9 ==> (#[trigger] self.fields@[r])@.len() == 9,
    {
        assert forall|r: int| 0 <= r < 9 implies (#[trigger] self.fields@[r])@ == self@[r] by {
            assert(self.fields@[r]@ =~= self@[r]);
        }
    }

    /// Makes a grid from nine rows of nine digits. Its mutable fields are the
    /// fields that hold 0, in row-major order.
    ///
    /// Anything else than nine rows of nine digits up to 9 is refused.
    pub fn new(fields: Vec<Vec<u8>>) -> (made: Result<Grid, SudokuError>)
        ensures
            match made {
                Ok(grid) => {
                    &&& is_grid(fields.deep_view())
                    &&& grid@ == fields.deep_view()
                    &&& grid.mutable() == empty_fields(grid@)
                    &&& grid.wf()
                },
                Err(e) => e == SudokuError::InvalidDimensions && !is_grid(fields.deep_view()),
            },
    {
        if !is_grid_shaped(&fields) {
            return Err(SudokuError::InvalidDimensions);
        }
        let mut grid = Grid { fields, mutable_fields: Vec::new() };
        let mutable_fields = grid.get_mutable_fields();
        grid.mutable_fields = mutable_fields;
        proof {
            lemma_empty_fields(grid@);
        }
        Ok(grid)
    }

    /// Lists the fields that hold 0, in row-major order.
    fn get_mutable_fields(&self) -> (found: Vec<Field>)
        requires
            is_grid(self@),
        ensures
            found@ == empty_fields(self@),
    {
        let mut found: Vec<Field> = Vec::new();
        let mut r: u8 = 0;
        while r < 9
            invariant
                r <= 9,
                is_grid(self@),
                found@ == empty_fields_before(self@, (r * 9) as nat),
            decreases 9 - r,
        {
            let mut c: u8 = 0;
            while c < 9
                invariant
                    r < 9,
                    c <= 9,
                    is_grid(self@),
                    found@ == empty_fields_before(self@, (r * 9 + c) as nat),
                decreases 9 - c,
            {
                assert(field_at(r * 9 + c) == (Field { row: r, column: c }));
                proof {
                    self.lemma_rows();
                }
                if self.fields[r as usize][c as usize] == 0 {
                    found.push(Field::new(r, c));
                }
                c += 1;
            }
            r += 1;
        }
        found
    }

    /// The number of the parcel that holds a field of the grid.
    pub fn get_parcel_index(field: &Field) -> (parcel: u8)
        requires
            field.in_grid(),
        ensures
            parcel == field.parcel(),
            parcel < 9,
    {
        let x: u8 = field.row / 3;
        let y: u8 = field.column / 3;
        x * 3 + y
    }

    /// The nine fields of a parcel, row by row.
    pub fn get_parcel_fields(parcel_index: u8) -> (fields: Vec<Field>)
        requires
            parcel_index < 9,
        ensures
            fields@ == parcel_fields(parcel_index as int),
    {
        let col_start: u8 = (parcel_index % 3) * 3;
        let row_start: u8 = (parcel_index / 3) * 3;
        let mut fields: Vec<Field> = Vec::new();
        let mut r: u8 = 0;
        while r < 3
            invariant
                r <= 3,
                parcel_index < 9,
                col_start == (parcel_index % 3) * 3,
                row_start == (parcel_index / 3) * 3,
                fields@ == parcel_fields(parcel_index as int).take(r * 3),
            decreases 3 - r,
        {
            let mut c: u8 = 0;
            while c < 3
                invariant
                    r < 3,
                    c <= 3,
                    parcel_index < 9,
                    col_start == (parcel_index % 3) * 3,
                    row_start == (parcel_index / 3) * 3,
                    fields@ == parcel_fields(parcel_index as int).take(r * 3 + c),
                decreases 3 - c,
            {
                fields.push(Field::new(row_start + r, col_start + c));
                assert(fields@ =~= parcel_fields(parcel_index as int).take(r * 3 + c + 1));
                c += 1;
            }
            r += 1;
        }
        assert(fields@ =~= parcel_fields(parcel_index as int));
        fields
    }

    /// The digit in a field, or `OutOfBounds` for a field outside the grid.
    pub fn get(&self, field: &Field) -> (value: Result<u8, SudokuError>)
        requires
            self.wf(),
        ensures
            match value {
                Ok(v) => field.in_grid() && v == cell(self@, *field) && v <= 9,
                Err(e) => e == SudokuError::OutOfBounds && !field.in_grid(),
            },
    {
        if field.row >= 9 || field.column >= 9 {
            return Err(SudokuError::OutOfBounds);
        }
        proof {
            self.lemma_rows();
        }
        Ok(self.fields[field.row as usize][field.column as usize])
    }

    /// Writes a digit into a field, or fails with `OutOfBounds` for a field
    /// outside the grid and leaves the grid as it was.
    pub fn set(&mut self, field: &Field, value: u8) -> (done: Result<(), SudokuError>)
        requires
            old(self).wf(),
            value <= 9,
        ensures
            match done {
                Ok(_) => field.in_grid() && final(self)@ == with_cell(old(self)@, *field, value),
                Err(e) => e == SudokuError::OutOfBounds && !field.in_grid() && final(self)@ == old(
                    self,
                )@,
            },
            final(self).mutable() == old(self).mutable(),
            final(self).wf(),
    {
        if field.row >= 9 || field.column >= 9 {
            return Err(SudokuError::OutOfBounds);
        }
        proof {
            self.lemma_rows();
        }
        self.fields[field.row as usize][field.column as usize] = value;
        assert(self@ =~~= with_cell(old(self)@, *field, value));
        Ok(())
    }

    /// Exchanges the digits of two fields, or fails with `OutOfBounds` where
    /// one of them lies outside the grid and leaves the grid as it was.
    pub fn swap(&mut self, first: &Field, second: &Field) -> (done: Result<(), SudokuError>)
        requires
            old(self).wf(),
        ensures
            match done {
                Ok(_) => first.in_grid() && second.in_grid() && final(self)@ == swapped(
                    old(self)@,
                    *first,
                    *second,
                ),
                Err(e) => e == SudokuError::OutOfBounds && !(first.in_grid() && second.in_grid())
                    && final(self)@ == old(self)@,
            },
            final(self).mutable() == old(self).mutable(),
            final(self).wf(),
    {
        let first_value: u8 = match self.get(first) {
            Ok(value) => value,
            Err(e) => {
                return Err(e);
            },
        };
        let second_value: u8 = match self.get(second) {
            Ok(value) => value,
            Err(e) => {
                return Err(e);
            },
        };
        let _ = self.set(first, second_value);
        let _ = self.set(second, first_value);
        Ok(())
    }

    /// The nine digits of a row, from the left.
    pub fn get_row(&self, row_index: u8) -> (row: Vec<u8>)
        requires
            self.wf(),
            row_index < 9,
        ensures
            row@ == self@[row_index as int],
    {
        proof {
            self.lemma_rows();
        }
        self.fields[row_index as usize].clone()
    }

    /// The nine digits of a column, from the top.
    pub fn get_col(&self, col_index: u8) -> (column: Vec<u8>)
        requires
            self.wf(),
            col_index < 9,
        ensures
            column@ == column_values(self@, col_index as int),
    {
        let mut column: Vec<u8> = Vec::new();
        let mut r: usize = 0;
        while r < 9
            invariant
                r <= 9,
                col_index < 9,
                self.wf(),
                column@ == column_values(self@, col_index as int).take(r as int),
            decreases 9 - r,
        {
            proof {
                self.lemma_rows();
            }
            column.push(self.fields[r][col_index as usize]);
            assert(column@ =~= column_values(self@, col_index as int).take(r + 1));
            r += 1;
        }
        assert(column@ =~= column_values(self@, col_index as int));
        column
    }

    /// A parcel as three rows of three digits.
    ///
    /// The block is filled column by column; what is returned are its rows.
    pub fn get_parcel(&self, index: u8) -> (parcel: Vec<Vec<u8>>)
        requires
            self.wf(),
            index < 9,
        ensures
            parcel.deep_view() == parcel_rows(self@, index as int),
    {
        let start_row: u8 = (index / 3) * 3;
        let start_col: u8 = (index % 3) * 3;
        let mut parcel: Vec<Vec<u8>> = Vec::new();
        let mut n: usize = 0;
        while n < 3
            invariant
                n <= 3,
                parcel.len() == n,
                forall|i: int| 0 <= i < n ==> (#[trigger] parcel[i]).len() == 3,
            decreases 3 - n,
        {
            parcel.push(vec![0u8, 0u8, 0u8]);
            n += 1;
        }
        let mut ci: u8 = 0;
        while ci < 3
            invariant
                ci <= 3,
                index < 9,
                self.wf(),
                start_row == (index / 3) * 3,
                start_col == (index % 3) * 3,
                parcel.len() == 3,
                forall|i: int| 0 <= i < 3 ==> (#[trigger] parcel[i]).len() == 3,
                forall|i: int, j: int|
                    0 <= i < 3 && 0 <= j < ci ==> #[trigger] parcel[i][j] == cell(
                        self@,
                        parcel_field(index as int, i, j),
                    ),
            decreases 3 - ci,
        {
            let mut ri: u8 = 0;
            while ri < 3
                invariant
                    ri <= 3,
                    ci < 3,
                    index < 9,
                    self.wf(),
                    start_row == (index / 3) * 3,
                    start_col == (index % 3) * 3,
                    parcel.len() == 3,
                    forall|i: int| 0 <= i < 3 ==> (#[trigger] parcel[i]).len() == 3,
                    forall|i: int, j: int|
                        0 <= i < 3 && 0 <= j < ci ==> #[trigger] parcel[i][j] == cell(
                            self@,
                            parcel_field(index as int, i, j),
                        ),
                    forall|i: int|
                        0 <= i < ri ==> #[trigger] parcel[i][ci as int] == cell(
                            self@,
                            parcel_field(index as int, i, ci as int),
                        ),
                decreases 3 - ri,
            {
                let row: u8 = start_row + ri;
                let col: u8 = start_col + ci;
                proof {
                    self.lemma_rows();
                }
                let value: u8 = self.fields[row as usize][col as usize];
                parcel[ri as usize][ci as usize] = value;
                ri += 1;
            }
            ci += 1;
        }
        assert(parcel.deep_view() =~~= parcel_rows(self@, index as int));
        parcel
    }

    /// Empties every mutable field again; all other cells stay.
    pub fn reset(&mut self)
        requires
            old(self).wf(),
        ensures
            final(self)@ == cleared(old(self)@, old(self).mutable()),
            final(self).mutable() == old(self).mutable(),
            final(self).wf(),
    {
        let count: usize = self.mutable_fields.len();
        let mut i: usize = 0;
        assert(self@ =~~= cleared(old(self)@, old(self).mutable().take(0)));
        while i < count
            invariant
                i <= count,
                count == old(self).mutable().len(),
                old(self).wf(),
                self.wf(),
                self.mutable() == old(self).mutable(),
                self@ == cleared(old(self)@, old(self).mutable().take(i as int)),
            decreases count - i,
        {
            let field: Field = self.mutable_fields[i];
            let ghost before = self@;
            let ghost done = old(self).mutable().take(i as int);
            let ghost next = old(self).mutable().take(i + 1);
            let _ = self.set(&field, 0);
            proof {
                assert(field.in_grid());
                assert forall|f: Field| next.contains(f) <==> done.contains(f) || f == field by {
                    if done.contains(f) {
                        let k = choose|k: int| 0 <= k < done.len() && done[k] == f;
                        assert(next[k] == f);
                    }
                    if f == field {
                        assert(next[i as int] == f);
                    }
                    if next.contains(f) {
                        let k = choose|k: int| 0 <= k < next.len() && next[k] == f;
                        if k < i {
                            assert(done[k] == f);
                        }
                    }
                }
                assert(self@ =~~= cleared(old(self)@, next));
            }
            i += 1;
        }
        assert(old(self).mutable().take(i as int) =~= old(self).mutable());
    }

    /// The mutable fields that lie in a parcel, in row-major order.
    pub fn get_mutable_fields_of_parcel(&self, parcel_index: u8) -> (fields: Vec<Field>)
        requires
            self.wf(),
            parcel_index < 9,
        ensures
            fields@ == fields_in_parcel(self.mutable(), parcel_index as int),
    {
        let mut fields: Vec<Field> = Vec::new();
        let mut i: usize = 0;
        while i < self.mutable_fields.len()
            invariant
                i <= self.mutable().len(),
                self.wf(),
                parcel_index < 9,
                fields@ == fields_in_parcel(self.mutable().take(i as int), parcel_index as int),
            decreases self.mutable().len() - i,
        {
            assert(self.mutable().take(i + 1).drop_last() =~= self.mutable().take(i as int));
            let field: Field = self.mutable_fields[i];
            if Grid::get_parcel_index(&field) == parcel_index {
                fields.push(field);
            }
            i += 1;
        }
        assert(self.mutable().take(i as int) =~= self.mutable());
        fields
    }

    /// The grid as eleven lines of text: its rows, with `x` for an empty cell
    /// and a `|` between the parcels, and a line of dashes between the bands.
    pub fn lines(&self) -> (lines: Vec<String>)
        requires
            self.wf(),
        ensures
            line_views(lines@) == grid_lines(self@),
    {
        let mut lines: Vec<String> = Vec::new();
        let mut k: usize = 0;
        while k < 11
            invariant
                k <= 11,
                self.wf(),
                line_views(lines@) == grid_lines(self@).take(k as int),
            decreases 11 - k,
        {
            let ghost before = lines@;
            assert(before.len() == line_views(before).len());
            if k == 3 || k == 7 {
                proof {
                    reveal_strlit("-----------");
                }
                let dashes = String::from_str("-----------");
                assert(dashes@ =~= separator());
                lines.push(dashes);
            } else {
                proof {
                    self.lemma_rows();
                }
                lines.push(row_string(&self.fields[k - k / 4]));
            }
            assert forall|i: int| 0 <= i < k + 1 implies line_views(lines@)[i] == grid_lines(
                self@,
            ).take(k + 1)[i] by {
                if i < k {
                    assert(line_views(before)[i] == grid_lines(self@).take(k as int)[i]);
                } else if !(k == 3 || k == 7) {
                    assert(self.fields[k - k / 4]@ == self@[k - k / 4]);
                }
            }
            assert(line_views(lines@) =~= grid_lines(self@).take(k + 1));
            k += 1;
        }
        assert(grid_lines(self@).take(11) =~= grid_lines(self@));
        lines
    }

    /// The grid as text: its lines, joined by line breaks.
    pub fn fmt(&self) -> (out: String)
        requires
            self.wf(),
        ensures
            out@ == grid_text(self@),
    {
        let lines = self.lines();
        join(&lines)
    }
}

impl Clone for Grid {
    fn clone(&self) -> (copy: Grid)
        ensures
            copy@ == self@,
            copy.mutable() == self.mutable(),
    {
        let mut fields: Vec<Vec<u8>> = Vec::new();
        let mut r: usize = 0;
        while r < self.fields.len()
            invariant
                r <= self.fields.len(),
                fields.len() == r,
                forall|i: int| 0 <= i < r ==> (#[trigger] fields[i])@ == self.fields[i]@,
            decreases self.fields.len() - r,
        {
            fields.push(self.fields[r].clone());
            r += 1;
        }
        assert(fields.deep_view() =~~= self.fields.deep_view());
        Grid { fields, mutable_fields: self.mutable_fields.clone() }
    }
}

} // verus!
