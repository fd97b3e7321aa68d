//! The energy of a grid: how far its rows, columns and parcels are from
//! holding nine different values each.

use vstd::prelude::*;
use crate::cells::{
    cell, column_values, empty_fields, is_grid, lemma_empty_fields, lemma_parcel_field,
    parcel_field, parcel_values, same_outside,
};
use crate::common::{lemma_distinct_count, unique};
use crate::field::Field;
use crate::rules::{all_filled, done, holds_each_digit_once, lemma_nine_digits, solved};
use crate::sudoku::Sudoku;

verus! {

/// The three kinds of units that the energy runs over.
#[derive(Debug, Clone, Copy, PartialEq, Eq, Structural)]
pub enum EnergyDimension {
    Row,
    Column,
    Parcel,
}

/// The nine values of a unit: of a row, a column or a parcel.
pub open spec fn unit_values(cells: Seq<Seq<u8>>, dim: EnergyDimension, index: int) -> Seq<u8> {
    match dim {
        EnergyDimension::Row => cells[index],
        EnergyDimension::Column => column_values(cells, index),
        EnergyDimension::Parcel => parcel_values(cells, index),
    }
}

/// The number of different values in a unit; an empty cell counts as a value
/// of its own.
pub open spec fn unique_elements(cells: Seq<Seq<u8>>, dim: EnergyDimension, index: int) -> nat {
    unit_values(cells, dim, index).to_set().len()
}

/// The numbers of different values in the first `count` units of a kind,
/// added up.
pub open spec fn unique_sum(cells: Seq<Seq<u8>>, dim: EnergyDimension, count: nat) -> nat
    decreases count,
{
    if count == 0 {
        0
    } else {
        unique_sum(cells, dim, (count - 1) as nat) + unique_elements(cells, dim, count - 1)
    }
}

/// The highest energy: 27 units that could hold 9 different values each.
pub open spec fn energy_max() -> int {
    243
}

/// The energy of a grid: the highest energy less the number of different
/// values of every column, every row and every parcel.
pub open spec fn energy(cells: Seq<Seq<u8>>) -> int {
    energy_max() - (unique_sum(cells, EnergyDimension::Column, 9) + unique_sum(
        cells,
        EnergyDimension::Row,
        9,
    ) + unique_sum(cells, EnergyDimension::Parcel, 9))
}

/// A unit of a grid has nine values, so at most nine different ones.
pub proof fn lemma_unique_elements(cells: Seq<Seq<u8>>, dim: EnergyDimension, index: int)
    requires
        is_grid(cells),
        0 <= index < 9,
    ensures
        unit_values(cells, dim, index).len() == 9,
        unique_elements(cells, dim, index) <= 9,
        unique_elements(cells, dim, index) == 9 <==> unit_values(cells, dim, index).no_duplicates(),
{
    lemma_distinct_count(unit_values(cells, dim, index));
}

/// The first `count` units of a kind have at most nine different values
/// each.
pub proof fn lemma_unique_sum(cells: Seq<Seq<u8>>, dim: EnergyDimension, count: nat)
    requires
        is_grid(cells),
        count <= 9,
    ensures
        unique_sum(cells, dim, count) <= 9 * count,
    decreases count,
{
    if count > 0 {
        lemma_unique_sum(cells, dim, (count - 1) as nat);
        lemma_unique_elements(cells, dim, count - 1);
    }
}

/// Where the first `count` units of a kind have nine different values on
/// average, each of them has nine.
pub proof fn lemma_full_sum(cells: Seq<Seq<u8>>, dim: EnergyDimension, count: nat)
    requires
        is_grid(cells),
        count <= 9,
        unique_sum(cells, dim, count) == 9 * count,
    ensures
        forall|i: int| 0 <= i < count ==> unique_elements(cells, dim, i) == 9,
    decreases count,
{
    if count > 0 {
        lemma_unique_sum(cells, dim, (count - 1) as nat);
        lemma_unique_elements(cells, dim, count - 1);
        lemma_full_sum(cells, dim, (count - 1) as nat);
    }
}

/// In a grid without energy no row, no column and no parcel holds a value
/// twice.
pub proof fn lemma_no_energy(cells: Seq<Seq<u8>>)
    requires
        is_grid(cells),
        energy(cells) == 0,
    ensures
        forall|i: int|
            0 <= i < 9 ==> (#[trigger] cells[i]).no_duplicates() && column_values(
                cells,
                i,
            ).no_duplicates() && parcel_values(cells, i).no_duplicates(),
{
    lemma_unique_sum(cells, EnergyDimension::Column, 9);
    lemma_unique_sum(cells, EnergyDimension::Row, 9);
    lemma_unique_sum(cells, EnergyDimension::Parcel, 9);
    lemma_full_sum(cells, EnergyDimension::Column, 9);
    lemma_full_sum(cells, EnergyDimension::Row, 9);
    lemma_full_sum(cells, EnergyDimension::Parcel, 9);
    assert forall|i: int| 0 <= i < 9 implies (#[trigger] cells[i]).no_duplicates() && column_values(
        cells,
        i,
    ).no_duplicates() && parcel_values(cells, i).no_duplicates() by {
        lemma_unique_elements(cells, EnergyDimension::Column, i);
        lemma_unique_elements(cells, EnergyDimension::Row, i);
        lemma_unique_elements(cells, EnergyDimension::Parcel, i);
        assert(unit_values(cells, EnergyDimension::Row, i) == cells[i]);
        assert(unit_values(cells, EnergyDimension::Column, i) == column_values(cells, i));
        assert(unit_values(cells, EnergyDimension::Parcel, i) == parcel_values(cells, i));
    }
}

/// A grid without energy and without an empty cell is solved. So is every
/// grid without energy that a puzzle as it is made or read has become by
/// filling all its mutable fields.
pub proof fn lemma_no_energy_is_solved(start: Seq<Seq<u8>>, cells: Seq<Seq<u8>>)
    requires
        is_grid(start),
        is_grid(cells),
        same_outside(cells, start, empty_fields(start)),
        all_filled(cells, empty_fields(start)),
        energy(cells) == 0,
    ensures
        solved(cells),
{
    let mutable = empty_fields(start);
    lemma_empty_fields(start);
    lemma_no_energy(cells);
    assert forall|f: Field| f.in_grid() implies #[trigger] cell(cells, f) != 0 by {
        if mutable.contains(f) {
            let j = choose|j: int| 0 <= j < mutable.len() && mutable[j] == f;
            assert(cell(cells, mutable[j]) != 0);
        } else {
            assert(cell(start, f) != 0);
            assert(cells[f.row as int][f.column as int] == start[f.row as int][f.column as int]);
        }
    }
    assert forall|u: int| 0 <= u < 9 implies holds_each_digit_once(#[trigger] cells[u])
        && holds_each_digit_once(column_values(cells, u)) && holds_each_digit_once(
        parcel_values(cells, u),
    ) by {
        let row = cells[u];
        assert forall|i: int| 0 <= i < 9 implies 1 <= #[trigger] row[i] <= 9 by {
            assert(cell(cells, Field { row: u as u8, column: i as u8 }) != 0);
        }
        lemma_nine_digits(row);
        let column = column_values(cells, u);
        assert forall|i: int| 0 <= i < 9 implies 1 <= #[trigger] column[i] <= 9 by {
            assert(cell(cells, Field { row: i as u8, column: u as u8 }) != 0);
            assert(cells[i][u] <= 9);
        }
        lemma_nine_digits(column);
        let parcel = parcel_values(cells, u);
        assert forall|i: int| 0 <= i < 9 implies 1 <= #[trigger] parcel[i] <= 9 by {
            lemma_parcel_field(u, i);
            assert(cell(cells, parcel_field(u, i / 3, i % 3)) != 0);
        }
        lemma_nine_digits(parcel);
    }
}

impl Sudoku {
    /// Counts the different values in a row, a column or a parcel.
    pub fn count_unique_elements(&self, dim: &EnergyDimension, index: u8) -> (count: u8)
        requires
            self.wf(),
            index < 9,
        ensures
            count == unique_elements(self.grid@, *dim, index as int),
            count <= 9,
    {
        let values: Vec<u8> = match dim {
            EnergyDimension::Column => self.grid.get_col(index),
            EnergyDimension::Row => self.grid.get_row(index),
            EnergyDimension::Parcel => self.get_parcel_values(index),
        };
        proof {
            lemma_distinct_count(values@);
            lemma_unique_elements(self.grid@, *dim, index as int);
        }
        let firsts = unique(values);
        firsts.len() as u8
    }

    /// Adds up the different values of the nine units of a kind.
    fn sum_unique_elements(&self, dim: &EnergyDimension) -> (sum: u32)
        requires
            self.wf(),
        ensures
            sum == unique_sum(self.grid@, *dim, 9),
            sum <= 81,
    {
        let mut sum: u32 = 0;
        let mut index: u8 = 0;
        while index < 9
            invariant
                index <= 9,
                self.wf(),
                sum == unique_sum(self.grid@, *dim, index as nat),
                sum <= 9 * index,
            decreases 9 - index,
        {
            sum += self.count_unique_elements(dim, index) as u32;
            index += 1;
        }
        sum
    }

    /// Computes the energy of the grid.
    pub fn calc_energy(&self) -> (value: u32)
        requires
            self.wf(),
        ensures
            value == energy(self.grid@),
    {
        let mut value: u32 = 243;
        value -= self.sum_unique_elements(&EnergyDimension::Column);
        value -= self.sum_unique_elements(&EnergyDimension::Row);
        value -= self.sum_unique_elements(&EnergyDimension::Parcel);
        value
    }

    /// Tests whether the puzzle is done and its energy is zero. Where the
    /// caller knows the energy, it hands it in and none is computed.
    pub fn is_done_with_energy(&self, known: Option<u32>) -> (is_done: bool)
        requires
            self.wf(),
        ensures
            is_done == (done(self.grid@, self.grid.mutable()) && (match known {
                Some(value) => value as int,
                None => energy(self.grid@),
            }) == 0),
    {
        if !self.is_done() {
            return false;
        }
        let value: u32 = match known {
            Some(value) => value,
            None => self.calc_energy(),
        };
        value == 0
    }
}

} // verus!
