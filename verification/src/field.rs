//! Coordinates of single cells.

use std::cmp::Ordering;
use vstd::prelude::*;
use vstd::string::*;
use crate::text::{decimal, push_decimal};

verus! {

/// The coordinate of one cell: its row and its column, counted from zero.
///
/// A field of the 9×9 grid has both below 9; the type itself holds any pair,
/// and the grid rejects those outside of it.
#[derive(Debug, Clone, Copy, PartialEq, Eq, Ord, Hash, Structural)]
pub struct Field {
    pub row: u8,
    pub column: u8,
}

impl Field {
    /// The field in a row and a column.
    pub fn new(row: u8, column: u8) -> (field: Field)
        ensures
            field == (Field { row, column }),
    {
        Field { row, column }
    }

    /// Whether the field lies inside the 9×9 grid.
    pub open spec fn in_grid(self) -> bool {
        self.row < 9 && self.column < 9
    }

    /// The position of the field when the grid is read row by row.
    pub open spec fn position(self) -> int {
        self.row * 9 + self.column
    }

    /// Row-major order on fields: by row first, then by column.
    pub open spec fn precedes(self, other: Field) -> bool {
        self.row < other.row || (self.row == other.row && self.column < other.column)
    }

    /// The number of the 3×3 parcel that holds the field; parcels are numbered
    /// row by row from the top left.
    pub open spec fn parcel(self) -> int {
        (self.row / 3) * 3 + self.column / 3
    }

    /// Whether two fields share a row, a column or a parcel.
    pub open spec fn sees(self, other: Field) -> bool {
        self.row == other.row || self.column == other.column || (self.row / 3 == other.row / 3
            && self.column / 3 == other.column / 3)
    }

    /// The text `(row,column)` with both numbers in decimal.
    pub open spec fn text(self) -> Seq<char> {
        seq!['('] + decimal(self.row as nat) + seq![','] + decimal(self.column as nat) + seq![')']
    }

    /// Renders the field as `(row,column)`.
    pub fn fmt(&self) -> (out: String)
        ensures
            out@ == self.text(),
    {
        proof {
            reveal_strlit("(");
            reveal_strlit(",");
            reveal_strlit(")");
        }
        let mut out = String::from_str("(");
        push_decimal(&mut out, self.row as u32);
        out.append(",");
        push_decimal(&mut out, self.column as u32);
        out.append(")");
        assert(out@ =~= self.text());
        out
    }
}

impl PartialOrd for Field {
    /// Compares by row first, then by column.
    fn partial_cmp(&self, other: &Field) -> (order: Option<Ordering>) {
        if self.row < other.row {
            Some(Ordering::Less)
        } else if self.row > other.row {
            Some(Ordering::Greater)
        } else if self.column < other.column {
            Some(Ordering::Less)
        } else if self.column > other.column {
            Some(Ordering::Greater)
        } else {
            Some(Ordering::Equal)
        }
    }
}

impl vstd::std_specs::cmp::PartialOrdSpecImpl for Field {
    open spec fn obeys_partial_cmp_spec() -> bool {
        true
    }

    /// Fields are ordered as they are met when the grid is read row by row.
    open spec fn partial_cmp_spec(&self, other: &Field) -> Option<Ordering> {
        if self.precedes(*other) {
            Some(Ordering::Less)
        } else if other.precedes(*self) {
            Some(Ordering::Greater)
        } else {
            Some(Ordering::Equal)
        }
    }
}

} // verus!
