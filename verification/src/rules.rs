//! The rules of the puzzle, stated over the model of a grid.

use vstd::prelude::*;
use crate::cells::{
    cell, column_values, empty_fields, is_grid, lemma_parcel_field, lemma_place_in_parcel,
    parcel_field, parcel_values, place_in_parcel, same_outside,
};
use crate::common::unique_digits;
use crate::field::Field;

verus! {

/// No digit occurs twice in a row.
pub open spec fn valid_row(cells: Seq<Seq<u8>>, row: int) -> bool {
    unique_digits(cells[row])
}

/// No digit occurs twice in a column.
pub open spec fn valid_column(cells: Seq<Seq<u8>>, column: int) -> bool {
    unique_digits(column_values(cells, column))
}

/// No digit occurs twice in a parcel.
pub open spec fn valid_parcel(cells: Seq<Seq<u8>>, parcel: int) -> bool {
    unique_digits(parcel_values(cells, parcel))
}

/// The row, the column and the parcel of a field are valid.
pub open spec fn valid_field(cells: Seq<Seq<u8>>, field: Field) -> bool {
    &&& valid_row(cells, field.row as int)
    &&& valid_column(cells, field.column as int)
    &&& valid_parcel(cells, field.parcel())
}

/// Every parcel is valid. This is the validity that the solvers test; rows
/// and columns are not looked at.
pub open spec fn valid_parcels(cells: Seq<Seq<u8>>) -> bool {
    forall|p: int| 0 <= p < 9 ==> valid_parcel(cells, p)
}

/// None of the listed fields is empty.
pub open spec fn all_filled(cells: Seq<Seq<u8>>, fields: Seq<Field>) -> bool {
    forall|i: int| 0 <= i < fields.len() ==> cell(cells, #[trigger] fields[i]) != 0
}

/// Every mutable field is filled and every parcel is valid.
pub open spec fn done(cells: Seq<Seq<u8>>, mutable: Seq<Field>) -> bool {
    all_filled(cells, mutable) && valid_parcels(cells)
}

/// A digit stands in the row, the column or the parcel of a field.
pub open spec fn seen(cells: Seq<Seq<u8>>, field: Field, digit: u8) -> bool {
    ||| cells[field.row as int].contains(digit)
    ||| column_values(cells, field.column as int).contains(digit)
    ||| parcel_values(cells, field.parcel()).contains(digit)
}

/// The digits from 1 to `top` that are not seen from a field, ascending.
pub open spec fn guesses_upto(cells: Seq<Seq<u8>>, field: Field, top: nat) -> Seq<u8>
    decreases top,
{
    if top == 0 {
        Seq::empty()
    } else if seen(cells, field, top as u8) {
        guesses_upto(cells, field, (top - 1) as nat)
    } else {
        guesses_upto(cells, field, (top - 1) as nat).push(top as u8)
    }
}

/// The legal guesses for a field: the digits from 1 to 9 that stand neither
/// in its row nor in its column nor in its parcel, ascending.
pub open spec fn guesses(cells: Seq<Seq<u8>>, field: Field) -> Seq<u8> {
    guesses_upto(cells, field, 9)
}

/// The first value of a sequence that is greater than `current`.
pub open spec fn first_above(values: Seq<u8>, current: u8) -> Option<u8>
    decreases values.len(),
{
    if values.len() == 0 {
        None
    } else if values[0] > current {
        Some(values[0])
    } else {
        first_above(values.skip(1), current)
    }
}

/// The next guess for a field that holds `current`: the smallest legal guess
/// above it, if there is one.
pub open spec fn next_guess(cells: Seq<Seq<u8>>, field: Field, current: u8) -> Option<u8> {
    first_above(guesses(cells, field), current)
}

/// The guesses up to `top` ascend strictly and are the unseen digits from 1
/// to `top`.
pub proof fn lemma_guesses_upto(cells: Seq<Seq<u8>>, field: Field, top: nat)
    requires
        top <= 9,
    ensures
        forall|i: int, j: int|
            0 <= i < j < guesses_upto(cells, field, top).len() ==> guesses_upto(cells, field, top)[i]
                < guesses_upto(cells, field, top)[j],
        forall|d: u8| #[trigger]
            guesses_upto(cells, field, top).contains(d) <==> 1 <= d <= top && !seen(cells, field, d),
    decreases top,
{
    let now = guesses_upto(cells, field, top);
    if top > 0 {
        let before = guesses_upto(cells, field, (top - 1) as nat);
        lemma_guesses_upto(cells, field, (top - 1) as nat);
        assert forall|d: u8| #[trigger] now.contains(d) <==> 1 <= d <= top && !seen(cells, field, d) by {
            if now.contains(d) {
                let k = choose|k: int| 0 <= k < now.len() && now[k] == d;
                if k < before.len() {
                    assert(before[k] == d);
                    assert(before.contains(d));
                }
            }
            if 1 <= d <= top && !seen(cells, field, d) {
                if d < top {
                    assert(before.contains(d));
                    let k = choose|k: int| 0 <= k < before.len() && before[k] == d;
                    assert(now[k] == d);
                } else {
                    assert(now[now.len() - 1] == d);
                }
            }
        }
        assert forall|i: int, j: int| 0 <= i < j < now.len() implies now[i] < now[j] by {
            if j < before.len() {
                assert(now[i] == before[i] && now[j] == before[j]);
            } else {
                assert(now[i] == before[i]);
                assert(before.contains(before[i]));
            }
        }
    }
}

/// The first value above `current` in an ascending sequence is its least
/// value above `current`; there is none exactly if no value is above.
pub proof fn lemma_first_above(values: Seq<u8>, current: u8)
    requires
        forall|i: int, j: int| 0 <= i < j < values.len() ==> values[i] < values[j],
    ensures
        match first_above(values, current) {
            Some(g) => {
                &&& values.contains(g)
                &&& g > current
                &&& forall|d: u8| values.contains(d) && d > current ==> g <= d
            },
            None => forall|d: u8| values.contains(d) ==> d <= current,
        },
    decreases values.len(),
{
    if values.len() > 0 {
        let rest = values.skip(1);
        if values[0] > current {
            assert(values.contains(values[0]));
            assert forall|d: u8| values.contains(d) && d > current implies values[0] <= d by {
                let k = choose|k: int| 0 <= k < values.len() && values[k] == d;
                if k > 0 {
                    assert(values[0] < values[k]);
                }
            }
        } else {
            assert forall|i: int, j: int| 0 <= i < j < rest.len() implies rest[i] < rest[j] by {
                assert(rest[i] == values[i + 1] && rest[j] == values[j + 1]);
            }
            lemma_first_above(rest, current);
            assert forall|d: u8| values.contains(d) implies rest.contains(d) || d == values[0] by {
                let k = choose|k: int| 0 <= k < values.len() && values[k] == d;
                if k > 0 {
                    assert(rest[k - 1] == d);
                }
            }
            match first_above(rest, current) {
                Some(g) => {
                    let k = choose|k: int| 0 <= k < rest.len() && rest[k] == g;
                    assert(values[k + 1] == g);
                },
                None => {},
            }
        }
    }
}

/// The next guess is the least unseen digit above the current one, and there
/// is none exactly if every digit above it is seen.
pub proof fn lemma_next_guess(cells: Seq<Seq<u8>>, field: Field, current: u8)
    ensures
        match next_guess(cells, field, current) {
            Some(g) => {
                &&& current < g
                &&& 1 <= g <= 9
                &&& !seen(cells, field, g)
                &&& forall|d: u8| current < d < g && 1 <= d ==> seen(cells, field, d)
            },
            None => forall|d: u8| current < d <= 9 && 1 <= d ==> seen(cells, field, d),
        },
{
    let values = guesses(cells, field);
    lemma_guesses_upto(cells, field, 9);
    lemma_first_above(values, current);
    match next_guess(cells, field, current) {
        Some(g) => {
            assert forall|d: u8| current < d < g && 1 <= d implies seen(cells, field, d) by {
                if !seen(cells, field, d) {
                    assert(values.contains(d));
                }
            }
        },
        None => {
            assert forall|d: u8| current < d <= 9 && 1 <= d implies seen(cells, field, d) by {
                if !seen(cells, field, d) {
                    assert(values.contains(d));
                }
            }
        },
    }
}

/// The digits from 1 to 9.
pub open spec fn digits() -> Set<u8> {
    Set::new(|d: u8| 1 <= d <= 9)
}

/// The values hold every digit from 1 to 9 exactly once: they are nine
/// values, none occurs twice, and each of the digits is among them.
pub open spec fn holds_each_digit_once(values: Seq<u8>) -> bool {
    &&& values.len() == 9
    &&& values.no_duplicates()
    &&& forall|d: u8| 1 <= d <= 9 ==> values.contains(d)
}

/// There are nine digits.
pub proof fn lemma_digits()
    ensures
        digits().finite(),
        digits().len() == 9,
{
    broadcast use vstd::seq_lib::seq_to_set_is_finite;

    let s = seq![1u8, 2u8, 3u8, 4u8, 5u8, 6u8, 7u8, 8u8, 9u8];
    assert(s.no_duplicates());
    s.unique_seq_to_set();
    assert forall|d: u8| 1 <= d <= 9 implies s.contains(d) by {
        assert(s[d - 1] == d);
    }
    assert(s.to_set() =~= digits());
}

/// Nine different digits above zero are all the digits from 1 to 9.
pub proof fn lemma_nine_digits(values: Seq<u8>)
    requires
        values.len() == 9,
        values.no_duplicates(),
        forall|i: int| 0 <= i < 9 ==> 1 <= #[trigger] values[i] <= 9,
    ensures
        holds_each_digit_once(values),
{
    broadcast use vstd::seq_lib::seq_to_set_is_finite;

    lemma_digits();
    values.unique_seq_to_set();
    assert(values.to_set().subset_of(digits())) by {
        assert forall|d: u8| values.to_set().contains(d) implies digits().contains(d) by {
            let i = choose|i: int| 0 <= i < values.len() && values[i] == d;
        }
    }
    vstd::set_lib::lemma_subset_equality(values.to_set(), digits());
    assert forall|d: u8| 1 <= d <= 9 implies values.contains(d) by {
        assert(digits().contains(d));
        assert(values.to_set().contains(d));
    }
}

/// Every row, every column and every parcel is valid.
pub open spec fn valid_units(cells: Seq<Seq<u8>>) -> bool {
    forall|i: int|
        0 <= i < 9 ==> valid_row(cells, i) && valid_column(cells, i) && valid_parcel(cells, i)
}

/// Every row, every column and every parcel holds each digit from 1 to 9
/// exactly once.
pub open spec fn solved(cells: Seq<Seq<u8>>) -> bool {
    &&& is_grid(cells)
    &&& forall|i: int|
        0 <= i < 9 ==> holds_each_digit_once(#[trigger] cells[i]) && holds_each_digit_once(
            column_values(cells, i),
        ) && holds_each_digit_once(parcel_values(cells, i))
}

/// No two fields that share a row, a column or a parcel hold the same digit
/// above zero.
pub open spec fn consistent(cells: Seq<Seq<u8>>) -> bool {
    forall|a: Field, b: Field|
        a.in_grid() && b.in_grid() && a != b && #[trigger] a.sees(b) && cell(cells, a) != 0 ==> cell(
            cells,
            a,
        ) != cell(cells, b)
}

/// A digit that is seen from a field stands in a field that shares a unit
/// with it.
pub proof fn lemma_seen_from(cells: Seq<Seq<u8>>, field: Field, digit: u8) -> (other: Field)
    requires
        is_grid(cells),
        field.in_grid(),
        seen(cells, field, digit),
    ensures
        other.in_grid(),
        other.sees(field),
        field.sees(other),
        cell(cells, other) == digit,
{
    lemma_place_in_parcel(field);
    if cells[field.row as int].contains(digit) {
        let c = choose|c: int| 0 <= c < cells[field.row as int].len() && cells[field.row as int][c]
            == digit;
        Field { row: field.row, column: c as u8 }
    } else if column_values(cells, field.column as int).contains(digit) {
        let values = column_values(cells, field.column as int);
        let r = choose|r: int| 0 <= r < values.len() && values[r] == digit;
        Field { row: r as u8, column: field.column }
    } else {
        let values = parcel_values(cells, field.parcel());
        let k = choose|k: int| 0 <= k < values.len() && values[k] == digit;
        lemma_parcel_field(field.parcel(), k);
        parcel_field(field.parcel(), k / 3, k % 3)
    }
}

/// From a field, the digit of every field that shares a unit with it is
/// seen.
pub proof fn lemma_sees_is_seen(cells: Seq<Seq<u8>>, field: Field, other: Field)
    requires
        is_grid(cells),
        field.in_grid(),
        other.in_grid(),
        field.sees(other),
    ensures
        seen(cells, field, cell(cells, other)),
{
    if field.row == other.row {
        assert(cells[field.row as int][other.column as int] == cell(cells, other));
    } else if field.column == other.column {
        assert(column_values(cells, field.column as int)[other.row as int] == cell(cells, other));
    } else {
        lemma_place_in_parcel(other);
        assert(other.parcel() == field.parcel());
        assert(parcel_values(cells, field.parcel())[place_in_parcel(other)] == cell(cells, other));
    }
}

/// A grid is consistent exactly if all its rows, columns and parcels are
/// valid.
pub proof fn lemma_consistent_units(cells: Seq<Seq<u8>>)
    requires
        is_grid(cells),
    ensures
        consistent(cells) <==> valid_units(cells),
{
    if valid_units(cells) {
        assert forall|a: Field, b: Field|
            a.in_grid() && b.in_grid() && a != b && #[trigger] a.sees(b) && cell(cells, a)
                != 0 implies cell(cells, a) != cell(cells, b) by {
            if a.row == b.row {
                let values = cells[a.row as int];
                assert(valid_row(cells, a.row as int));
                if a.column < b.column {
                    assert(values[a.column as int] != values[b.column as int]);
                } else if values[b.column as int] != 0 {
                    assert(values[b.column as int] != values[a.column as int]);
                }
            } else if a.column == b.column {
                let values = column_values(cells, a.column as int);
                assert(valid_column(cells, a.column as int));
                if a.row < b.row {
                    assert(values[a.row as int] != values[b.row as int]);
                } else if values[b.row as int] != 0 {
                    assert(values[b.row as int] != values[a.row as int]);
                }
            } else {
                lemma_place_in_parcel(a);
                lemma_place_in_parcel(b);
                let values = parcel_values(cells, a.parcel());
                let i = place_in_parcel(a);
                let j = place_in_parcel(b);
                assert(a.parcel() == b.parcel());
                assert(valid_parcel(cells, a.parcel()));
                assert(values[i] == cell(cells, a) && values[j] == cell(cells, b));
                if i < j {
                    assert(values[i] != values[j]);
                } else if values[j] != 0 {
                    assert(i != j);
                    assert(values[j] != values[i]);
                }
            }
        }
    }
    if consistent(cells) {
        assert forall|u: int| 0 <= u < 9 implies valid_row(cells, u) && valid_column(cells, u)
            && valid_parcel(cells, u) by {
            assert forall|i: int, j: int| 0 <= i < j < cells[u].len() && cells[u][i] != 0 implies cells[u][i]
                != cells[u][j] by {
                let a = Field { row: u as u8, column: i as u8 };
                let b = Field { row: u as u8, column: j as u8 };
                assert(a.sees(b));
            }
            let column = column_values(cells, u);
            assert forall|i: int, j: int| 0 <= i < j < column.len() && column[i] != 0 implies column[i]
                != column[j] by {
                let a = Field { row: i as u8, column: u as u8 };
                let b = Field { row: j as u8, column: u as u8 };
                assert(a.sees(b));
            }
            let parcel = parcel_values(cells, u);
            assert forall|i: int, j: int| 0 <= i < j < parcel.len() && parcel[i] != 0 implies parcel[i]
                != parcel[j] by {
                let a = parcel_field(u, i / 3, i % 3);
                let b = parcel_field(u, j / 3, j % 3);
                lemma_parcel_field(u, i);
                lemma_parcel_field(u, j);
                assert(a.sees(b));
            }
        }
    }
}

/// A consistent grid without an empty cell is solved.
pub proof fn lemma_full_is_solved(cells: Seq<Seq<u8>>)
    requires
        is_grid(cells),
        consistent(cells),
        forall|f: Field| f.in_grid() ==> #[trigger] cell(cells, f) != 0,
    ensures
        solved(cells),
{
    lemma_consistent_units(cells);
    assert forall|u: int| 0 <= u < 9 implies holds_each_digit_once(#[trigger] cells[u])
        && holds_each_digit_once(column_values(cells, u)) && holds_each_digit_once(
        parcel_values(cells, u),
    ) by {
        assert(valid_row(cells, u) && valid_column(cells, u) && valid_parcel(cells, u));
        let row = cells[u];
        assert forall|i: int| 0 <= i < 9 implies 1 <= #[trigger] row[i] <= 9 by {
            assert(cell(cells, Field { row: u as u8, column: i as u8 }) != 0);
        }
        lemma_filled_unique(row);
        lemma_nine_digits(row);
        let column = column_values(cells, u);
        assert forall|i: int| 0 <= i < 9 implies 1 <= #[trigger] column[i] <= 9 by {
            assert(cell(cells, Field { row: i as u8, column: u as u8 }) != 0);
            assert(cells[i][u] <= 9);
        }
        lemma_filled_unique(column);
        lemma_nine_digits(column);
        let parcel = parcel_values(cells, u);
        assert forall|i: int| 0 <= i < 9 implies 1 <= #[trigger] parcel[i] <= 9 by {
            lemma_parcel_field(u, i);
            assert(cell(cells, parcel_field(u, i / 3, i % 3)) != 0);
        }
        lemma_filled_unique(parcel);
        lemma_nine_digits(parcel);
    }
}

/// Values above zero that are valid hold nothing twice.
pub proof fn lemma_filled_unique(values: Seq<u8>)
    requires
        unique_digits(values),
        forall|i: int| 0 <= i < values.len() ==> #[trigger] values[i] != 0,
    ensures
        values.no_duplicates(),
{
    assert forall|i: int, j: int| 0 <= i < values.len() && 0 <= j < values.len() && i != j implies values[i]
        != values[j] by {
        if i < j {
            assert(values[i] != values[j]);
        } else {
            assert(values[j] != values[i]);
        }
    }
}

/// A solved grid is consistent.
pub proof fn lemma_solved_is_consistent(cells: Seq<Seq<u8>>)
    requires
        solved(cells),
    ensures
        consistent(cells),
        forall|f: Field| f.in_grid() ==> 1 <= #[trigger] cell(cells, f) <= 9,
{
    assert forall|u: int| 0 <= u < 9 implies valid_row(cells, u) && valid_column(cells, u)
        && valid_parcel(cells, u) by {
        assert(holds_each_digit_once(cells[u]));
    }
    lemma_consistent_units(cells);
    assert forall|f: Field| f.in_grid() implies 1 <= #[trigger] cell(cells, f) <= 9 by {
        let row = cells[f.row as int];
        assert(holds_each_digit_once(row));
        if row[f.column as int] == 0 {
            // Nine different values with a zero among them leave out a digit.
            let rest = row.remove(f.column as int);
            assert forall|d: u8| 1 <= d <= 9 implies rest.contains(d) by {
                assert(row.contains(d));
                let i = choose|i: int| 0 <= i < row.len() && row[i] == d;
                if i < f.column {
                    assert(rest[i] == d);
                } else {
                    assert(rest[i - 1] == d);
                }
            }
            lemma_all_digits_are_nine(rest);
        }
    }
}

/// Values that hold all nine digits are at least nine.
pub proof fn lemma_all_digits_are_nine(values: Seq<u8>)
    requires
        forall|d: u8| 1 <= d <= 9 ==> values.contains(d),
    ensures
        values.len() >= 9,
{
    broadcast use vstd::seq_lib::seq_to_set_is_finite;

    lemma_digits();
    values.lemma_cardinality_of_set();
    let digits = digits();
    assert(digits.subset_of(values.to_set())) by {
        assert forall|d: u8| digits.contains(d) implies values.to_set().contains(d) by {
            assert(values.contains(d));
        }
    }
    vstd::set_lib::lemma_len_subset(digits, values.to_set());
}

/// A solution of a puzzle: a solved grid that holds what the puzzle holds
/// outside its empty fields.
pub open spec fn solves(solution: Seq<Seq<u8>>, cells: Seq<Seq<u8>>) -> bool {
    solved(solution) && same_outside(solution, cells, empty_fields(cells))
}

/// A puzzle that has a solution.
pub open spec fn solvable(cells: Seq<Seq<u8>>) -> bool {
    exists|solution: Seq<Seq<u8>>| solves(solution, cells)
}

} // verus!
