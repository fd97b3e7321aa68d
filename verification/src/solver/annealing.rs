//! What the exchanges of the Monte Carlo search keep: the digits of every
//! parcel.

use vstd::prelude::*;
use crate::cells::{
    cell, is_grid, lemma_place_in_parcel, lemma_with_cell, parcel_values, place_in_parcel, swapped,
    with_cell,
};
use crate::field::Field;
use crate::rules::holds_each_digit_once;
use crate::solver::filling::lemma_parcel_after_write;

verus! {

/// The grid that a try proposes: the digits of the first two fields of the
/// shuffled list are exchanged. A list with fewer than two fields, or with a
/// field outside the grid among its first two, proposes the grid as it is.
pub open spec fn proposed(cells: Seq<Seq<u8>>, shuffled: Seq<Field>) -> Seq<Seq<u8>> {
    if shuffled.len() >= 2 && shuffled[0].in_grid() && shuffled[1].in_grid() {
        swapped(cells, shuffled[0], shuffled[1])
    } else {
        cells
    }
}

/// Whether a proposal is kept: always if it does not raise the energy, and
/// else if the acceptance rule has accepted it.
pub open spec fn kept(energy_last: int, energy: int, accepted: bool) -> bool {
    energy <= energy_last || accepted
}

/// The grid that a try leaves, given the proposed grid: the proposed grid if
/// the proposal is kept, and else the proposed grid with the exchange made
/// once more, which undoes it.
pub open spec fn settled(
    cells: Seq<Seq<u8>>,
    shuffled: Seq<Field>,
    energy_last: int,
    energy: int,
    accepted: bool,
) -> Seq<Seq<u8>> {
    if kept(energy_last, energy, accepted) {
        cells
    } else {
        proposed(cells, shuffled)
    }
}

/// The energy that a try leaves to the next: that of the proposal if it is
/// kept, and else the one before.
pub open spec fn settled_energy(energy_last: int, energy: int, accepted: bool) -> int {
    if kept(energy_last, energy, accepted) {
        energy
    } else {
        energy_last
    }
}

/// Every parcel of one grid holds the same digits as the parcel of the
/// other, each as often; only their places may differ.
pub open spec fn same_parcel_digits(a: Seq<Seq<u8>>, b: Seq<Seq<u8>>) -> bool {
    forall|p: int|
        0 <= p < 9 ==> (#[trigger] parcel_values(a, p)).to_multiset() == parcel_values(
            b,
            p,
        ).to_multiset()
}

/// Of a shuffled list without repeats, the first two fields are different
/// fields of the list.
pub proof fn lemma_shuffled_pair(before: Seq<Field>, after: Seq<Field>)
    requires
        before.no_duplicates(),
        after.to_multiset() == before.to_multiset(),
        before.len() >= 2,
    ensures
        after.len() == before.len(),
        before.contains(after[0]),
        before.contains(after[1]),
        after[0] != after[1],
{
    broadcast use vstd::seq_lib::group_to_multiset_ensures;

    before.to_multiset_ensures();
    after.to_multiset_ensures();
    assert(after.len() == before.len());
    assert(after.contains(after[0]));
    assert(after.contains(after[1]));
    assert(after.to_multiset().count(after[0]) > 0);
    assert(after.to_multiset().count(after[1]) > 0);
    assert(before.to_multiset().count(after[0]) > 0);
    assert(before.to_multiset().count(after[1]) > 0);
    before.lemma_multiset_has_no_duplicates();
    after.lemma_multiset_has_no_duplicates_conv();
}

/// A sequence with two of its values exchanged holds the same values, each
/// as often.
pub proof fn lemma_exchange(values: Seq<u8>, i: int, j: int)
    requires
        0 <= i < values.len(),
        0 <= j < values.len(),
        i != j,
    ensures
        values.update(i, values[j]).update(j, values[i]).to_multiset() == values.to_multiset(),
{
    broadcast use vstd::multiset::group_multiset_axioms;

    let half = values.update(i, values[j]);
    vstd::seq_lib::to_multiset_update(values, i, values[j]);
    vstd::seq_lib::to_multiset_update(half, j, values[i]);
    values.to_multiset_ensures();
    assert(values.contains(values[i]));
    assert(values.contains(values[j]));
    assert(half.update(j, values[i]).to_multiset() =~= values.to_multiset());
}

/// Exchanging the digits of two fields of one parcel leaves a grid whose
/// parcels hold the digits they held.
pub proof fn lemma_swapped(cells: Seq<Seq<u8>>, first: Field, second: Field)
    requires
        is_grid(cells),
        first.in_grid(),
        second.in_grid(),
        first.parcel() == second.parcel(),
        first != second,
    ensures
        is_grid(swapped(cells, first, second)),
        same_parcel_digits(swapped(cells, first, second), cells),
{
    broadcast use vstd::seq_lib::to_multiset_update;

    let a = cell(cells, first);
    let b = cell(cells, second);
    let half = with_cell(cells, first, b);
    let full = with_cell(half, second, a);
    assert(cells[first.row as int][first.column as int] <= 9);
    assert(cells[second.row as int][second.column as int] <= 9);
    lemma_place_in_parcel(first);
    lemma_place_in_parcel(second);
    let i = place_in_parcel(first);
    let j = place_in_parcel(second);
    assert(i != j);
    assert forall|p: int| 0 <= p < 9 implies (#[trigger] parcel_values(full, p)).to_multiset()
        == parcel_values(cells, p).to_multiset() by {
        lemma_parcel_after_write(cells, first, b, p);
        lemma_parcel_after_write(half, second, a, p);
        if p == first.parcel() {
            let v = parcel_values(cells, p);
            assert(v[i] == a && v[j] == b);
            assert(parcel_values(full, p) == v.update(i, b).update(j, a));
            lemma_exchange(v, i, j);
        }
    }
    lemma_parcel_after_write(cells, first, b, 0);
    lemma_parcel_after_write(half, second, a, 0);
}

/// Values that are some values in another order hold each digit once if
/// those do.
pub proof fn lemma_same_digits_each_once(a: Seq<u8>, b: Seq<u8>)
    requires
        a.to_multiset() == b.to_multiset(),
        holds_each_digit_once(b),
    ensures
        holds_each_digit_once(a),
{
    broadcast use vstd::seq_lib::group_to_multiset_ensures;

    a.to_multiset_ensures();
    b.to_multiset_ensures();
    b.lemma_multiset_has_no_duplicates();
    a.lemma_multiset_has_no_duplicates_conv();
    assert forall|d: u8| 1 <= d <= 9 implies a.contains(d) by {
        assert(b.contains(d));
        assert(b.to_multiset().count(d) > 0);
        assert(a.to_multiset().count(d) > 0);
    }
}

/// Exchanging the digits of two fields twice gives the grid back.
pub proof fn lemma_swapped_twice(cells: Seq<Seq<u8>>, first: Field, second: Field)
    requires
        is_grid(cells),
        first.in_grid(),
        second.in_grid(),
    ensures
        swapped(swapped(cells, first, second), first, second) == cells,
{
    let once = swapped(cells, first, second);
    lemma_with_cell(cells, first, cell(cells, second));
    assert(cells[first.row as int][first.column as int] <= 9);
    assert(cells[second.row as int][second.column as int] <= 9);
    lemma_with_cell(with_cell(cells, first, cell(cells, second)), second, cell(cells, first));
    lemma_with_cell(once, first, cell(once, second));
    lemma_with_cell(with_cell(once, first, cell(once, second)), second, cell(once, first));
    let twice = swapped(once, first, second);
    assert forall|r: int| 0 <= r < 9 implies #[trigger] twice[r] == cells[r] by {
        assert forall|c: int| 0 <= c < 9 implies twice[r][c] == cells[r][c] by {
            let f = Field { row: r as u8, column: c as u8 };
            assert(cell(twice, f) == cell(cells, f));
        }
        assert(twice[r].len() == 9 && cells[r].len() == 9);
        assert(twice[r] =~= cells[r]);
    }
    assert(twice =~= cells);
}

/// Having the same digits in every parcel carries over from grid to grid.
pub proof fn lemma_same_parcel_digits_chain(a: Seq<Seq<u8>>, b: Seq<Seq<u8>>, c: Seq<Seq<u8>>)
    requires
        same_parcel_digits(a, b),
        same_parcel_digits(b, c),
    ensures
        same_parcel_digits(a, c),
{
    assert forall|p: int| 0 <= p < 9 implies (#[trigger] parcel_values(a, p)).to_multiset()
        == parcel_values(c, p).to_multiset() by {
        assert(parcel_values(b, p).to_multiset() == parcel_values(c, p).to_multiset());
    }
}

} // verus!
