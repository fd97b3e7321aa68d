//! The mathematical model of a grid: nine rows of nine digits, and the lists
//! of fields that go with it.

use vstd::prelude::*;
use crate::field::Field;

verus! {

/// Nine rows of nine digits between 0 and 9, where 0 marks an empty cell.
pub open spec fn is_grid(cells: Seq<Seq<u8>>) -> bool {
    &&& cells.len() == 9
    &&& forall|r: int| 0 <= r < 9 ==> (#[trigger] cells[r]).len() == 9
    &&& forall|r: int, c: int| 0 <= r < 9 && 0 <= c < 9 ==> #[trigger] cells[r][c] <= 9
}

/// The digit in a field.
pub open spec fn cell(cells: Seq<Seq<u8>>, field: Field) -> u8 {
    cells[field.row as int][field.column as int]
}

/// The grid with one field changed to `value`.
pub open spec fn with_cell(cells: Seq<Seq<u8>>, field: Field, value: u8) -> Seq<Seq<u8>> {
    cells.update(field.row as int, cells[field.row as int].update(field.column as int, value))
}

/// The grid with the digits of two fields exchanged.
pub open spec fn swapped(cells: Seq<Seq<u8>>, first: Field, second: Field) -> Seq<Seq<u8>> {
    with_cell(with_cell(cells, first, cell(cells, second)), second, cell(cells, first))
}

/// The nine digits of a column, from the top.
pub open spec fn column_values(cells: Seq<Seq<u8>>, column: int) -> Seq<u8> {
    Seq::new(9, |r: int| cells[r][column])
}

/// The field in row `i` and column `j` of a parcel, both counted inside the
/// parcel.
pub open spec fn parcel_field(parcel: int, i: int, j: int) -> Field {
    Field { row: ((parcel / 3) * 3 + i) as u8, column: ((parcel % 3) * 3 + j) as u8 }
}

/// The nine fields of a parcel, row by row.
pub open spec fn parcel_fields(parcel: int) -> Seq<Field> {
    Seq::new(9, |k: int| parcel_field(parcel, k / 3, k % 3))
}

/// A parcel as three rows of three digits.
pub open spec fn parcel_rows(cells: Seq<Seq<u8>>, parcel: int) -> Seq<Seq<u8>> {
    Seq::new(3, |i: int| Seq::new(3, |j: int| cell(cells, parcel_field(parcel, i, j))))
}

/// The nine digits of a parcel, row by row.
pub open spec fn parcel_values(cells: Seq<Seq<u8>>, parcel: int) -> Seq<u8> {
    Seq::new(9, |k: int| cell(cells, parcel_field(parcel, k / 3, k % 3)))
}

/// The field at a position of the grid when it is read row by row.
pub open spec fn field_at(position: int) -> Field {
    Field { row: (position / 9) as u8, column: (position % 9) as u8 }
}

/// The empty fields among the first `count` positions, in row-major order.
pub open spec fn empty_fields_before(cells: Seq<Seq<u8>>, count: nat) -> Seq<Field>
    decreases count,
{
    if count == 0 {
        Seq::empty()
    } else if cell(cells, field_at(count - 1)) == 0 {
        empty_fields_before(cells, (count - 1) as nat).push(field_at(count - 1))
    } else {
        empty_fields_before(cells, (count - 1) as nat)
    }
}

/// All empty fields of a grid, in row-major order.
pub open spec fn empty_fields(cells: Seq<Seq<u8>>) -> Seq<Field> {
    empty_fields_before(cells, 81)
}

/// A list of fields of the grid in strictly ascending row-major order.
pub open spec fn ordered(fields: Seq<Field>) -> bool {
    &&& forall|i: int| 0 <= i < fields.len() ==> (#[trigger] fields[i]).in_grid()
    &&& forall|i: int, j: int|
        0 <= i < j < fields.len() ==> (#[trigger] fields[i]).position() < (
        #[trigger] fields[j]).position()
}

/// The fields of a list that lie in one parcel, in the order of the list.
pub open spec fn fields_in_parcel(fields: Seq<Field>, parcel: int) -> Seq<Field>
    decreases fields.len(),
{
    if fields.len() == 0 {
        fields
    } else if fields.last().parcel() == parcel {
        fields_in_parcel(fields.drop_last(), parcel).push(fields.last())
    } else {
        fields_in_parcel(fields.drop_last(), parcel)
    }
}

/// The grid with every listed field emptied and all others kept.
pub open spec fn cleared(cells: Seq<Seq<u8>>, fields: Seq<Field>) -> Seq<Seq<u8>> {
    Seq::new(
        9,
        |r: int|
            Seq::new(
                9,
                |c: int|
                    if fields.contains(Field { row: r as u8, column: c as u8 }) {
                        0u8
                    } else {
                        cells[r][c]
                    },
            ),
    )
}

/// The grid agrees with another on every field outside a list.
pub open spec fn same_outside(a: Seq<Seq<u8>>, b: Seq<Seq<u8>>, fields: Seq<Field>) -> bool {
    forall|r: int, c: int|
        0 <= r < 9 && 0 <= c < 9 && !fields.contains(Field { row: r as u8, column: c as u8 })
            ==> #[trigger] a[r][c] == b[r][c]
}

/// The place of a field of the grid among the nine fields of its parcel,
/// counted row by row.
pub open spec fn place_in_parcel(field: Field) -> int {
    (field.row % 3) * 3 + field.column % 3
}

/// The field at a place of a parcel lies in the grid, in that parcel and at
/// that place.
pub proof fn lemma_parcel_field(parcel: int, place: int)
    requires
        0 <= parcel < 9,
        0 <= place < 9,
    ensures
        parcel_field(parcel, place / 3, place % 3).in_grid(),
        parcel_field(parcel, place / 3, place % 3).parcel() == parcel,
        place_in_parcel(parcel_field(parcel, place / 3, place % 3)) == place,
        parcel_field(parcel, place / 3, place % 3).position() == ((parcel / 3) * 3 + place / 3) * 9
            + (parcel % 3) * 3 + place % 3,
{
    let a = parcel / 3;
    let b = parcel % 3;
    let i = place / 3;
    let j = place % 3;
    assert(0 <= a < 3 && 0 <= b < 3 && 0 <= i < 3 && 0 <= j < 3);
    let row = a * 3 + i;
    let column = b * 3 + j;
    assert(row / 3 == a && row % 3 == i);
    assert(column / 3 == b && column % 3 == j);
    assert(parcel == a * 3 + b && place == i * 3 + j);
}

/// A field of the grid is the field at its place of its parcel.
pub proof fn lemma_place_in_parcel(field: Field)
    requires
        field.in_grid(),
    ensures
        0 <= field.parcel() < 9,
        0 <= place_in_parcel(field) < 9,
        parcel_field(field.parcel(), place_in_parcel(field) / 3, place_in_parcel(field) % 3)
            == field,
{
    let a = field.row / 3;
    let i = field.row % 3;
    let b = field.column / 3;
    let j = field.column % 3;
    assert(0 <= a < 3 && 0 <= b < 3 && 0 <= i < 3 && 0 <= j < 3);
    let parcel = a * 3 + b;
    let place = i * 3 + j;
    assert(parcel / 3 == a && parcel % 3 == b);
    assert(place / 3 == i && place % 3 == j);
    assert(field.row == a * 3 + i && field.column == b * 3 + j);
}

/// The empty fields before a position are ordered, lie before it, and are
/// the fields before it whose cell is empty.
pub proof fn lemma_empty_fields_before(cells: Seq<Seq<u8>>, count: nat)
    requires
        count <= 81,
    ensures
        ordered(empty_fields_before(cells, count)),
        forall|f: Field| #[trigger]
            empty_fields_before(cells, count).contains(f) <==> f.in_grid() && f.position() < count
                && cell(cells, f) == 0,
    decreases count,
{
    let now = empty_fields_before(cells, count);
    if count > 0 {
        let before = empty_fields_before(cells, (count - 1) as nat);
        let last = field_at(count - 1);
        lemma_empty_fields_before(cells, (count - 1) as nat);
        assert(last.in_grid() && last.position() == count - 1);
        assert forall|i: int, j: int| 0 <= i < j < now.len() implies (#[trigger] now[i]).position() < (
        #[trigger] now[j]).position() by {
            if j < before.len() {
                assert(now[i] == before[i] && now[j] == before[j]);
            } else {
                assert(now[i] == before[i]);
                assert(before.contains(before[i]));
            }
        }
        assert forall|f: Field| #[trigger]
            now.contains(f) <==> f.in_grid() && f.position() < count && cell(cells, f) == 0 by {
            if now.contains(f) {
                let k = choose|k: int| 0 <= k < now.len() && now[k] == f;
                if k < before.len() {
                    assert(before[k] == f);
                    assert(before.contains(f));
                }
            }
            if f.in_grid() && f.position() < count && cell(cells, f) == 0 {
                if f.position() < count - 1 {
                    assert(before.contains(f));
                    let k = choose|k: int| 0 <= k < before.len() && before[k] == f;
                    assert(now[k] == f);
                } else {
                    assert(f == last);
                    assert(now[now.len() - 1] == f);
                }
            }
        }
        assert forall|i: int| 0 <= i < now.len() implies (#[trigger] now[i]).in_grid() by {
            assert(now.contains(now[i]));
        }
    }
}

/// The empty fields of a grid are ordered and are exactly the fields whose
/// cell is empty.
pub proof fn lemma_empty_fields(cells: Seq<Seq<u8>>)
    ensures
        ordered(empty_fields(cells)),
        forall|f: Field| #[trigger]
            empty_fields(cells).contains(f) <==> f.in_grid() && cell(cells, f) == 0,
{
    lemma_empty_fields_before(cells, 81);
    assert forall|f: Field| #[trigger]
        empty_fields(cells).contains(f) <==> f.in_grid() && cell(cells, f) == 0 by {
        if f.in_grid() {
            assert(f.position() < 81);
        }
    }
}

/// A grid that agrees with another outside the empty fields of that other
/// is that other again once those fields are emptied.
pub proof fn lemma_cleared_restores(start: Seq<Seq<u8>>, changed: Seq<Seq<u8>>)
    requires
        is_grid(start),
        same_outside(changed, start, empty_fields(start)),
    ensures
        cleared(changed, empty_fields(start)) == start,
{
    lemma_empty_fields(start);
    let fields = empty_fields(start);
    let emptied = cleared(changed, fields);
    assert forall|r: int| 0 <= r < 9 implies #[trigger] emptied[r] == start[r] by {
        assert(start[r].len() == 9);
        assert forall|c: int| 0 <= c < 9 implies emptied[r][c] == start[r][c] by {
            let f = Field { row: r as u8, column: c as u8 };
            if fields.contains(f) {
                assert(cell(start, f) == 0);
            } else {
                assert(changed[r][c] == start[r][c]);
            }
        }
        assert(emptied[r] =~= start[r]);
    }
    assert(emptied =~= start);
}

/// Two ordered lists that hold the same fields are the same list.
pub proof fn lemma_ordered_equal(a: Seq<Field>, b: Seq<Field>)
    requires
        ordered(a),
        ordered(b),
        forall|f: Field| a.contains(f) <==> b.contains(f),
    ensures
        a == b,
    decreases a.len(),
{
    if a.len() == 0 {
        if b.len() > 0 {
            assert(b.contains(b[0]));
        }
        assert(a =~= b);
    } else {
        let top = a.last();
        assert(a.contains(top));
        assert(b.contains(top));
        let j = choose|j: int| 0 <= j < b.len() && b[j] == top;
        let other = b.last();
        assert(b.contains(other));
        assert(a.contains(other));
        let i = choose|i: int| 0 <= i < a.len() && a[i] == other;
        if j < b.len() - 1 {
            assert(b[j].position() < b[b.len() - 1].position());
            if i < a.len() - 1 {
                assert(a[i].position() < a[a.len() - 1].position());
            }
        }
        assert(other.in_grid() && top.in_grid());
        assert(other == top);
        let a0 = a.drop_last();
        let b0 = b.drop_last();
        assert(ordered(a0)) by {
            assert forall|i: int, j: int| 0 <= i < j < a0.len() implies (#[trigger] a0[i]).position()
                < (#[trigger] a0[j]).position() by {
                assert(a[i] == a0[i] && a[j] == a0[j]);
            }
            assert forall|i: int| 0 <= i < a0.len() implies (#[trigger] a0[i]).in_grid() by {
                assert(a[i] == a0[i]);
            }
        }
        assert(ordered(b0)) by {
            assert forall|i: int, j: int| 0 <= i < j < b0.len() implies (#[trigger] b0[i]).position()
                < (#[trigger] b0[j]).position() by {
                assert(b[i] == b0[i] && b[j] == b0[j]);
            }
            assert forall|i: int| 0 <= i < b0.len() implies (#[trigger] b0[i]).in_grid() by {
                assert(b[i] == b0[i]);
            }
        }
        assert forall|f: Field| a0.contains(f) <==> b0.contains(f) by {
            if a0.contains(f) {
                let k = choose|k: int| 0 <= k < a0.len() && a0[k] == f;
                assert(a[k] == f);
                assert(a[k].position() < a[a.len() - 1].position());
                assert(a.contains(f));
                assert(b.contains(f));
                let m = choose|m: int| 0 <= m < b.len() && b[m] == f;
                assert(m < b.len() - 1);
                assert(b0[m] == f);
            }
            if b0.contains(f) {
                let k = choose|k: int| 0 <= k < b0.len() && b0[k] == f;
                assert(b[k] == f);
                assert(b[k].position() < b[b.len() - 1].position());
                assert(b.contains(f));
                assert(a.contains(f));
                let m = choose|m: int| 0 <= m < a.len() && a[m] == f;
                assert(m < a.len() - 1);
                assert(a0[m] == f);
            }
        }
        lemma_ordered_equal(a0, b0);
        assert(a =~= a0.push(top));
        assert(b =~= b0.push(other));
    }
}

/// Changing a listed field keeps a grid equal to another outside the list.
pub proof fn lemma_write_keeps_outside(
    before: Seq<Seq<u8>>,
    after: Seq<Seq<u8>>,
    start: Seq<Seq<u8>>,
    fields: Seq<Field>,
    field: Field,
)
    requires
        same_outside(before, start, fields),
        fields.contains(field),
        field.in_grid(),
        is_grid(before),
        exists|value: u8| after == with_cell(before, field, value),
    ensures
        same_outside(after, start, fields),
{
    let value = choose|value: u8| after == with_cell(before, field, value);
    assert forall|r: int, c: int|
        0 <= r < 9 && 0 <= c < 9 && !fields.contains(
            Field { row: r as u8, column: c as u8 },
        ) implies #[trigger] after[r][c] == start[r][c] by {
        assert(before[r][c] == start[r][c]);
        assert(Field { row: r as u8, column: c as u8 } != field);
    }
}

/// Writing into a field of a grid gives a grid in which that field holds
/// what was written and every other field what it held.
pub proof fn lemma_with_cell(cells: Seq<Seq<u8>>, field: Field, value: u8)
    requires
        is_grid(cells),
        field.in_grid(),
        value <= 9,
    ensures
        is_grid(with_cell(cells, field, value)),
        cell(with_cell(cells, field, value), field) == value,
        forall|f: Field|
            f.in_grid() && f != field ==> #[trigger] cell(with_cell(cells, field, value), f) == cell(
                cells,
                f,
            ),
{
    let after = with_cell(cells, field, value);
    assert forall|r: int, c: int| 0 <= r < 9 && 0 <= c < 9 implies #[trigger] after[r][c] <= 9 by {
        assert(cells[r][c] <= 9);
    }
    assert forall|r: int| 0 <= r < 9 implies (#[trigger] after[r]).len() == 9 by {
        assert(cells[r].len() == 9);
    }
}

} // verus!
