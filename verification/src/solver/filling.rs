//! The first phase of the Monte Carlo search: every parcel is filled with
//! the digits that it lacks.

use vstd::prelude::*;
use crate::cells::{
    cell, empty_fields, fields_in_parcel, is_grid, lemma_empty_fields, lemma_ordered_equal,
    lemma_parcel_field, lemma_place_in_parcel, ordered, parcel_field, parcel_values,
    place_in_parcel, same_outside, with_cell,
};
use crate::common::{lemma_without_zeros, unique_digits, without_zeros};
use crate::rules::{digits, holds_each_digit_once, lemma_digits, lemma_nine_digits};
use crate::field::Field;

verus! {

/// The digits from 1 to `top` that do not occur among some values,
/// ascending.
pub open spec fn missing_upto(values: Seq<u8>, top: nat) -> Seq<u8>
    decreases top,
{
    if top == 0 {
        Seq::empty()
    } else if values.contains(top as u8) {
        missing_upto(values, (top - 1) as nat)
    } else {
        missing_upto(values, (top - 1) as nat).push(top as u8)
    }
}

/// The digits from 1 to 9 that do not occur among some values, ascending.
pub open spec fn missing_digits(values: Seq<u8>) -> Seq<u8> {
    missing_upto(values, 9)
}

/// The grid after the first `count` of some fields took, one by one, the
/// first `count` of some digits.
pub open spec fn assigned(
    cells: Seq<Seq<u8>>,
    fields: Seq<Field>,
    digits: Seq<u8>,
    count: nat,
) -> Seq<Seq<u8>>
    decreases count,
{
    if count == 0 {
        cells
    } else {
        with_cell(
            assigned(cells, fields, digits, (count - 1) as nat),
            fields[count - 1],
            digits[count - 1],
        )
    }
}

/// The grid after one parcel was filled: its mutable fields took, in
/// row-major order, the digits that the parcel lacked, ascending.
pub open spec fn filled_parcel(cells: Seq<Seq<u8>>, mutable: Seq<Field>, parcel: int) -> Seq<
    Seq<u8>,
> {
    assigned(
        cells,
        fields_in_parcel(mutable, parcel),
        missing_digits(parcel_values(cells, parcel)),
        fields_in_parcel(mutable, parcel).len(),
    )
}

/// The grid after the first `count` parcels were filled.
pub open spec fn filled_upto(cells: Seq<Seq<u8>>, mutable: Seq<Field>, count: nat) -> Seq<Seq<u8>>
    decreases count,
{
    if count == 0 {
        cells
    } else {
        filled_parcel(filled_upto(cells, mutable, (count - 1) as nat), mutable, count - 1)
    }
}

/// The grid after all nine parcels were filled.
pub open spec fn filled(cells: Seq<Seq<u8>>, mutable: Seq<Field>) -> Seq<Seq<u8>> {
    filled_upto(cells, mutable, 9)
}

/// No parcel has more mutable fields than it lacks digits, so that each of
/// them can take one.
pub open spec fn can_fill(cells: Seq<Seq<u8>>, mutable: Seq<Field>) -> bool {
    forall|p: int|
        0 <= p < 9 ==> fields_in_parcel(mutable, p).len() <= missing_digits(
            #[trigger] parcel_values(cells, p),
        ).len()
}

/// The fields of an ordered list that lie in a parcel are ordered too, and
/// they are the fields of the list that lie in the parcel.
pub proof fn lemma_fields_in_parcel(fields: Seq<Field>, parcel: int)
    requires
        ordered(fields),
    ensures
        ordered(fields_in_parcel(fields, parcel)),
        forall|f: Field| #[trigger]
            fields_in_parcel(fields, parcel).contains(f) <==> fields.contains(f) && f.parcel()
                == parcel,
        fields_in_parcel(fields, parcel).len() <= fields.len(),
    decreases fields.len(),
{
    let now = fields_in_parcel(fields, parcel);
    if fields.len() > 0 {
        let init = fields.drop_last();
        let before = fields_in_parcel(init, parcel);
        let last = fields.last();
        assert(ordered(init)) by {
            assert forall|i: int, j: int| 0 <= i < j < init.len() implies (#[trigger] init[i]).position()
                < (#[trigger] init[j]).position() by {
                assert(fields[i] == init[i] && fields[j] == init[j]);
            }
            assert forall|i: int| 0 <= i < init.len() implies (#[trigger] init[i]).in_grid() by {
                assert(fields[i] == init[i]);
            }
        }
        lemma_fields_in_parcel(init, parcel);
        assert forall|f: Field| #[trigger]
            now.contains(f) <==> fields.contains(f) && f.parcel() == parcel by {
            if now.contains(f) {
                let k = choose|k: int| 0 <= k < now.len() && now[k] == f;
                if k < before.len() {
                    assert(before[k] == f);
                    assert(before.contains(f));
                    let i = choose|i: int| 0 <= i < init.len() && init[i] == f;
                    assert(fields[i] == f);
                } else {
                    assert(fields[fields.len() - 1] == f);
                }
            }
            if fields.contains(f) && f.parcel() == parcel {
                let i = choose|i: int| 0 <= i < fields.len() && fields[i] == f;
                if i < init.len() {
                    assert(init[i] == f);
                    assert(init.contains(f));
                    assert(before.contains(f));
                    let k = choose|k: int| 0 <= k < before.len() && before[k] == f;
                    assert(now[k] == f);
                } else {
                    assert(now[now.len() - 1] == f);
                }
            }
        }
        assert forall|i: int| 0 <= i < now.len() implies (#[trigger] now[i]).in_grid() by {
            assert(now.contains(now[i]));
            let k = choose|k: int| 0 <= k < fields.len() && fields[k] == now[i];
        }
        assert forall|i: int, j: int| 0 <= i < j < now.len() implies (#[trigger] now[i]).position() < (
        #[trigger] now[j]).position() by {
            if j < before.len() {
                assert(now[i] == before[i] && now[j] == before[j]);
            } else {
                assert(now[i] == before[i]);
                assert(before.contains(before[i]));
                let k = choose|k: int| 0 <= k < init.len() && init[k] == before[i];
                assert(fields[k] == init[k]);
                assert(now[j] == fields[fields.len() - 1]);
            }
        }
    }
}

/// The missing digits ascend strictly and are the digits from 1 to `top`
/// that do not occur among the values.
pub proof fn lemma_missing_upto(values: Seq<u8>, top: nat)
    requires
        top <= 9,
    ensures
        forall|i: int, j: int|
            0 <= i < j < missing_upto(values, top).len() ==> missing_upto(values, top)[i]
                < missing_upto(values, top)[j],
        forall|d: u8| #[trigger]
            missing_upto(values, top).contains(d) <==> 1 <= d <= top && !values.contains(d),
        missing_upto(values, top).len() <= top,
    decreases top,
{
    let now = missing_upto(values, top);
    if top > 0 {
        let before = missing_upto(values, (top - 1) as nat);
        lemma_missing_upto(values, (top - 1) as nat);
        assert forall|d: u8| #[trigger] now.contains(d) <==> 1 <= d <= top && !values.contains(d) by {
            if now.contains(d) {
                let k = choose|k: int| 0 <= k < now.len() && now[k] == d;
                if k < before.len() {
                    assert(before[k] == d);
                    assert(before.contains(d));
                }
            }
            if 1 <= d <= top && !values.contains(d) {
                if d < top {
                    assert(before.contains(d));
                    let k = choose|k: int| 0 <= k < before.len() && before[k] == d;
                    assert(now[k] == d);
                } else {
                    assert(now[now.len() - 1] == d);
                }
            }
        }
        assert forall|i: int, j: int| 0 <= i < j < now.len() implies now[i] < now[j] by {
            if j < before.len() {
                assert(now[i] == before[i] && now[j] == before[j]);
            } else {
                assert(now[i] == before[i]);
                assert(before.contains(before[i]));
            }
        }
    }
}

/// Values that hold the same digits above zero lack the same digits.
pub proof fn lemma_missing_same(a: Seq<u8>, b: Seq<u8>, top: nat)
    requires
        top <= 9,
        forall|d: u8| 1 <= d ==> (#[trigger] a.contains(d) <==> b.contains(d)),
    ensures
        missing_upto(a, top) == missing_upto(b, top),
    decreases top,
{
    if top > 0 {
        lemma_missing_same(a, b, (top - 1) as nat);
        assert(a.contains(top as u8) <==> b.contains(top as u8));
    }
}

/// Writing into a field changes one value of its own parcel and none of any
/// other.
pub proof fn lemma_parcel_after_write(cells: Seq<Seq<u8>>, field: Field, value: u8, parcel: int)
    requires
        is_grid(cells),
        field.in_grid(),
        value <= 9,
        0 <= parcel < 9,
    ensures
        is_grid(with_cell(cells, field, value)),
        parcel_values(with_cell(cells, field, value), parcel) == if field.parcel() == parcel {
            parcel_values(cells, parcel).update(place_in_parcel(field), value)
        } else {
            parcel_values(cells, parcel)
        },
{
    let after = with_cell(cells, field, value);
    let k = place_in_parcel(field);
    lemma_place_in_parcel(field);
    assert forall|r: int, c: int| 0 <= r < 9 && 0 <= c < 9 implies #[trigger] after[r][c] <= 9 by {
        assert(cells[r][c] <= 9);
    }
    assert forall|r: int| 0 <= r < 9 implies (#[trigger] after[r]).len() == 9 by {
        assert(cells[r].len() == 9);
    }
    let expected = if field.parcel() == parcel {
        parcel_values(cells, parcel).update(k, value)
    } else {
        parcel_values(cells, parcel)
    };
    assert forall|i: int| 0 <= i < 9 implies parcel_values(after, parcel)[i] == expected[i] by {
        let f = parcel_field(parcel, i / 3, i % 3);
        lemma_parcel_field(parcel, i);
        if f == field {
            assert(cell(after, f) == value);
        } else {
            assert(cell(after, f) == cell(cells, f));
        }
    }
    assert(parcel_values(after, parcel) =~= expected);
}

/// Fields of a parcel that take digits change their own grid cells only:
/// the grid stays a grid, every other field keeps its digit, and so does
/// every other parcel.
pub proof fn lemma_assigned(
    cells: Seq<Seq<u8>>,
    fields: Seq<Field>,
    digits: Seq<u8>,
    count: nat,
    parcel: int,
)
    requires
        is_grid(cells),
        0 <= parcel < 9,
        count <= fields.len(),
        count <= digits.len(),
        forall|i: int| 0 <= i < fields.len() ==> (#[trigger] fields[i]).in_grid() && fields[i].parcel()
            == parcel,
        forall|i: int| 0 <= i < digits.len() ==> #[trigger] digits[i] <= 9,
    ensures
        is_grid(assigned(cells, fields, digits, count)),
        same_outside(assigned(cells, fields, digits, count), cells, fields),
        forall|q: int|
            0 <= q < 9 && q != parcel ==> #[trigger] parcel_values(
                assigned(cells, fields, digits, count),
                q,
            ) == parcel_values(cells, q),
    decreases count,
{
    if count > 0 {
        let before = assigned(cells, fields, digits, (count - 1) as nat);
        let after = assigned(cells, fields, digits, count);
        let field = fields[count - 1];
        lemma_assigned(cells, fields, digits, (count - 1) as nat, parcel);
        lemma_parcel_after_write(before, field, digits[count - 1], parcel);
        assert forall|q: int| 0 <= q < 9 && q != parcel implies #[trigger] parcel_values(after, q)
            == parcel_values(cells, q) by {
            lemma_parcel_after_write(before, field, digits[count - 1], q);
        }
        assert forall|r: int, c: int|
            0 <= r < 9 && 0 <= c < 9 && !fields.contains(
                Field { row: r as u8, column: c as u8 },
            ) implies #[trigger] after[r][c] == cells[r][c] by {
            assert(before[r][c] == cells[r][c]);
            assert(fields.contains(field));
        }
    }
}

/// The digits that some values lack and the different digits that they
/// hold are nine together.
pub proof fn lemma_missing_count(values: Seq<u8>)
    requires
        forall|i: int| 0 <= i < values.len() ==> #[trigger] values[i] <= 9,
    ensures
        missing_digits(values).len() + without_zeros(values).len() >= 9,
        unique_digits(values) ==> missing_digits(values).len() + without_zeros(values).len() == 9,
{
    broadcast use vstd::seq_lib::seq_to_set_is_finite;

    let lacking = missing_digits(values);
    let held = without_zeros(values);
    lemma_digits();
    lemma_missing_upto(values, 9);
    lemma_without_zeros(values);
    assert(lacking.no_duplicates());
    lacking.unique_seq_to_set();
    held.lemma_cardinality_of_set();
    let a = lacking.to_set();
    let b = held.to_set();
    assert(a.disjoint(b)) by {
        assert forall|d: u8| !(a.contains(d) && b.contains(d)) by {
            if a.contains(d) && b.contains(d) {
                assert(lacking.contains(d));
                assert(held.contains(d));
            }
        }
    }
    assert(a + b =~= digits()) by {
        assert forall|d: u8| (a + b).contains(d) <==> digits().contains(d) by {
            if a.contains(d) {
                assert(lacking.contains(d));
            }
            if b.contains(d) {
                assert(held.contains(d));
                let i = choose|i: int| 0 <= i < values.len() && values[i] == d;
            }
            if digits().contains(d) {
                if values.contains(d) {
                    assert(held.contains(d));
                } else {
                    assert(lacking.contains(d));
                }
            }
        }
    }
    vstd::set_lib::lemma_set_disjoint_lens(a, b);
    if unique_digits(values) {
        held.unique_seq_to_set();
    }
}

/// The empty fields among the first `count` places of a parcel, in
/// row-major order.
pub open spec fn empty_in_parcel(cells: Seq<Seq<u8>>, parcel: int, count: nat) -> Seq<Field>
    decreases count,
{
    if count == 0 {
        Seq::empty()
    } else if parcel_values(cells, parcel)[count - 1] == 0 {
        empty_in_parcel(cells, parcel, (count - 1) as nat).push(
            parcel_field(parcel, (count - 1) / 3, (count - 1) % 3),
        )
    } else {
        empty_in_parcel(cells, parcel, (count - 1) as nat)
    }
}

/// The empty fields among the first places of a parcel are ordered, they
/// are the fields at those places whose cell is empty, and with the filled
/// places they are as many as the places.
pub proof fn lemma_empty_in_parcel(cells: Seq<Seq<u8>>, parcel: int, count: nat)
    requires
        is_grid(cells),
        0 <= parcel < 9,
        count <= 9,
    ensures
        ordered(empty_in_parcel(cells, parcel, count)),
        forall|f: Field| #[trigger]
            empty_in_parcel(cells, parcel, count).contains(f) <==> f.in_grid() && f.parcel() == parcel
                && place_in_parcel(f) < count && cell(cells, f) == 0,
        empty_in_parcel(cells, parcel, count).len() + without_zeros(
            parcel_values(cells, parcel).take(count as int),
        ).len() == count,
    decreases count,
{
    let now = empty_in_parcel(cells, parcel, count);
    let values = parcel_values(cells, parcel);
    if count > 0 {
        let before = empty_in_parcel(cells, parcel, (count - 1) as nat);
        let last = parcel_field(parcel, (count - 1) / 3, (count - 1) % 3);
        lemma_empty_in_parcel(cells, parcel, (count - 1) as nat);
        lemma_parcel_field(parcel, count - 1);
        assert(values.take(count as int).drop_last() =~= values.take(count - 1));
        assert(values.take(count as int).last() == values[count - 1]);
        assert(values[count - 1] == cell(cells, last));
        assert forall|f: Field| #[trigger]
            now.contains(f) <==> f.in_grid() && f.parcel() == parcel && place_in_parcel(f) < count
                && cell(cells, f) == 0 by {
            if now.contains(f) {
                let k = choose|k: int| 0 <= k < now.len() && now[k] == f;
                if k < before.len() {
                    assert(before[k] == f);
                    assert(before.contains(f));
                }
            }
            if f.in_grid() && f.parcel() == parcel && place_in_parcel(f) < count && cell(cells, f)
                == 0 {
                if place_in_parcel(f) < count - 1 {
                    assert(before.contains(f));
                    let k = choose|k: int| 0 <= k < before.len() && before[k] == f;
                    assert(now[k] == f);
                } else {
                    lemma_place_in_parcel(f);
                    assert(f == last);
                    assert(now[now.len() - 1] == f);
                }
            }
        }
        assert forall|i: int| 0 <= i < now.len() implies (#[trigger] now[i]).in_grid() by {
            assert(now.contains(now[i]));
        }
        assert forall|i: int, j: int| 0 <= i < j < now.len() implies (#[trigger] now[i]).position() < (
        #[trigger] now[j]).position() by {
            if j < before.len() {
                assert(now[i] == before[i] && now[j] == before[j]);
            } else {
                assert(now[i] == before[i]);
                assert(before.contains(before[i]));
                lemma_place_in_parcel(before[i]);
                lemma_parcel_field(parcel, place_in_parcel(before[i]));
            }
        }
    } else {
        assert(values.take(0) =~= Seq::empty());
    }
}

/// Where the mutable fields of a grid are its empty fields, those of a
/// parcel are the empty fields of the parcel.
pub proof fn lemma_fresh_parcel(cells: Seq<Seq<u8>>, parcel: int)
    requires
        is_grid(cells),
        0 <= parcel < 9,
    ensures
        fields_in_parcel(empty_fields(cells), parcel) == empty_in_parcel(cells, parcel, 9),
        fields_in_parcel(empty_fields(cells), parcel).len() + without_zeros(
            parcel_values(cells, parcel),
        ).len() == 9,
{
    let a = fields_in_parcel(empty_fields(cells), parcel);
    let b = empty_in_parcel(cells, parcel, 9);
    lemma_empty_fields(cells);
    lemma_fields_in_parcel(empty_fields(cells), parcel);
    lemma_empty_in_parcel(cells, parcel, 9);
    assert forall|f: Field| a.contains(f) <==> b.contains(f) by {
        if a.contains(f) {
            assert(empty_fields(cells).contains(f));
            lemma_place_in_parcel(f);
        }
        if b.contains(f) {
            assert(empty_fields(cells).contains(f));
        }
    }
    lemma_ordered_equal(a, b);
    assert(parcel_values(cells, parcel).take(9) =~= parcel_values(cells, parcel));
}

/// A grid whose mutable fields are its empty fields can be filled: no
/// parcel has more of them than it lacks digits.
pub proof fn lemma_fresh_can_fill(cells: Seq<Seq<u8>>)
    requires
        is_grid(cells),
    ensures
        can_fill(cells, empty_fields(cells)),
{
    assert forall|p: int| 0 <= p < 9 implies fields_in_parcel(empty_fields(cells), p).len()
        <= missing_digits(#[trigger] parcel_values(cells, p)).len() by {
        lemma_fresh_parcel(cells, p);
        assert forall|i: int| 0 <= i < 9 implies #[trigger] parcel_values(cells, p)[i] <= 9 by {
            lemma_parcel_field(p, i);
        }
        lemma_missing_count(parcel_values(cells, p));
    }
}

/// After fields took digits, each of them holds its digit and every other
/// field of the grid holds what it held.
pub proof fn lemma_assigned_cells(
    cells: Seq<Seq<u8>>,
    fields: Seq<Field>,
    digits: Seq<u8>,
    count: nat,
)
    requires
        is_grid(cells),
        ordered(fields),
        count <= fields.len(),
        count <= digits.len(),
        forall|i: int| 0 <= i < digits.len() ==> #[trigger] digits[i] <= 9,
    ensures
        is_grid(assigned(cells, fields, digits, count)),
        forall|i: int|
            0 <= i < count ==> cell(assigned(cells, fields, digits, count), #[trigger] fields[i])
                == digits[i],
        forall|f: Field|
            f.in_grid() && (forall|i: int| 0 <= i < count ==> fields[i] != f) ==> #[trigger] cell(
                assigned(cells, fields, digits, count),
                f,
            ) == cell(cells, f),
    decreases count,
{
    if count > 0 {
        let before = assigned(cells, fields, digits, (count - 1) as nat);
        let after = assigned(cells, fields, digits, count);
        let field = fields[count - 1];
        let digit = digits[count - 1];
        lemma_assigned_cells(cells, fields, digits, (count - 1) as nat);
        lemma_parcel_after_write(before, field, digit, 0);
        assert forall|i: int| 0 <= i < count implies cell(after, #[trigger] fields[i])
            == digits[i] by {
            if i < count - 1 {
                assert(fields[i].position() < fields[count - 1].position());
                assert(cell(before, fields[i]) == digits[i]);
            }
        }
        assert forall|f: Field|
            f.in_grid() && (forall|i: int| 0 <= i < count ==> fields[i] != f) implies #[trigger] cell(
            after,
            f,
        ) == cell(cells, f) by {
            assert(fields[count - 1] != f);
            assert(cell(before, f) == cell(cells, f));
        }
    }
}

/// While the parcels are filled one after the other, the grid stays a
/// grid; a parcel that is not yet filled holds what it held, and a parcel
/// that is filled holds what it would hold had it been filled alone.
pub proof fn lemma_filled_upto(cells: Seq<Seq<u8>>, mutable: Seq<Field>, count: nat)
    requires
        is_grid(cells),
        ordered(mutable),
        can_fill(cells, mutable),
        count <= 9,
    ensures
        is_grid(filled_upto(cells, mutable, count)),
        forall|q: int|
            count <= q < 9 ==> #[trigger] parcel_values(filled_upto(cells, mutable, count), q)
                == parcel_values(cells, q),
        forall|q: int|
            0 <= q < count ==> #[trigger] parcel_values(filled_upto(cells, mutable, count), q)
                == parcel_values(filled_parcel(cells, mutable, q), q),
    decreases count,
{
    if count > 0 {
        let parcel = count - 1;
        let before = filled_upto(cells, mutable, (count - 1) as nat);
        let after = filled_upto(cells, mutable, count);
        let alone = filled_parcel(cells, mutable, parcel);
        let fields = fields_in_parcel(mutable, parcel);
        let lacking = missing_digits(parcel_values(cells, parcel));
        lemma_filled_upto(cells, mutable, (count - 1) as nat);
        lemma_fields_in_parcel(mutable, parcel);
        lemma_missing_upto(parcel_values(cells, parcel), 9);
        assert(parcel_values(before, parcel) == parcel_values(cells, parcel));
        assert(fields.len() <= lacking.len());
        assert forall|i: int| 0 <= i < fields.len() implies (#[trigger] fields[i]).in_grid()
            && fields[i].parcel() == parcel by {
            assert(fields.contains(fields[i]));
        }
        assert forall|i: int| 0 <= i < lacking.len() implies #[trigger] lacking[i] <= 9 by {
            assert(lacking.contains(lacking[i]));
        }
        lemma_assigned(before, fields, lacking, fields.len(), parcel);
        lemma_assigned_cells(before, fields, lacking, fields.len());
        lemma_assigned_cells(cells, fields, lacking, fields.len());
        assert forall|k: int| 0 <= k < 9 implies parcel_values(after, parcel)[k] == parcel_values(
            alone,
            parcel,
        )[k] by {
            let f = parcel_field(parcel, k / 3, k % 3);
            lemma_parcel_field(parcel, k);
            if exists|i: int| 0 <= i < fields.len() && fields[i] == f {
                let i = choose|i: int| 0 <= i < fields.len() && fields[i] == f;
                assert(cell(after, fields[i]) == lacking[i]);
                assert(cell(alone, fields[i]) == lacking[i]);
            } else {
                assert(cell(after, f) == cell(before, f));
                assert(cell(alone, f) == cell(cells, f));
                assert(parcel_values(before, parcel)[k] == parcel_values(cells, parcel)[k]);
            }
        }
        assert(parcel_values(after, parcel) =~= parcel_values(alone, parcel));
        assert forall|q: int| 0 <= q < count implies #[trigger] parcel_values(after, q)
            == parcel_values(filled_parcel(cells, mutable, q), q) by {
            if q < parcel {
                assert(parcel_values(after, q) == parcel_values(before, q));
            }
        }
    }
}

/// Filling leaves every parcel whose given digits are all different with
/// each of the digits from 1 to 9 exactly once.
///
/// This holds of a grid as it is made or read: its mutable fields are its
/// empty fields.
pub proof fn lemma_filled_parcel_holds_each_digit(cells: Seq<Seq<u8>>, parcel: int)
    requires
        is_grid(cells),
        0 <= parcel < 9,
        unique_digits(parcel_values(cells, parcel)),
    ensures
        holds_each_digit_once(parcel_values(filled(cells, empty_fields(cells)), parcel)),
{
    let mutable = empty_fields(cells);
    let given = parcel_values(cells, parcel);
    let fields = fields_in_parcel(mutable, parcel);
    let lacking = missing_digits(given);
    let alone = filled_parcel(cells, mutable, parcel);
    let values = parcel_values(alone, parcel);
    lemma_empty_fields(cells);
    lemma_fresh_can_fill(cells);
    lemma_filled_upto(cells, mutable, 9);
    lemma_fresh_parcel(cells, parcel);
    lemma_empty_in_parcel(cells, parcel, 9);
    lemma_fields_in_parcel(mutable, parcel);
    lemma_missing_upto(given, 9);
    assert forall|i: int| 0 <= i < 9 implies #[trigger] given[i] <= 9 by {
        lemma_parcel_field(parcel, i);
    }
    lemma_missing_count(given);
    assert(lacking.len() == fields.len());
    assert forall|i: int| 0 <= i < lacking.len() implies 1 <= #[trigger] lacking[i] <= 9
        && !given.contains(lacking[i]) by {
        assert(lacking.contains(lacking[i]));
    }
    lemma_assigned_cells(cells, fields, lacking, fields.len());
    // What stands at each place after the filling.
    assert forall|k: int| 0 <= k < 9 implies if given[k] == 0 {
        exists|i: int| 0 <= i < fields.len() && fields[i] == parcel_field(parcel, k / 3, k % 3)
            && #[trigger] values[k] == lacking[i]
    } else {
        values[k] == given[k]
    } by {
        let f = parcel_field(parcel, k / 3, k % 3);
        lemma_parcel_field(parcel, k);
        if given[k] == 0 {
            assert(fields.contains(f));
            let i = choose|i: int| 0 <= i < fields.len() && fields[i] == f;
            assert(cell(alone, fields[i]) == lacking[i]);
        } else {
            assert forall|i: int| 0 <= i < fields.len() implies fields[i] != f by {
                assert(fields.contains(fields[i]));
            }
            assert(cell(alone, f) == cell(cells, f));
        }
    }
    assert forall|k: int| 0 <= k < 9 implies 1 <= #[trigger] values[k] <= 9 by {
        lemma_parcel_field(parcel, k);
        if given[k] == 0 {
            let i = choose|i: int|
                0 <= i < fields.len() && fields[i] == parcel_field(parcel, k / 3, k % 3) && values[k]
                    == lacking[i];
        }
    }
    assert forall|a: int, b: int| 0 <= a < values.len() && 0 <= b < values.len() && a != b implies values[a]
        != values[b] by {
        lemma_parcel_field(parcel, a);
        lemma_parcel_field(parcel, b);
        if given[a] == 0 && given[b] == 0 {
            let i = choose|i: int|
                0 <= i < fields.len() && fields[i] == parcel_field(parcel, a / 3, a % 3) && values[a]
                    == lacking[i];
            let j = choose|j: int|
                0 <= j < fields.len() && fields[j] == parcel_field(parcel, b / 3, b % 3) && values[b]
                    == lacking[j];
            assert(i != j);
            if i < j {
                assert(lacking[i] < lacking[j]);
            } else {
                assert(lacking[j] < lacking[i]);
            }
        } else if given[a] == 0 {
            let i = choose|i: int|
                0 <= i < fields.len() && fields[i] == parcel_field(parcel, a / 3, a % 3) && values[a]
                    == lacking[i];
            assert(!given.contains(lacking[i]));
            assert(given.contains(given[b]));
        } else if given[b] == 0 {
            let j = choose|j: int|
                0 <= j < fields.len() && fields[j] == parcel_field(parcel, b / 3, b % 3) && values[b]
                    == lacking[j];
            assert(!given.contains(lacking[j]));
            assert(given.contains(given[a]));
        } else {
            if a < b {
                assert(given[a] != given[b]);
            } else {
                assert(given[b] != given[a]);
            }
        }
    }
    lemma_nine_digits(values);
    assert(parcel_values(filled(cells, mutable), parcel) == values);
}

} // verus!
