//! The backtracking search as a state machine over the model of a grid, and
//! what it finds.

use vstd::prelude::*;
use crate::cells::{
    cell, empty_fields, is_grid, lemma_empty_fields, lemma_with_cell, lemma_write_keeps_outside,
    same_outside, with_cell,
};
use crate::field::Field;
use crate::rules::{
    all_filled, consistent, done, lemma_consistent_units, lemma_full_is_solved, lemma_next_guess,
    lemma_seen_from, lemma_sees_is_seen, lemma_solved_is_consistent, next_guess, seen, solvable,
    solved, solves, valid_column, valid_parcel, valid_row, valid_units,
};

verus! {

/// How a search ended: the grid it left, the tries counted, and whether it
/// ran out of candidates.
pub struct Outcome {
    pub cells: Seq<Seq<u8>>,
    pub tries: int,
    pub unsolvable: bool,
}

/// Where one step of the search leads: the grid and the index of the field
/// at work after it, and whether the search would have to move back from
/// the first field.
pub struct Step {
    pub cells: Seq<Seq<u8>>,
    pub index: int,
    pub stuck: bool,
}

/// One step of the search. The field at work takes its next guess and the
/// search moves on to the next field; if it has no next guess, it is emptied
/// and the search moves back to the field before.
pub open spec fn step(cells: Seq<Seq<u8>>, mutable: Seq<Field>, index: int) -> Step {
    let field = mutable[index];
    match next_guess(cells, field, cell(cells, field)) {
        Some(guess) => Step { cells: with_cell(cells, field, guess), index: index + 1, stuck: false },
        None => Step { cells: with_cell(cells, field, 0), index: index - 1, stuck: index == 0 },
    }
}

/// The search from a state on, until it ends.
///
/// The state is the grid, the index of the mutable field at work and the
/// tries counted. A grid that is done ends the search. Else a step is taken
/// and counted as one try, and the search ends when the tries reach the
/// ceiling. It ends as unsolvable when it would move back from the first
/// field, or when no field is left to work on.
pub open spec fn search(
    cells: Seq<Seq<u8>>,
    mutable: Seq<Field>,
    index: int,
    tries: int,
    max_tries: int,
) -> Outcome
    decreases max_tries - tries,
{
    if done(cells, mutable) {
        Outcome { cells, tries, unsolvable: false }
    } else if !(0 <= index < mutable.len()) {
        Outcome { cells, tries, unsolvable: true }
    } else {
        let next = step(cells, mutable, index);
        if next.stuck || tries + 1 >= max_tries {
            Outcome { cells: next.cells, tries: tries + 1, unsolvable: next.stuck }
        } else {
            search(next.cells, mutable, next.index, tries + 1, max_tries)
        }
    }
}

/// What holds of every state of a search that began at the first mutable
/// field of a consistent grid whose mutable fields were its empty fields:
/// the grid is consistent and as it was outside the mutable fields, the
/// mutable fields before the one at work are filled, and those after it are
/// empty.
pub open spec fn searching(start: Seq<Seq<u8>>, cells: Seq<Seq<u8>>, index: int) -> bool {
    let mutable = empty_fields(start);
    &&& is_grid(start)
    &&& is_grid(cells)
    &&& same_outside(cells, start, mutable)
    &&& consistent(cells)
    &&& 0 <= index <= mutable.len()
    &&& forall|j: int| 0 <= j < index ==> cell(cells, #[trigger] mutable[j]) != 0
    &&& forall|j: int| index < j < mutable.len() ==> cell(cells, #[trigger] mutable[j]) == 0
}

/// A step of the search leads from a state of the search to a state of the
/// search, unless the search is stuck.
pub proof fn lemma_step_keeps_searching(start: Seq<Seq<u8>>, cells: Seq<Seq<u8>>, index: int)
    requires
        searching(start, cells, index),
        index < empty_fields(start).len(),
    ensures
        is_grid(step(cells, empty_fields(start), index).cells),
        same_outside(step(cells, empty_fields(start), index).cells, start, empty_fields(start)),
        !step(cells, empty_fields(start), index).stuck ==> searching(
            start,
            step(cells, empty_fields(start), index).cells,
            step(cells, empty_fields(start), index).index,
        ),
{
    let mutable = empty_fields(start);
    let field = mutable[index];
    let current = cell(cells, field);
    let next = step(cells, mutable, index);
    lemma_empty_fields(start);
    assert(field.in_grid());
    assert(mutable.contains(field));
    assert(cells[field.row as int][field.column as int] <= 9);
    lemma_next_guess(cells, field, current);
    assert forall|j: int| 0 <= j < mutable.len() && j != index implies #[trigger] mutable[j]
        != field by {
        if j < index {
            assert(mutable[j].position() < mutable[index].position());
        } else {
            assert(mutable[index].position() < mutable[j].position());
        }
    }
    match next_guess(cells, field, current) {
        Some(guess) => {
            lemma_with_cell(cells, field, guess);
            lemma_write_keeps_outside(cells, next.cells, start, mutable, field);
            assert forall|a: Field, b: Field|
                a.in_grid() && b.in_grid() && a != b && #[trigger] a.sees(b) && cell(next.cells, a)
                    != 0 implies cell(next.cells, a) != cell(next.cells, b) by {
                if a == field {
                    lemma_sees_is_seen(cells, field, b);
                } else if b == field {
                    assert(field.sees(a));
                    lemma_sees_is_seen(cells, field, a);
                }
            }
            assert forall|j: int| 0 <= j < index + 1 implies cell(next.cells, #[trigger] mutable[j])
                != 0 by {
                if j < index {
                    assert(mutable[j] != field);
                    assert(mutable[j].in_grid());
                }
            }
            assert forall|j: int| index + 1 < j < mutable.len() implies cell(
                next.cells,
                #[trigger] mutable[j],
            ) == 0 by {
                assert(mutable[j] != field);
                assert(mutable[j].in_grid());
            }
        },
        None => {
            lemma_with_cell(cells, field, 0);
            lemma_write_keeps_outside(cells, next.cells, start, mutable, field);
            if index > 0 {
                assert forall|a: Field, b: Field|
                    a.in_grid() && b.in_grid() && a != b && #[trigger] a.sees(b) && cell(
                        next.cells,
                        a,
                    ) != 0 implies cell(next.cells, a) != cell(next.cells, b) by {
                    if a != field && b != field {
                        assert(cell(cells, a) != cell(cells, b));
                    }
                }
                assert forall|j: int| 0 <= j < index - 1 implies cell(
                    next.cells,
                    #[trigger] mutable[j],
                ) != 0 by {
                    assert(mutable[j] != field);
                    assert(mutable[j].in_grid());
                }
                assert forall|j: int| index - 1 < j < mutable.len() implies cell(
                    next.cells,
                    #[trigger] mutable[j],
                ) == 0 by {
                    if j != index {
                        assert(mutable[j] != field);
                        assert(mutable[j].in_grid());
                    }
                }
            }
        },
    }
}

/// A state of the search in which no mutable field is empty is a solved
/// grid.
pub proof fn lemma_filled_state_is_solved(start: Seq<Seq<u8>>, cells: Seq<Seq<u8>>, index: int)
    requires
        searching(start, cells, index),
        all_filled(cells, empty_fields(start)),
    ensures
        solved(cells),
        done(cells, empty_fields(start)),
{
    let mutable = empty_fields(start);
    lemma_empty_fields(start);
    assert forall|f: Field| f.in_grid() implies #[trigger] cell(cells, f) != 0 by {
        if mutable.contains(f) {
            let j = choose|j: int| 0 <= j < mutable.len() && mutable[j] == f;
            assert(cell(cells, mutable[j]) != 0);
        } else {
            assert(cell(start, f) != 0);
            assert(cells[f.row as int][f.column as int] == start[f.row as int][f.column as int]);
        }
    }
    lemma_full_is_solved(cells);
    lemma_consistent_units(cells);
    assert forall|p: int| 0 <= p < 9 implies valid_parcel(cells, p) by {
        assert(valid_row(cells, p) && valid_column(cells, p) && valid_parcel(cells, p));
    }
}

/// A search that goes on from a state of the search and ends below the
/// ceiling without being stuck ends with a solved grid. However it ends, the
/// grid is as it was outside the mutable fields.
pub proof fn lemma_search_from_state(
    start: Seq<Seq<u8>>,
    cells: Seq<Seq<u8>>,
    index: int,
    tries: int,
    max_tries: int,
)
    requires
        searching(start, cells, index),
    ensures
        ({
            let end = search(cells, empty_fields(start), index, tries, max_tries);
            &&& is_grid(end.cells)
            &&& same_outside(end.cells, start, empty_fields(start))
            &&& end.tries >= tries
            &&& !end.unsolvable && end.tries < max_tries ==> solved(end.cells) && done(
                end.cells,
                empty_fields(start),
            )
        }),
    decreases max_tries - tries,
{
    let mutable = empty_fields(start);
    if done(cells, mutable) {
        lemma_filled_state_is_solved(start, cells, index);
    } else if !(0 <= index < mutable.len()) {
    } else {
        let next = step(cells, mutable, index);
        lemma_step_keeps_searching(start, cells, index);
        if next.stuck || tries + 1 >= max_tries {
        } else {
            lemma_search_from_state(start, next.cells, next.index, tries + 1, max_tries);
        }
    }
}

/// What backtracking finds is a solution. The search on a grid as it is made
/// or read, with valid rows, columns and parcels, leaves every cell that was
/// filled as it was; and if it ends below the ceiling and not as unsolvable,
/// every row, column and parcel of the grid that it leaves holds each digit
/// from 1 to 9 exactly once.
pub proof fn lemma_backtracing_sound(cells: Seq<Seq<u8>>, tries: int, max_tries: int)
    requires
        is_grid(cells),
        valid_units(cells),
    ensures
        ({
            let end = search(cells, empty_fields(cells), 0, tries, max_tries);
            &&& same_outside(end.cells, cells, empty_fields(cells))
            &&& !end.unsolvable && end.tries < max_tries ==> solved(end.cells)
        }),
{
    lemma_start_is_searching(cells);
    lemma_search_from_state(cells, cells, 0, tries, max_tries);
}

/// A grid with valid rows, columns and parcels is, with its empty fields
/// for mutable fields, a state from which a search begins.
pub proof fn lemma_start_is_searching(cells: Seq<Seq<u8>>)
    requires
        is_grid(cells),
        valid_units(cells),
    ensures
        searching(cells, cells, 0),
{
    let mutable = empty_fields(cells);
    lemma_empty_fields(cells);
    lemma_consistent_units(cells);
    assert forall|j: int| 0 < j < mutable.len() implies cell(cells, #[trigger] mutable[j]) == 0 by {
        assert(mutable.contains(mutable[j]));
    }
}

/// The weight of one candidate of a mutable field, by the number of mutable
/// fields from it to the last: one more than the tries that the search can
/// spend on the fields after it before it comes back.
pub open spec fn weight(left: nat) -> nat
    decreases left,
{
    if left <= 1 {
        left
    } else {
        9 * weight((left - 1) as nat) + 2
    }
}

/// A number of tries within which every search over so many mutable fields
/// ends.
pub open spec fn search_bound(fields: nat) -> nat {
    9 * weight(fields)
}

/// The part of the progress that the fields before the one at work account
/// for.
pub open spec fn progress_before(cells: Seq<Seq<u8>>, mutable: Seq<Field>, index: nat) -> int
    decreases index,
{
    if index == 0 {
        0
    } else {
        progress_before(cells, mutable, (index - 1) as nat) + (cell(cells, mutable[index - 1]) - 1)
            * weight((mutable.len() - (index - 1)) as nat) + 1
    }
}

/// The progress of a search: a number that grows with every step and never
/// passes the bound of the search.
pub open spec fn progress(cells: Seq<Seq<u8>>, mutable: Seq<Field>, index: int) -> int {
    progress_before(cells, mutable, index as nat) + if index < mutable.len() {
        cell(cells, mutable[index]) * weight((mutable.len() - index) as nat)
    } else {
        0
    }
}

/// A solution holds, in the first `count` mutable fields, what the grid
/// holds.
pub open spec fn agrees(
    solution: Seq<Seq<u8>>,
    cells: Seq<Seq<u8>>,
    mutable: Seq<Field>,
    count: int,
) -> bool {
    forall|j: int| 0 <= j < count ==> cell(solution, #[trigger] mutable[j]) == cell(cells, mutable[j])
}

/// The search has passed a solution at the mutable field `k`: the solution
/// holds in the fields before it what the grid holds, and in that field a
/// digit that the search has done with.
pub open spec fn passed_at(
    solution: Seq<Seq<u8>>,
    cells: Seq<Seq<u8>>,
    mutable: Seq<Field>,
    index: int,
    k: int,
) -> bool {
    &&& 0 <= k <= index
    &&& k < mutable.len()
    &&& agrees(solution, cells, mutable, k)
    &&& if k < index {
        cell(solution, mutable[k]) < cell(cells, mutable[k])
    } else {
        cell(solution, mutable[k]) <= cell(cells, mutable[k])
    }
}

/// The search has passed a solution.
pub open spec fn passed(
    solution: Seq<Seq<u8>>,
    cells: Seq<Seq<u8>>,
    mutable: Seq<Field>,
    index: int,
) -> bool {
    exists|k: int| passed_at(solution, cells, mutable, index, k)
}

/// A weight is not smaller than nine times the weight of the next field
/// and one.
pub proof fn lemma_weight(left: nat)
    ensures
        weight(left + 1) >= 9 * weight(left) + 1,
        left >= 1 ==> weight(left + 1) == 9 * weight(left) + 2,
{
    reveal_with_fuel(weight, 2);
}

/// The part of the progress before a field depends on the fields before it
/// alone.
pub proof fn lemma_progress_before_same(
    a: Seq<Seq<u8>>,
    b: Seq<Seq<u8>>,
    mutable: Seq<Field>,
    index: nat,
)
    requires
        index <= mutable.len(),
        forall|j: int| 0 <= j < index ==> cell(a, #[trigger] mutable[j]) == cell(b, mutable[j]),
    ensures
        progress_before(a, mutable, index) == progress_before(b, mutable, index),
    decreases index,
{
    if index > 0 {
        lemma_progress_before_same(a, b, mutable, (index - 1) as nat);
        assert(cell(a, mutable[index - 1]) == cell(b, mutable[index - 1]));
    }
}

/// The progress before a field, with all that the field and those after it
/// can add, stays within the bound.
pub proof fn lemma_progress_before_bound(cells: Seq<Seq<u8>>, mutable: Seq<Field>, index: nat)
    requires
        index <= mutable.len(),
        forall|j: int| 0 <= j < mutable.len() ==> cell(cells, #[trigger] mutable[j]) <= 9,
    ensures
        progress_before(cells, mutable, index) + 9 * weight((mutable.len() - index) as nat)
            <= search_bound(mutable.len()),
    decreases index,
{
    if index > 0 {
        let value = cell(cells, mutable[index - 1]) as int;
        let here = weight((mutable.len() - (index - 1)) as nat) as int;
        let next = weight((mutable.len() - index) as nat) as int;
        lemma_progress_before_bound(cells, mutable, (index - 1) as nat);
        lemma_weight((mutable.len() - index) as nat);
        assert(here >= 9 * next + 1);
        assert((value - 1) * here <= 8 * here) by (nonlinear_arith)
            requires
                value <= 9,
                here >= 0,
        ;
    }
}

/// The progress of a state of a search stays within the bound.
pub proof fn lemma_progress_bound(cells: Seq<Seq<u8>>, mutable: Seq<Field>, index: int)
    requires
        0 <= index <= mutable.len(),
        forall|j: int| 0 <= j < mutable.len() ==> cell(cells, #[trigger] mutable[j]) <= 9,
    ensures
        progress(cells, mutable, index) <= search_bound(mutable.len()),
{
    lemma_progress_before_bound(cells, mutable, index as nat);
    if index < mutable.len() {
        let value = cell(cells, mutable[index]) as int;
        let here = weight((mutable.len() - index) as nat) as int;
        assert(value * here <= 9 * here) by (nonlinear_arith)
            requires
                value <= 9,
                here >= 0,
        ;
    }
}

/// Every step of a search that is not stuck adds to the progress.
pub proof fn lemma_step_adds_progress(start: Seq<Seq<u8>>, cells: Seq<Seq<u8>>, index: int)
    requires
        searching(start, cells, index),
        index < empty_fields(start).len(),
        !step(cells, empty_fields(start), index).stuck,
    ensures
        progress(
            step(cells, empty_fields(start), index).cells,
            empty_fields(start),
            step(cells, empty_fields(start), index).index,
        ) >= progress(cells, empty_fields(start), index) + 1,
{
    let mutable = empty_fields(start);
    let field = mutable[index];
    let current = cell(cells, field) as int;
    let next = step(cells, mutable, index);
    let here = weight((mutable.len() - index) as nat) as int;
    lemma_empty_fields(start);
    lemma_step_keeps_searching(start, cells, index);
    assert(field.in_grid());
    assert(cells[field.row as int][field.column as int] <= 9);
    lemma_next_guess(cells, field, cell(cells, field));
    assert forall|j: int| 0 <= j < mutable.len() && j != index implies cell(
        next.cells,
        #[trigger] mutable[j],
    ) == cell(cells, mutable[j]) by {
        if j < index {
            assert(mutable[j].position() < mutable[index].position());
        } else {
            assert(mutable[index].position() < mutable[j].position());
        }
        assert(mutable[j].in_grid());
        lemma_with_cell(cells, field, cell(next.cells, field));
    }
    match next_guess(cells, field, cell(cells, field)) {
        Some(guess) => {
            lemma_with_cell(cells, field, guess);
            lemma_progress_before_same(cells, next.cells, mutable, index as nat);
            assert(progress_before(next.cells, mutable, (index + 1) as nat) == progress_before(
                next.cells,
                mutable,
                index as nat,
            ) + (guess - 1) * here + 1);
            assert((guess - 1) * here >= current * here) by (nonlinear_arith)
                requires
                    guess - 1 >= current,
                    here >= 0,
            ;
            if index + 1 < mutable.len() {
                assert(cell(next.cells, mutable[index + 1]) == 0);
                assert(0 * weight((mutable.len() - (index + 1)) as nat) == 0);
            }
        },
        None => {
            lemma_with_cell(cells, field, 0);
            let back = weight((mutable.len() - (index - 1)) as nat) as int;
            let kept = cell(cells, mutable[index - 1]) as int;
            lemma_weight((mutable.len() - index) as nat);
            assert(back == 9 * here + 2);
            lemma_progress_before_same(cells, next.cells, mutable, (index - 1) as nat);
            assert(progress_before(cells, mutable, index as nat) == progress_before(
                cells,
                mutable,
                (index - 1) as nat,
            ) + (kept - 1) * back + 1);
            assert(cell(next.cells, mutable[index - 1]) == kept);
            assert(kept * back == (kept - 1) * back + back) by (nonlinear_arith);
            assert(current * here <= 9 * here) by (nonlinear_arith)
                requires
                    current <= 9,
                    here >= 0,
            ;
        },
    }
}

/// A solution that holds in the mutable fields before the one at work what
/// the grid holds does not hold in that field a digit that is seen from it
/// elsewhere in the grid.
pub proof fn lemma_solution_avoids_seen(
    start: Seq<Seq<u8>>,
    solution: Seq<Seq<u8>>,
    cells: Seq<Seq<u8>>,
    index: int,
    digit: u8,
)
    requires
        searching(start, cells, index),
        index < empty_fields(start).len(),
        solves(solution, start),
        agrees(solution, cells, empty_fields(start), index),
        seen(cells, empty_fields(start)[index], digit),
        digit != cell(cells, empty_fields(start)[index]),
        digit != 0,
    ensures
        cell(solution, empty_fields(start)[index]) != digit,
{
    let mutable = empty_fields(start);
    let field = mutable[index];
    lemma_empty_fields(start);
    lemma_solved_is_consistent(solution);
    assert(field.in_grid());
    let other = lemma_seen_from(cells, field, digit);
    assert(other != field);
    if mutable.contains(other) {
        let j = choose|j: int| 0 <= j < mutable.len() && mutable[j] == other;
        if j > index {
            assert(cell(cells, mutable[j]) == 0);
        } else {
            assert(cell(solution, mutable[j]) == cell(cells, mutable[j]));
        }
    } else {
        assert(cells[other.row as int][other.column as int] == start[other.row as int][other.column as int]);
        assert(solution[other.row as int][other.column as int] == start[other.row as int][other.column as int]);
    }
    assert(cell(solution, other) == digit);
    assert(other.sees(field));
}

/// A search that has not passed a solution is not stuck, and its next step
/// does not pass the solution either.
pub proof fn lemma_step_keeps_ahead(
    start: Seq<Seq<u8>>,
    solution: Seq<Seq<u8>>,
    cells: Seq<Seq<u8>>,
    index: int,
)
    requires
        searching(start, cells, index),
        index < empty_fields(start).len(),
        solves(solution, start),
        !passed(solution, cells, empty_fields(start), index),
    ensures
        !step(cells, empty_fields(start), index).stuck,
        !passed(
            solution,
            step(cells, empty_fields(start), index).cells,
            empty_fields(start),
            step(cells, empty_fields(start), index).index,
        ),
{
    let mutable = empty_fields(start);
    let field = mutable[index];
    let current = cell(cells, field);
    let next = step(cells, mutable, index);
    let wanted = cell(solution, field);
    lemma_empty_fields(start);
    lemma_solved_is_consistent(solution);
    assert(field.in_grid());
    assert(1 <= wanted <= 9);
    assert(cells[field.row as int][field.column as int] <= 9);
    lemma_next_guess(cells, field, current);
    assert forall|j: int| 0 <= j < mutable.len() && j != index implies cell(
        next.cells,
        #[trigger] mutable[j],
    ) == cell(cells, mutable[j]) by {
        if j < index {
            assert(mutable[j].position() < mutable[index].position());
        } else {
            assert(mutable[index].position() < mutable[j].position());
        }
        assert(mutable[j].in_grid());
        lemma_with_cell(cells, field, cell(next.cells, field));
    }
    // Where the solution agrees up to the field at work, it holds there a
    // digit above the current one that is not seen.
    if agrees(solution, cells, mutable, index) {
        if wanted <= current {
            assert(passed_at(solution, cells, mutable, index, index));
        }
        if seen(cells, field, wanted) {
            lemma_solution_avoids_seen(start, solution, cells, index, wanted);
        }
    }
    match next_guess(cells, field, current) {
        Some(guess) => {
            lemma_with_cell(cells, field, guess);
            assert forall|k: int| !#[trigger] passed_at(solution, next.cells, mutable, next.index, k) by {
                if passed_at(solution, next.cells, mutable, next.index, k) {
                    assert forall|j: int| 0 <= j < k && j < index implies cell(
                        solution,
                        #[trigger] mutable[j],
                    ) == cell(cells, mutable[j]) by {
                        assert(cell(solution, mutable[j]) == cell(next.cells, mutable[j]));
                    }
                    if k < index {
                        assert(passed_at(solution, cells, mutable, index, k));
                    } else if k == index {
                        assert(agrees(solution, cells, mutable, index));
                    } else {
                        assert(cell(next.cells, mutable[index + 1]) == 0);
                        assert(mutable[index + 1].in_grid());
                    }
                }
            }
        },
        None => {
            lemma_with_cell(cells, field, 0);
            assert(!agrees(solution, cells, mutable, index));
            assert(index > 0);
            assert forall|k: int| !#[trigger] passed_at(solution, next.cells, mutable, next.index, k) by {
                if passed_at(solution, next.cells, mutable, next.index, k) {
                    assert forall|j: int| 0 <= j < k implies cell(solution, #[trigger] mutable[j])
                        == cell(cells, mutable[j]) by {
                        assert(cell(solution, mutable[j]) == cell(next.cells, mutable[j]));
                    }
                    if k < index - 1 {
                        assert(passed_at(solution, cells, mutable, index, k));
                    } else {
                        if cell(solution, mutable[k]) < cell(cells, mutable[k]) {
                            assert(passed_at(solution, cells, mutable, index, k));
                        } else {
                            assert(agrees(solution, cells, mutable, index));
                        }
                    }
                }
            }
        },
    }
}

/// A search that has not passed a solution does not end as unsolvable.
pub proof fn lemma_search_stays_ahead(
    start: Seq<Seq<u8>>,
    solution: Seq<Seq<u8>>,
    cells: Seq<Seq<u8>>,
    index: int,
    tries: int,
    max_tries: int,
)
    requires
        searching(start, cells, index),
        solves(solution, start),
        !passed(solution, cells, empty_fields(start), index),
    ensures
        !search(cells, empty_fields(start), index, tries, max_tries).unsolvable,
    decreases max_tries - tries,
{
    let mutable = empty_fields(start);
    if done(cells, mutable) {
    } else if !(0 <= index < mutable.len()) {
        assert(all_filled(cells, mutable));
        lemma_filled_state_is_solved(start, cells, index);
    } else {
        let next = step(cells, mutable, index);
        lemma_step_keeps_searching(start, cells, index);
        lemma_step_keeps_ahead(start, solution, cells, index);
        if tries + 1 < max_tries {
            lemma_search_stays_ahead(start, solution, next.cells, next.index, tries + 1, max_tries);
        }
    }
}

/// A search that has enough tries left and has not passed a solution finds
/// a solved grid, below the ceiling.
pub proof fn lemma_search_finds(
    start: Seq<Seq<u8>>,
    solution: Seq<Seq<u8>>,
    cells: Seq<Seq<u8>>,
    index: int,
    tries: int,
    max_tries: int,
)
    requires
        searching(start, cells, index),
        solves(solution, start),
        !passed(solution, cells, empty_fields(start), index),
        tries + search_bound(empty_fields(start).len()) - progress(cells, empty_fields(start), index)
            < max_tries,
    ensures
        ({
            let end = search(cells, empty_fields(start), index, tries, max_tries);
            &&& !end.unsolvable
            &&& end.tries < max_tries
            &&& solves(end.cells, start)
        }),
    decreases max_tries - tries,
{
    let mutable = empty_fields(start);
    lemma_empty_fields(start);
    assert forall|j: int| 0 <= j < mutable.len() implies cell(cells, #[trigger] mutable[j]) <= 9 by {
        assert(mutable[j].in_grid());
        assert(cells[mutable[j].row as int][mutable[j].column as int] <= 9);
    }
    lemma_progress_bound(cells, mutable, index);
    if done(cells, mutable) {
        lemma_filled_state_is_solved(start, cells, index);
    } else if !(0 <= index < mutable.len()) {
        assert(all_filled(cells, mutable));
        lemma_filled_state_is_solved(start, cells, index);
    } else {
        let next = step(cells, mutable, index);
        lemma_step_keeps_searching(start, cells, index);
        lemma_step_keeps_ahead(start, solution, cells, index);
        lemma_step_adds_progress(start, cells, index);
        assert forall|j: int| 0 <= j < mutable.len() implies cell(next.cells, #[trigger] mutable[j])
            <= 9 by {
            assert(mutable[j].in_grid());
            assert(next.cells[mutable[j].row as int][mutable[j].column as int] <= 9);
        }
        lemma_progress_bound(next.cells, mutable, next.index);
        lemma_search_finds(start, solution, next.cells, next.index, tries + 1, max_tries);
    }
}

/// Backtracking solves every puzzle that has a solution, given enough
/// tries. The search on a grid as it is made or read, with a ceiling above
/// the tries already counted and the bound of the search, ends below the
/// ceiling and not as unsolvable; in the grid that it leaves, every row,
/// column and parcel holds each digit from 1 to 9 exactly once, and every
/// cell that was filled is as it was.
pub proof fn lemma_backtracing_solves(
    cells: Seq<Seq<u8>>,
    solution: Seq<Seq<u8>>,
    tries: int,
    max_tries: int,
)
    requires
        is_grid(cells),
        solves(solution, cells),
        tries + search_bound(empty_fields(cells).len()) < max_tries,
    ensures
        ({
            let end = search(cells, empty_fields(cells), 0, tries, max_tries);
            &&& !end.unsolvable
            &&& end.tries < max_tries
            &&& solved(end.cells)
            &&& same_outside(end.cells, cells, empty_fields(cells))
        }),
{
    let mutable = empty_fields(cells);
    lemma_empty_fields(cells);
    lemma_start_is_ahead(cells, solution);
    assert(progress(cells, mutable, 0) == 0) by {
        if mutable.len() > 0 {
            assert(mutable.contains(mutable[0]));
            assert(0 * weight(mutable.len()) == 0);
        }
    }
    lemma_search_finds(cells, solution, cells, 0, tries, max_tries);
}

/// A puzzle with a solution is, with its empty fields for mutable fields,
/// a state from which a search begins, and the search has not passed the
/// solution.
pub proof fn lemma_start_is_ahead(cells: Seq<Seq<u8>>, solution: Seq<Seq<u8>>)
    requires
        is_grid(cells),
        solves(solution, cells),
    ensures
        valid_units(cells),
        searching(cells, cells, 0),
        !passed(solution, cells, empty_fields(cells), 0),
{
    let mutable = empty_fields(cells);
    lemma_empty_fields(cells);
    lemma_solved_is_consistent(solution);
    // The puzzle is consistent, as its filled cells are cells of the
    // solution.
    assert forall|a: Field, b: Field|
        a.in_grid() && b.in_grid() && a != b && #[trigger] a.sees(b) && cell(cells, a)
            != 0 implies cell(cells, a) != cell(cells, b) by {
        if cell(cells, a) == cell(cells, b) {
            assert(!mutable.contains(a) && !mutable.contains(b));
            assert(solution[a.row as int][a.column as int] == cells[a.row as int][a.column as int]);
            assert(solution[b.row as int][b.column as int] == cells[b.row as int][b.column as int]);
        }
    }
    lemma_consistent_units(cells);
    lemma_start_is_searching(cells);
    assert forall|k: int| !#[trigger] passed_at(solution, cells, mutable, 0, k) by {
        if passed_at(solution, cells, mutable, 0, k) {
            assert(mutable.contains(mutable[0]));
            assert(mutable[0].in_grid());
        }
    }
}

/// Backtracking gives up on no puzzle that has a solution. The search on a
/// grid as it is made or read ends as unsolvable only where the puzzle has
/// no solution, whatever the ceiling.
pub proof fn lemma_unsolvable_has_no_solution(cells: Seq<Seq<u8>>, tries: int, max_tries: int)
    requires
        is_grid(cells),
        search(cells, empty_fields(cells), 0, tries, max_tries).unsolvable,
    ensures
        !solvable(cells),
{
    if solvable(cells) {
        let solution = choose|solution: Seq<Seq<u8>>| solves(solution, cells);
        lemma_start_is_ahead(cells, solution);
        lemma_search_stays_ahead(cells, solution, cells, 0, tries, max_tries);
    }
}

/// Where a puzzle has one solution only, backtracking with enough tries
/// leaves that solution.
pub proof fn lemma_backtracing_finds_the_solution(
    cells: Seq<Seq<u8>>,
    solution: Seq<Seq<u8>>,
    tries: int,
    max_tries: int,
)
    requires
        is_grid(cells),
        solves(solution, cells),
        forall|other: Seq<Seq<u8>>| #[trigger] solves(other, cells) ==> other == solution,
        tries + search_bound(empty_fields(cells).len()) < max_tries,
    ensures
        search(cells, empty_fields(cells), 0, tries, max_tries).cells == solution,
{
    lemma_backtracing_solves(cells, solution, tries, max_tries);
    assert(solves(search(cells, empty_fields(cells), 0, tries, max_tries).cells, cells));
}

} // verus!
