//! Solving by a Monte Carlo search: simulated annealing over swaps inside
//! parcels.

use rand::rngs::StdRng;
use rand::seq::SliceRandom;
use rand::Rng;
use vstd::prelude::*;
use crate::cells::{
    cell, empty_fields, fields_in_parcel, is_grid, lemma_cleared_restores,
    lemma_write_keeps_outside, ordered, parcel_values, same_outside, swapped, with_cell,
};
use crate::common::{
    distinct, holds, lemma_distinct, lemma_without_zeros, nonzero_values, unique, without_zeros,
};
use crate::error::SudokuError;
use crate::field::Field;
use crate::rules;
use crate::rules::{done, holds_each_digit_once, valid_parcel};
use crate::solver::annealing::{
    lemma_same_digits_each_once, lemma_same_parcel_digits_chain, lemma_shuffled_pair,
    lemma_swapped, lemma_swapped_twice, proposed, same_parcel_digits, settled, settled_energy,
};
use crate::solver::energy::{energy, lemma_no_energy_is_solved};
use crate::solver::filling::{
    assigned, can_fill, filled, filled_parcel, filled_upto, lemma_assigned, lemma_fields_in_parcel,
    lemma_filled_parcel_holds_each_digit, lemma_missing_same, lemma_missing_upto, missing_digits,
    missing_upto,
};
use crate::solver::Solver;
use crate::sudoku::Sudoku;

verus! {

/// The random number generator of the `rand` crate that a Monte Carlo solver
/// draws from. Nothing is known of its state.
#[verifier::external_type_specification]
#[verifier::external_body]
pub struct ExStdRng(StdRng);

/// The number of parcels of a grid.
pub const PARCELS: u8 = 9;

/// Draws a number below `bound` with `Rng::gen_range(0, bound)`.
///
/// The call returns a number from 0 up to, but not including, the bound;
/// which one is left open. It panics where the bound is 0, so that is left
/// out.
#[verifier::external_body]
fn random_below(rng: &mut StdRng, bound: u8) -> (index: u8)
    requires
        bound > 0,
    ensures
        index < bound,
{
    rng.gen_range(0, bound)
}

/// Shuffles the fields in place with `SliceRandom::shuffle`.
///
/// The call swaps items of the slice among each other, so afterwards it
/// holds the same fields, each as often as before; their order is left open.
#[verifier::external_body]
fn shuffle(fields: &mut Vec<Field>, rng: &mut StdRng)
    ensures
        final(fields)@.to_multiset() == old(fields)@.to_multiset(),
{
    fields.shuffle(rng);
}

/// The rule by which a Monte Carlo solver keeps or undoes a swap that has
/// raised the energy. Swaps that do not raise it are always kept and never
/// come here.
///
/// The classic rule keeps such a swap with the probability
/// `exp((energy_last - energy) / temperature)`. An implementation may draw
/// from the solver's random number generator, which it is handed.
///
/// Nothing is assumed of what an implementation answers. The solver does
/// rely on it to answer: it goes on with a try only once `accept` has
/// returned.
pub trait Acceptance {
    /// Decides whether the swap that took the energy from `energy_last` up
    /// to `energy` is kept.
    fn accept(&mut self, rng: &mut StdRng, energy_last: u32, energy: u32) -> bool;
}

/// The Monte Carlo solver. It first fills every parcel with the digits that
/// it lacks, and then swaps pairs of mutable fields inside randomly chosen
/// parcels, keeping a swap by the rule of simulated annealing, until the
/// energy is zero or the tries are used up.
pub struct Montecarlo<A: Acceptance> {
    max_tries: u32,
    tries: u32,
    rng: StdRng,
    acceptance: A,
}

/// Lists the digits from 1 to 9 that do not occur among the values.
pub fn missing(values: Vec<u8>) -> (lacking: Vec<u8>)
    ensures
        lacking@ == missing_digits(values@),
{
    let ghost given = values@;
    let unique_values = nonzero_values(&unique(values));
    proof {
        lemma_distinct(given);
        lemma_without_zeros(distinct(given));
        assert forall|d: u8| 1 <= d implies (#[trigger] unique_values@.contains(d) <==> given.contains(
            d,
        )) by {
            assert(without_zeros(distinct(given)).contains(d) <==> distinct(given).contains(d));
        }
    }
    let mut lacking: Vec<u8> = Vec::new();
    let mut digit: u8 = 1;
    while digit <= 9
        invariant
            1 <= digit <= 10,
            lacking@ == missing_upto(unique_values@, (digit - 1) as nat),
        decreases 10 - digit,
    {
        if !holds(&unique_values, digit) {
            lacking.push(digit);
        }
        digit += 1;
    }
    proof {
        lemma_missing_same(unique_values@, given, 9);
    }
    lacking
}

/// Tests whether the parcels of a puzzle can be filled: whether none has
/// more mutable fields than it lacks digits.
pub fn can_initialize(sudoku: &Sudoku) -> (can: bool)
    requires
        sudoku.wf(),
    ensures
        can == can_fill(sudoku.grid@, sudoku.grid.mutable()),
{
    let mut pi: u8 = 0;
    while pi < 9
        invariant
            pi <= 9,
            sudoku.wf(),
            forall|p: int|
                0 <= p < pi ==> fields_in_parcel(sudoku.grid.mutable(), p).len() <= missing_digits(
                    #[trigger] parcel_values(sudoku.grid@, p),
                ).len(),
        decreases 9 - pi,
    {
        let fields = sudoku.grid.get_mutable_fields_of_parcel(pi);
        let diff = missing(sudoku.get_parcel_values(pi));
        if fields.len() > diff.len() {
            assert(parcel_values(sudoku.grid@, pi as int).len() == 9);
            return false;
        }
        pi += 1;
    }
    true
}

/// Fills every parcel with the digits that it lacks: its mutable fields
/// take them, in row-major order, ascending.
pub fn initialize(sudoku: Sudoku) -> (ready: Sudoku)
    requires
        sudoku.wf(),
        can_fill(sudoku.grid@, sudoku.grid.mutable()),
    ensures
        ready.wf(),
        ready.grid.mutable() == sudoku.grid.mutable(),
        ready.grid@ == filled(sudoku.grid@, sudoku.grid.mutable()),
        same_outside(ready.grid@, sudoku.grid@, sudoku.grid.mutable()),
        forall|p: int|
            0 <= p < 9 && sudoku.grid.mutable() == empty_fields(sudoku.grid@) && valid_parcel(
                sudoku.grid@,
                p,
            ) ==> holds_each_digit_once(#[trigger] parcel_values(ready.grid@, p)),
{
    let mut sudoku = sudoku;
    let ghost start = sudoku.grid@;
    let ghost mutable = sudoku.grid.mutable();
    let mut pi: u8 = 0;
    while pi < 9
        invariant
            pi <= 9,
            sudoku.wf(),
            sudoku.grid.mutable() == mutable,
            is_grid(start),
            can_fill(start, mutable),
            sudoku.grid@ == filled_upto(start, mutable, pi as nat),
            same_outside(sudoku.grid@, start, mutable),
            forall|q: int|
                pi <= q < 9 ==> #[trigger] parcel_values(sudoku.grid@, q) == parcel_values(
                    start,
                    q,
                ),
        decreases 9 - pi,
    {
        let ghost before = sudoku.grid@;
        let fields = sudoku.grid.get_mutable_fields_of_parcel(pi);
        let diff = missing(sudoku.get_parcel_values(pi));
        proof {
            lemma_fields_in_parcel(mutable, pi as int);
            lemma_missing_upto(parcel_values(before, pi as int), 9);
            assert(parcel_values(before, pi as int) == parcel_values(start, pi as int));
            assert forall|i: int| 0 <= i < fields@.len() implies (#[trigger] fields@[i]).in_grid()
                && fields@[i].parcel() == pi && mutable.contains(fields@[i]) by {
                assert(fields@.contains(fields@[i]));
            }
            assert forall|i: int| 0 <= i < diff@.len() implies #[trigger] diff@[i] <= 9 by {
                assert(diff@.contains(diff@[i]));
            }
        }
        let mut i: usize = 0;
        while i < fields.len()
            invariant
                i <= fields.len(),
                fields.len() <= diff.len(),
                sudoku.wf(),
                sudoku.grid.mutable() == mutable,
                sudoku.grid@ == assigned(before, fields@, diff@, i as nat),
                forall|k: int| 0 <= k < fields@.len() ==> (#[trigger] fields@[k]).in_grid(),
                forall|k: int| 0 <= k < diff@.len() ==> #[trigger] diff@[k] <= 9,
            decreases fields.len() - i,
        {
            let _ = sudoku.grid.set(&fields[i], diff[i]);
            i += 1;
        }
        proof {
            lemma_assigned(before, fields@, diff@, fields@.len(), pi as int);
            assert(sudoku.grid@ == filled_parcel(before, mutable, pi as int));
            assert forall|r: int, c: int|
                0 <= r < 9 && 0 <= c < 9 && !mutable.contains(
                    Field { row: r as u8, column: c as u8 },
                ) implies #[trigger] sudoku.grid@[r][c] == start[r][c] by {
                let f = Field { row: r as u8, column: c as u8 };
                if fields@.contains(f) {
                    let k = choose|k: int| 0 <= k < fields@.len() && fields@[k] == f;
                    assert(mutable.contains(fields@[k]));
                }
                assert(before[r][c] == start[r][c]);
            }
        }
        pi += 1;
    }
    proof {
        assert forall|p: int|
            0 <= p < 9 && mutable == empty_fields(start) && valid_parcel(
                start,
                p,
            ) implies holds_each_digit_once(#[trigger] parcel_values(sudoku.grid@, p)) by {
            lemma_filled_parcel_holds_each_digit(start, p);
        }
    }
    sudoku
}

/// Makes the proposal of a try, given the mutable fields of the drawn parcel
/// as they were shuffled: exchanges the digits of the first two of them, if
/// there are two, and computes the energy of what that gives.
pub fn propose(sudoku: Sudoku, shuffled: &Vec<Field>) -> (out: (Sudoku, u32))
    requires
        sudoku.wf(),
    ensures
        out.0.wf(),
        out.0.grid.mutable() == sudoku.grid.mutable(),
        out.0.grid@ == proposed(sudoku.grid@, shuffled@),
        out.1 == energy(out.0.grid@),
{
    let mut sudoku = sudoku;
    if shuffled.len() >= 2 {
        let _ = sudoku.grid.swap(&shuffled[0], &shuffled[1]);
    }
    let energy: u32 = sudoku.calc_energy();
    (sudoku, energy)
}

/// Ends a try, given the proposed grid, its energy, the energy before and
/// what the acceptance rule said: a proposal that did not raise the energy,
/// or that was accepted, stays, and its energy is handed on; any other is
/// undone by the same exchange, and the energy before is handed on.
pub fn settle(
    sudoku: Sudoku,
    shuffled: &Vec<Field>,
    energy_last: u32,
    energy: u32,
    accepted: bool,
) -> (out: (Sudoku, u32))
    requires
        sudoku.wf(),
    ensures
        out.0.wf(),
        out.0.grid.mutable() == sudoku.grid.mutable(),
        out.0.grid@ == settled(
            sudoku.grid@,
            shuffled@,
            energy_last as int,
            energy as int,
            accepted,
        ),
        out.1 == settled_energy(energy_last as int, energy as int, accepted),
{
    let mut sudoku = sudoku;
    if energy <= energy_last || accepted {
        (sudoku, energy)
    } else {
        if shuffled.len() >= 2 {
            let _ = sudoku.grid.swap(&shuffled[0], &shuffled[1]);
        }
        (sudoku, energy_last)
    }
}

impl<A: Acceptance> Montecarlo<A> {
    /// A solver that has counted no try yet and stops at `max_tries`. It
    /// draws from `rng` and keeps swaps that raise the energy as
    /// `acceptance` decides.
    pub fn new(max_tries: u32, rng: StdRng, acceptance: A) -> (solver: Self)
        ensures
            solver.tries() == 0,
            solver.max_tries() == max_tries,
    {
        Montecarlo { max_tries, tries: 0, rng, acceptance }
    }

    /// What became of the search: `Ok` after a success, `SolveExhausted`
    /// where the tries reached the ceiling.
    pub fn status(&self) -> (status: Result<(), SudokuError>)
        ensures
            status == if self.success() {
                Ok::<(), SudokuError>(())
            } else {
                Err::<(), SudokuError>(SudokuError::SolveExhausted)
            },
    {
        if self.tries < self.max_tries {
            Ok(())
        } else {
            Err(SudokuError::SolveExhausted)
        }
    }
}

impl<A: Acceptance> Solver for Montecarlo<A> {
    closed spec fn tries(&self) -> nat {
        self.tries as nat
    }

    closed spec fn max_tries(&self) -> nat {
        self.max_tries as nat
    }

    /// The tries stayed below the ceiling.
    open spec fn success(&self) -> bool {
        self.tries() < self.max_tries()
    }

    /// A well-formed puzzle in which each mutable field of a parcel can take
    /// one of the digits that the parcel lacks, as long as the counter of
    /// tries can still count.
    open spec fn accepts(&self, sudoku: &Sudoku) -> bool {
        &&& sudoku.wf()
        &&& can_fill(sudoku.grid@, sudoku.grid.mutable())
        &&& self.tries() < u32::MAX
    }

    fn is_success(&self) -> (success: bool) {
        self.tries < self.max_tries
    }

    fn get_tries(&self) -> (tries: u32) {
        self.tries
    }

    /// Fills the parcels and then swaps until the puzzle is done with an
    /// energy of zero, or until the tries reach the ceiling.
    ///
    /// Each try draws a parcel and shuffles its mutable fields. What becomes
    /// of the grid from there is `propose`, and after the acceptance rule was
    /// asked about a rise of the energy, `settle`: the digits of the first
    /// two fields are exchanged, and the exchange is kept if it does not
    /// raise the energy or the rule accepts it, and else undone. A parcel
    /// with fewer than two mutable fields has no pair to offer: the try is
    /// counted and the grid stays.
    ///
    /// Whatever is drawn, every parcel of the grid that comes back holds the
    /// digits that it held when it was filled. A grid that is done with no
    /// energy right after filling comes back as it is, without a try; else
    /// at least one try is counted, and no more than the ceiling allows. A
    /// success on a puzzle as it is made or read leaves a solved grid.
    fn solve(&mut self, sudoku: Sudoku) -> (solved: Sudoku)
        ensures
            same_parcel_digits(solved.grid@, filled(sudoku.grid@, sudoku.grid.mutable())),
            final(self).success() ==> energy(solved.grid@) == 0,
            sudoku.grid.mutable() == empty_fields(sudoku.grid@) && final(self).success()
                ==> rules::solved(solved.grid@),
            forall|p: int|
                0 <= p < 9 && sudoku.grid.mutable() == empty_fields(sudoku.grid@) && valid_parcel(
                    sudoku.grid@,
                    p,
                ) ==> holds_each_digit_once(#[trigger] parcel_values(solved.grid@, p)),
            if done(filled(sudoku.grid@, sudoku.grid.mutable()), sudoku.grid.mutable()) && energy(
                filled(sudoku.grid@, sudoku.grid.mutable()),
            ) == 0 {
                &&& final(self).tries() == old(self).tries()
                &&& solved.grid@ == filled(sudoku.grid@, sudoku.grid.mutable())
            } else {
                &&& old(self).tries() < final(self).tries()
                &&& final(self).tries() == old(self).tries() + 1 || final(self).tries() <= old(
                    self,
                ).max_tries()
            },
    {
        let ghost start = sudoku.grid@;
        let ghost mutable = sudoku.grid.mutable();
        let mut sudoku = initialize(sudoku);
        let ghost ready = sudoku.grid@;
        let mut energy_last: u32 = sudoku.calc_energy();
        loop
            invariant_except_break
                self.tries < u32::MAX,
                self.tries == old(self).tries || (old(self).tries < self.tries < self.max_tries),
            invariant
                sudoku.wf(),
                ordered(mutable),
                sudoku.grid.mutable() == mutable,
                self.max_tries == old(self).max_tries,
                self.tries >= old(self).tries,
                same_outside(sudoku.grid@, start, mutable),
                same_parcel_digits(sudoku.grid@, ready),
                energy_last == energy(sudoku.grid@),
                self.tries == old(self).tries ==> sudoku.grid@ == ready,
                self.tries > old(self).tries ==> !(done(ready, mutable) && energy(ready) == 0),
            ensures
                self.tries < self.max_tries ==> done(sudoku.grid@, mutable) && energy(
                    sudoku.grid@,
                ) == 0,
                if done(ready, mutable) && energy(ready) == 0 {
                    self.tries == old(self).tries
                } else {
                    &&& old(self).tries < self.tries
                    &&& self.tries == old(self).tries + 1 || self.tries <= self.max_tries
                },
            decreases self.max_tries - self.tries,
        {
            if sudoku.is_done_with_energy(Some(energy_last)) {
                break;
            }
            let ghost before = sudoku.grid@;
            let rand_pi: u8 = random_below(&mut self.rng, PARCELS);
            let mut mut_fields_parcel = sudoku.grid.get_mutable_fields_of_parcel(rand_pi);
            let ghost listed = mut_fields_parcel@;
            shuffle(&mut mut_fields_parcel, &mut self.rng);
            proof {
                lemma_fields_in_parcel(mutable, rand_pi as int);
                listed.to_multiset_ensures();
                mut_fields_parcel@.to_multiset_ensures();
                if listed.len() >= 2 {
                    assert(listed.no_duplicates()) by {
                        assert forall|i: int, j: int|
                            0 <= i < listed.len() && 0 <= j < listed.len() && i != j implies listed[i]
                            != listed[j] by {
                            if i < j {
                                assert(listed[i].position() < listed[j].position());
                            } else {
                                assert(listed[j].position() < listed[i].position());
                            }
                        }
                    }
                    lemma_shuffled_pair(listed, mut_fields_parcel@);
                    let f1 = mut_fields_parcel@[0];
                    let f2 = mut_fields_parcel@[1];
                    assert(listed.contains(f1) && listed.contains(f2));
                    assert(mutable.contains(f1) && mutable.contains(f2));
                    let k1 = choose|k: int| 0 <= k < mutable.len() && mutable[k] == f1;
                    let k2 = choose|k: int| 0 <= k < mutable.len() && mutable[k] == f2;
                    assert(mutable[k1].in_grid() && mutable[k2].in_grid());
                    lemma_swapped(before, f1, f2);
                    lemma_swapped_twice(before, f1, f2);
                    lemma_write_keeps_outside(
                        before,
                        with_cell(before, f1, cell(before, f2)),
                        start,
                        mutable,
                        f1,
                    );
                    lemma_write_keeps_outside(
                        with_cell(before, f1, cell(before, f2)),
                        swapped(before, f1, f2),
                        start,
                        mutable,
                        f2,
                    );
                    lemma_same_parcel_digits_chain(swapped(before, f1, f2), before, ready);
                }
            }
            let (proposal, energy) = propose(sudoku, &mut_fields_parcel);
            let accepted: bool = energy > energy_last && self.acceptance.accept(
                &mut self.rng,
                energy_last,
                energy,
            );
            let (left, energy_left) = settle(
                proposal,
                &mut_fields_parcel,
                energy_last,
                energy,
                accepted,
            );
            sudoku = left;
            energy_last = energy_left;
            self.tries += 1;
            if self.tries >= self.max_tries {
                break;
            }
        }
        proof {
            if mutable == empty_fields(start) {
                lemma_cleared_restores(start, sudoku.grid@);
            }
            if mutable == empty_fields(start) && self.tries < self.max_tries {
                lemma_no_energy_is_solved(start, sudoku.grid@);
            }
            assert forall|p: int|
                0 <= p < 9 && mutable == empty_fields(start) && valid_parcel(
                    start,
                    p,
                ) implies holds_each_digit_once(#[trigger] parcel_values(sudoku.grid@, p)) by {
                assert(holds_each_digit_once(parcel_values(ready, p)));
                lemma_same_digits_each_once(parcel_values(sudoku.grid@, p), parcel_values(ready, p));
            }
        }
        sudoku
    }
}

} // verus!
