//! Constraint propagation: filling a cell and cascading what follows.
//!
//! A fill strikes the placed digit from the candidates of the 20 peers of
//! the cell.  A peer that is left with a single candidate is filled with it
//! (naked single), and a unit in which a digit is left with a single cell is
//! filled there (hidden single); each such fill propagates in turn.
use vstd::prelude::*;
use crate::board::{
    cell_to_square, col_unit, digit_at, in_unit, index_to_3x3_coords, lemma_slot_cell, row_unit,
    square_unit, unit_col, unit_row, unit_slot,
};
use crate::cell::{
    candidate_count, count_candidates, first_candidate, has_candidate, lemma_struck_count,
    Candidates, Cell,
};
use crate::error::SolveError;
use crate::occurrences::Group;
use crate::counts::{
    lemma_holder_counts, lemma_live_bounds, lemma_live_counts, lemma_live_monotone,
    lemma_live_zero, lemma_open_counts, live, slot_cell,
};
use crate::account::{
    lemma_certified_filled, lemma_certified_kept, lemma_certified_more, lemma_certified_placed,
    lemma_closure, lemma_only_place,
};
use crate::state::Solver;
use crate::steps::{
    lemma_extends_trans, lemma_filled_from, lemma_hidden_single, lemma_keeps_trans,
    lemma_may_still_ignore,
    lemma_naked_single, lemma_no_new_lone_trans, lemma_pay, lemma_place, lemma_placed_not_lone,
    lemma_hosts_by_slot, lemma_hosts_kept, lemma_one_host, lemma_settles_trans, lemma_stays_unlisted, lemma_strike,
    lemma_struck_digit,
};
use crate::tally::bit;

verus! {

impl Solver {
    /// Whether no valid grid is compatible with this state.
    pub open(crate) spec fn hopeless(&self) -> bool {
        forall|s: Seq<u8>| !#[trigger] self.admits(s)
    }

    /// Flags `value` as placed in the row, the column and the square of
    /// `coords`, unless one of them has it already: then the first of them,
    /// in that order, names the conflict, and nothing is changed.
    fn mark_placed(&mut self, coords: (usize, usize), value: u8) -> (res: Result<(), SolveError>)
        requires
            coords.0 < 9,
            coords.1 < 9,
            1 <= value <= 9,
        ensures
            res is Err ==> *final(self) == *old(self),
            final(self).cells == old(self).cells,
            final(self).candidate_occurrences == old(self).candidate_occurrences,
            final(self).unfilled_cells == old(self).unfilled_cells,
            final(self).brute_force_fills == old(self).brute_force_fills,
            res == match old(self).conflict(coords.0 as int, coords.1 as int, value as int) {
                Some(e) => Err::<(), SolveError>(e),
                None => Ok::<(), SolveError>(()),
            },
            res is Ok ==> forall|g: int, d: int|
                0 <= g < 27 && 1 <= d <= 9 ==> #[trigger] final(self).placed(g, d) == (old(
                    self,
                ).placed(g, d) || (in_unit(g, coords.0 as int, coords.1 as int) && d == value)),
    {
        let square = cell_to_square(coords);
        let digit = (value - 1) as usize;
        if self.value_occurrences.row[coords.0][digit] {
            return Err(SolveError::RowConflict);
        }
        if self.value_occurrences.col[coords.1][digit] {
            return Err(SolveError::ColumnConflict);
        }
        if self.value_occurrences.sqr[square.0][square.1][digit] {
            return Err(SolveError::SquareConflict);
        }
        self.value_occurrences.row[coords.0][digit] = true;
        self.value_occurrences.col[coords.1][digit] = true;
        self.value_occurrences.sqr[square.0][square.1][digit] = true;
        Ok(())
    }

    /// Takes one off the candidate counters of the row, the column and the
    /// square of `coords` for `candidate`.
    fn pay(&mut self, coords: (usize, usize), candidate: u8)
        requires
            coords.0 < 9,
            coords.1 < 9,
            1 <= candidate <= 9,
            forall|g: int|
                0 <= g < 27 && in_unit(g, coords.0 as int, coords.1 as int) ==> #[trigger] old(
                    self,
                ).counter(g, candidate as int) >= 1,
        ensures
            final(self).cells == old(self).cells,
            final(self).value_occurrences == old(self).value_occurrences,
            final(self).unfilled_cells == old(self).unfilled_cells,
            final(self).brute_force_fills == old(self).brute_force_fills,
            forall|g: int, e: int|
                0 <= g < 27 && 1 <= e <= 9 ==> #[trigger] final(self).counter(g, e) == old(
                    self,
                ).counter(g, e) - bit(
                    in_unit(g, coords.0 as int, coords.1 as int) && e == candidate,
                ),
    {
        let square = cell_to_square(coords);
        let candidate_idx = (candidate - 1) as usize;
        assert(old(self).counter(row_unit(coords.0 as int), candidate as int) >= 1);
        assert(old(self).counter(col_unit(coords.1 as int), candidate as int) >= 1);
        assert(old(self).counter(square_unit(coords.0 as int, coords.1 as int), candidate as int)
            >= 1);
        self.candidate_occurrences.row[coords.0][candidate_idx] -= 1;
        self.candidate_occurrences.col[coords.1][candidate_idx] -= 1;
        self.candidate_occurrences.sqr[square.0][square.1][candidate_idx] -= 1;
    }

    /// Fill a value in the grid at specific coordinates.
    ///
    /// Filling a cell with the digit that it already holds changes nothing;
    /// with another digit it is refused as `AlreadyFilled`.  Filling an
    /// unfilled cell is refused with the conflict of the first of its row,
    /// column and square that has the digit already.  Otherwise the digit is
    /// placed and struck from the candidates of all peers, and the naked and
    /// hidden singles that this leaves are filled in turn, until none waits.
    ///
    /// On success the count of unfilled cells has strictly decreased for an
    /// unfilled target, placed digits have stayed, candidates have only gone,
    /// the counters owe what they owed before, and every valid grid that was
    /// compatible with the state and has `value` at `coords` is still
    /// compatible.  A fill between fills leaves the grid at rest again, and
    /// has filled exactly the cells that naked and hidden singles derive
    /// from the cells that were filled and the target.  A failure means that
    /// no valid grid is compatible with the state and has `value` at
    /// `coords`.
    ///
    /// Whatever the outcome, filled cells stay, candidates only go, the
    /// count of unfilled cells does not grow and the count of search fills
    /// is kept.  A fill that is refused at its target, as `AlreadyFilled` or
    /// with the conflict that the flags of the cell's units show, leaves
    /// the state as it was.  After a conflict that propagation ran into,
    /// the grid is to be discarded.
    ///
    /// The grid has to satisfy the invariant of propagation, with no naked
    /// single waiting but perhaps in the target cell; every grid between
    /// fills does.
    #[verifier::rlimit(30)]
    pub fn fill(&mut self, coords: (usize, usize), value: u8) -> (res: Result<
        (),
        SolveError,
    >)
        requires
            old(self).wf(),
            old(self).tidy_but(coords.0 as int, coords.1 as int),
            coords.0 < 9,
            coords.1 < 9,
            1 <= value <= 9,
        ensures
            final(self).keeps(old(self)),
            (res matches Err(e) && e == SolveError::AlreadyFilled) ==> *final(self) == *old(self),
            old(self).cell(coords.0 as int, coords.1 as int).is_open() && old(self).conflict(
                coords.0 as int,
                coords.1 as int,
                value as int,
            ) is Some ==> *final(self) == *old(self),
            old(self).cell(coords.0 as int, coords.1 as int).holds(value as int) ==> res is Ok
                && *final(self) == *old(self),
            (res matches Err(e) && e == SolveError::AlreadyFilled) <==> (!old(self).cell(
                coords.0 as int,
                coords.1 as int,
            ).is_open() && !old(self).cell(coords.0 as int, coords.1 as int).holds(value as int)),
            old(self).cell(coords.0 as int, coords.1 as int).is_open() ==> match old(
                self,
            ).conflict(coords.0 as int, coords.1 as int, value as int) {
                Some(e) => res == Err::<(), SolveError>(e),
                None => res is Ok || (res matches Err(e) && e.is_conflict()),
            },
            res is Ok ==> {
                &&& final(self).wf()
                &&& final(self).tidy()
                &&& final(self).extends(old(self))
                &&& final(self).owes_as(old(self))
                &&& old(self).settled() ==> final(self).settled()
                &&& old(self).at_rest() ==> final(self).at_rest() && final(self).is_closure_of(
                    old(self).filled().insert(9 * coords.0 + coords.1),
                )
                &&& final(self).cell(coords.0 as int, coords.1 as int).holds(value as int)
                &&& forall|free: Set<int>| #[trigger]
                    old(self).certified(free) ==> final(self).certified(
                        free.insert(9 * coords.0 + coords.1),
                    )
                &&& old(self).forces(coords.0 as int, coords.1 as int, value as int)
                    ==> final(self).certified_as(old(self))
                &&& forall|s: Seq<u8>|
                    #[trigger] old(self).admits(s) && digit_at(s, coords.0 as int, coords.1 as int)
                        == value ==> final(self).admits(s)
                &&& old(self).cell(coords.0 as int, coords.1 as int).is_open() ==> {
                    &&& final(self).unfilled() < old(self).unfilled()
                    &&& forall|g: int|
                        0 <= g < 27 && in_unit(g, coords.0 as int, coords.1 as int)
                            ==> #[trigger] final(self).listed(g, value as int) == 0
                }
            },
            res is Err ==> forall|s: Seq<u8>|
                !(#[trigger] old(self).admits(s) && digit_at(s, coords.0 as int, coords.1 as int)
                    == value),
            res is Ok ==> final(self).is_filled_from(
                old(self),
                coords.0 as int,
                coords.1 as int,
                value as int,
            ),
            res matches Err(e) ==> old(self).fill_fails_with(
                coords.0 as int,
                coords.1 as int,
                value as int,
                e,
            ),
        decreases old(self).unfilled(), 0int,
    {
        let ghost r = coords.0 as int;
        let ghost c = coords.1 as int;
        let ghost v = value as int;
        match self.cells[coords.0][coords.1] {
            Cell::Value(held) => {
                proof {
                    assert forall|free: Set<int>|
                        #[trigger] self.certified(free) implies self.certified(
                        free.insert(9 * r + c),
                    ) by {
                        lemma_certified_more(*self, free, 9 * r + c);
                    }
                }
                proof {
                    if self.at_rest() && held == value {
                        lemma_certified_filled(*self);
                        assert(self.filled().insert(9 * r + c) =~= self.filled());
                        lemma_closure(*self, self.filled());
                    }
                }
                if held != value {
                    assert forall|s: Seq<u8>| #[trigger] self.admits(s) implies digit_at(s, r, c)
                        != v by {
                        assert(self.cells[r][c].admits(digit_at(s, r, c)));
                    }
                    return Err(SolveError::AlreadyFilled);
                }
            },
            Cell::Candidates(former_candidates) => {
                proof {
                    if self.struck(r, c, v) {
                        assert forall|s: Seq<u8>| #[trigger] self.admits(s) implies digit_at(
                            s,
                            r,
                            c,
                        ) != v by {
                            lemma_struck_digit(*self, r, c, v, s);
                        }
                    }
                }
                self.mark_placed(coords, value)?;
                let ghost marked = *self;
                proof {
                    lemma_open_counts(self.cells, r, c, 81);
                }
                self.cells[coords.0][coords.1] = Cell::Value(value);
                self.unfilled_cells -= 1;
                let ghost placed = *self;
                proof {
                    assert forall|g: int, d: int|
                        0 <= g < 27 && 1 <= d <= 9 implies #[trigger] placed.placed(
                        g,
                        d,
                    ) == (old(self).placed(g, d) || (in_unit(g, r, c) && d == v)) by {
                        assert(placed.placed(g, d) == marked.placed(g, d));
                    }
                    assert forall|g: int, d: int|
                        0 <= g < 27 && 1 <= d <= 9 implies #[trigger] placed.counter(
                        g,
                        d,
                    ) == old(self).counter(g, d) by {}
                    lemma_place(*old(self), placed, r, c, v, former_candidates);
                    lemma_certified_placed(*old(self), placed, r, c, v);
                }
                // Remove candidates of the filled in value in the row, column and square.
                self.strike_peers(coords, value)?;
                let ghost struck = *self;
                proof {
                    assert forall|g: int, d: int|
                        0 <= g < 27 && 1 <= d <= 9 implies #[trigger] struck.debt(
                        g,
                        d,
                    ) >= struck.need(g, d) + bit(
                        in_unit(g, r, c) && has_candidate(former_candidates, d),
                    ) by {
                        assert(struck.debt(g, d) == placed.debt(g, d));
                        assert(struck.need(g, d) <= placed.need(g, d));
                        if in_unit(g, r, c) && d == v {
                            assert(live(struck.cells, g, v) == 0);
                        }
                    }
                }
                // Decrement occurrences as a result of the formerly present candidates
                // being replaced by a value and thus removed from the grid.
                self.release_candidates(coords, former_candidates, value)?;
                proof {
                    lemma_keeps_trans(*old(self), placed, struck);
                    lemma_keeps_trans(*old(self), struck, *self);
                    lemma_no_new_lone_trans(*old(self), placed, struck);
                    lemma_no_new_lone_trans(*old(self), struck, *self);
                    assert forall|i: int, j: int|
                        0 <= i < 9 && 0 <= j < 9 && #[trigger] self.bare(i, j) implies old(
                        self,
                    ).bare(i, j) by {
                        assert(struck.bare(i, j));
                        assert(placed.bare(i, j));
                    }
                    assert forall|g: int| 0 <= g < 27 && in_unit(g, r, c) implies #[trigger] live(
                        self.cells,
                        g,
                        v,
                    ) == 0 by {
                        lemma_live_monotone(struck.cells, self.cells, g, v);
                        lemma_live_bounds(self.cells, g, v);
                    }
                    assert forall|g: int, d: int|
                        0 <= g < 27 && 1 <= d <= 9 implies #[trigger] self.need(
                        g,
                        d,
                    ) <= old(self).need(g, d) by {
                        assert(struck.need(g, d) <= placed.need(g, d));
                        if in_unit(g, r, c) && d == v {
                            assert(live(self.cells, g, v) == 0);
                        }
                    }
                    assert forall|g: int, d: int|
                        0 <= g < 27 && 1 <= d <= 9 implies #[trigger] self.debt(
                        g,
                        d,
                    ) == old(self).debt(g, d) by {
                        assert(struck.debt(g, d) == placed.debt(g, d));
                    }
                    if old(self).settled() {
                        assert forall|g: int, d: int|
                            0 <= g < 27 && 1 <= d <= 9 implies #[trigger] self.debt(g, d) == 0 by {
                            assert(old(self).debt(g, d) == 0);
                        }
                    }
                    if old(self).at_rest() {
                        let free = old(self).filled().insert(9 * r + c);
                        lemma_certified_filled(*old(self));
                        assert(self.certified(free));
                        assert forall|y: int|
                            #[trigger] free.contains(y) implies self.filled().contains(
                            y,
                        ) by {
                            if y != 9 * r + c {
                                assert(!old(self).cells[y / 9][y % 9].is_open());
                                assert(self.cells[y / 9][y % 9] == old(self).cells[y / 9][y % 9]);
                            }
                        }
                        lemma_closure(*self, free);
                    }
                }
            },
        }
        proof {
            lemma_filled_from(*old(self), *self, r, c, v);
        }
        Ok(())
    }

    /// Strikes `value`, which the cell at `coords` holds, from the candidates
    /// of every cell in its row, its column and its square.
    #[verifier::rlimit(30)]
    fn strike_peers(&mut self, coords: (usize, usize), value: u8) -> (res: Result<(), SolveError>)
        requires
            old(self).wf(),
            old(self).tidy(),
            coords.0 < 9,
            coords.1 < 9,
            1 <= value <= 9,
            old(self).cells[coords.0 as int][coords.1 as int].holds(value as int),
        ensures
            final(self).keeps(old(self)),
            res is Ok ==> {
                &&& final(self).wf()
                &&& final(self).tidy()
                &&& final(self).certified_as(old(self))
                &&& final(self).extends(old(self))
                &&& final(self).owes_as(old(self))
                &&& final(self).admits_all_of(old(self))
                &&& forall|g: int|
                    0 <= g < 27 && in_unit(g, coords.0 as int, coords.1 as int) ==> #[trigger] live(
                        final(self).cells,
                        g,
                        value as int,
                    ) == 0
            },
            res matches Err(e) ==> e.is_conflict() && old(self).hopeless(),
        decreases old(self).unfilled(), 4int,
    {
        let square = cell_to_square(coords);
        let ghost r = coords.0 as int;
        let ghost c = coords.1 as int;
        let ghost v = value as int;
        let ghost q = square_unit(r, c);
        for idx in 0..9usize
            invariant
                coords.0 < 9,
                coords.1 < 9,
                1 <= value <= 9,
                r == coords.0,
                c == coords.1,
                v == value,
                q == square_unit(r, c),
                square.0 == coords.0 / 3,
                square.1 == coords.1 / 3,
                old(self).cells[r][c].holds(v),
                self.wf(),
                self.tidy(),
                self.certified_as(old(self)),
                self.extends(old(self)),
                self.owes_as(old(self)),
                self.admits_all_of(old(self)),
                forall|k: int|
                    0 <= k < idx ==> !(#[trigger] slot_cell(self.cells, row_unit(r), k)).lists(v),
                forall|k: int|
                    0 <= k < idx ==> !(#[trigger] slot_cell(self.cells, col_unit(c), k)).lists(v),
                forall|k: int| 0 <= k < idx ==> !(#[trigger] slot_cell(self.cells, q, k)).lists(v),
        {
            let ghost before = *self;
            proof {
                assert(self.cells[r][c] == old(self).cells[r][c]);
                lemma_holder_counts(self.cells, row_unit(r), r, c, v);
                lemma_holder_counts(self.cells, col_unit(c), r, c, v);
                lemma_holder_counts(self.cells, q, r, c, v);
                assert(self.placed(row_unit(r), v));
                assert(self.placed(col_unit(c), v));
                assert(self.placed(q, v));
            }
            self.remove_candidate((coords.0, idx), value, Group::Row)?;
            let ghost after_row = *self;
            proof {
                lemma_extends_trans(*old(self), before, after_row);
                assert(self.cells[r][c] == old(self).cells[r][c]);
                lemma_holder_counts(self.cells, col_unit(c), r, c, v);
                assert(self.placed(col_unit(c), v));
            }
            self.remove_candidate((idx, coords.1), value, Group::Column)?;
            let ghost after_col = *self;
            let relative = index_to_3x3_coords(idx);
            let absolute = (relative.0 + square.0 * 3, relative.1 + square.1 * 3);
            proof {
                lemma_extends_trans(*old(self), after_row, after_col);
                assert(self.cells[r][c] == old(self).cells[r][c]);
                lemma_holder_counts(self.cells, q, r, c, v);
                assert(self.placed(q, v));
                assert(absolute.0 == unit_row(q, idx as int));
                assert(absolute.1 == unit_col(q, idx as int));
                assert(square_unit(absolute.0 as int, absolute.1 as int) == q);
            }
            self.remove_candidate(absolute, value, Group::Square)?;
            proof {
                lemma_extends_trans(*old(self), after_col, *self);
                lemma_keeps_trans(before, after_row, after_col);
                lemma_keeps_trans(before, after_col, *self);
                lemma_keeps_trans(after_row, after_col, *self);
                assert forall|k: int| 0 <= k < idx + 1 implies !(#[trigger] slot_cell(
                    self.cells,
                    row_unit(r),
                    k,
                )).lists(v) by {
                    lemma_slot_cell(row_unit(r), k);
                    if k < idx {
                        assert(!slot_cell(before.cells, row_unit(r), k).lists(v));
                        lemma_stays_unlisted(before, *self, r, k, v);
                    } else {
                        lemma_stays_unlisted(after_row, *self, r, k, v);
                    }
                }
                assert forall|k: int| 0 <= k < idx + 1 implies !(#[trigger] slot_cell(
                    self.cells,
                    col_unit(c),
                    k,
                )).lists(v) by {
                    lemma_slot_cell(col_unit(c), k);
                    if k < idx {
                        assert(!slot_cell(before.cells, col_unit(c), k).lists(v));
                        lemma_stays_unlisted(before, *self, k, c, v);
                    } else {
                        lemma_stays_unlisted(after_col, *self, k, c, v);
                    }
                }
                assert forall|k: int| 0 <= k < idx + 1 implies !(#[trigger] slot_cell(
                    self.cells,
                    q,
                    k,
                )).lists(v) by {
                    lemma_slot_cell(q, k);
                    if k < idx {
                        assert(!slot_cell(before.cells, q, k).lists(v));
                        lemma_stays_unlisted(before, *self, unit_row(q, k), unit_col(q, k), v);
                    }
                }
            }
        }
        proof {
            lemma_live_zero(self.cells, row_unit(r), v);
            lemma_live_zero(self.cells, col_unit(c), v);
            lemma_live_zero(self.cells, q, v);
        }
        Ok(())
    }

    /// Pays what the units of the cell at `coords` owe for the candidates
    /// that the cell listed before it was filled with `value`: one decrement
    /// for each of them.  For `value` itself no hidden single is looked for.
    #[verifier::rlimit(30)]
    fn release_candidates(
        &mut self,
        coords: (usize, usize),
        former_candidates: Candidates,
        value: u8,
    ) -> (res: Result<(), SolveError>)
        requires
            old(self).wf(),
            old(self).tidy(),
            coords.0 < 9,
            coords.1 < 9,
            1 <= value <= 9,
            old(self).cell(coords.0 as int, coords.1 as int).holds(value as int),
            forall|g: int, d: int|
                0 <= g < 27 && 1 <= d <= 9 ==> #[trigger] old(self).debt(g, d) >= old(self).need(
                    g,
                    d,
                ) + bit(
                    in_unit(g, coords.0 as int, coords.1 as int) && has_candidate(
                        former_candidates,
                        d,
                    ),
                ),
        ensures
            final(self).keeps(old(self)),
            res is Ok ==> {
                &&& final(self).wf()
                &&& final(self).tidy()
                &&& final(self).certified_as(old(self))
                &&& final(self).extends(old(self))
                &&& final(self).admits_all_of(old(self))
                &&& forall|g: int, d: int|
                    0 <= g < 27 && 1 <= d <= 9 ==> #[trigger] final(self).debt(g, d) == old(
                        self,
                    ).debt(g, d) - bit(
                        in_unit(g, coords.0 as int, coords.1 as int) && has_candidate(
                            former_candidates,
                            d,
                        ),
                    )
            },
            res matches Err(e) ==> e.is_conflict() && old(self).hopeless(),
        decreases old(self).unfilled(), 4int,
    {
        let ghost r = coords.0 as int;
        let ghost c = coords.1 as int;
        for candidate in 1..10u8
            invariant
                coords.0 < 9,
                coords.1 < 9,
                1 <= value <= 9,
                r == coords.0,
                c == coords.1,
                old(self).cell(r, c).holds(value as int),
                self.wf(),
                self.tidy(),
                self.certified_as(old(self)),
                self.extends(old(self)),
                self.admits_all_of(old(self)),
                forall|g: int, d: int|
                    0 <= g < 27 && 1 <= d <= 9 ==> #[trigger] self.debt(g, d) == old(self).debt(
                        g,
                        d,
                    ) - bit(in_unit(g, r, c) && has_candidate(former_candidates, d) && d < candidate),
                forall|g: int, d: int|
                    0 <= g < 27 && 1 <= d <= 9 ==> #[trigger] old(self).debt(g, d) >= old(
                        self,
                    ).need(g, d) + bit(in_unit(g, r, c) && has_candidate(former_candidates, d)),
        {
            if former_candidates[(candidate - 1) as usize] {
                let ghost before = *self;
                proof {
                    assert forall|g: int|
                        0 <= g < 27 && in_unit(g, r, c) implies #[trigger] self.debt(
                        g,
                        candidate as int,
                    ) >= self.need(g, candidate as int) + 1 by {
                        assert(self.need(g, candidate as int) <= old(self).need(
                            g,
                            candidate as int,
                        ));
                        assert(old(self).debt(g, candidate as int) >= old(self).need(
                            g,
                            candidate as int,
                        ) + bit(
                            in_unit(g, r, c) && has_candidate(former_candidates, candidate as int),
                        ));
                    }
                }
                let ignore = if candidate == value {
                    Group::All
                } else {
                    Group::Nothing
                };
                proof {
                    if candidate == value {
                        assert(self.cells[r][c] == old(self).cells[r][c]);
                        lemma_holder_counts(self.cells, row_unit(r), r, c, value as int);
                        lemma_holder_counts(self.cells, col_unit(c), r, c, value as int);
                        lemma_holder_counts(self.cells, square_unit(r, c), r, c, value as int);
                        assert(self.placed(row_unit(r), value as int));
                        assert(self.placed(col_unit(c), value as int));
                        assert(self.placed(square_unit(r, c), value as int));
                    }
                }
                proof {
                    assert(self.owes(r, c, candidate as int));
                    assert forall|g: int|
                        0 <= g < 27 && in_unit(g, r, c) implies #[trigger] self.counter(
                        g,
                        candidate as int,
                    ) >= 1 by {
                        assert(self.debt(g, candidate as int) >= self.need(g, candidate as int) + 1);
                        lemma_live_bounds(self.cells, g, candidate as int);
                    }
                    assert(self.may_decrement(r, c, candidate as int, ignore));
                }
                self.decrement_occurrences(coords, candidate, ignore)?;
                proof {
                    lemma_extends_trans(*old(self), before, *self);
                    assert forall|g: int, d: int|
                        0 <= g < 27 && 1 <= d <= 9 implies #[trigger] self.debt(
                        g,
                        d,
                    ) == old(self).debt(g, d) - bit(
                        in_unit(g, r, c) && has_candidate(former_candidates, d) && d < candidate + 1,
                    ) by {
                        assert(before.debt(g, d) == old(self).debt(g, d) - bit(
                            in_unit(g, r, c) && has_candidate(former_candidates, d) && d
                                < candidate,
                        ));
                    }
                }
            }
        }
        Ok(())
    }

    /// Remove a candidate from a cell.
    ///
    /// Where the cell is unfilled and lists `candidate`, the digit is struck.
    /// A cell that is left with one candidate is filled with it; then the
    /// counters of the cell's units are decremented and hidden singles are
    /// looked for, except in the units that `unique_occurence_ignore` names.
    /// Striking the last candidate of a cell is refused as a contradiction.
    ///
    /// On success a cell that listed the candidate and one other digit holds
    /// that digit.  Where no single arises (the cell keeps two candidates or more, and no
    /// unit that is looked at has its counter fall to 1), the call succeeds
    /// and changes nothing but the candidate and the three counters.
    /// Whatever the outcome, filled cells stay and candidates only go.
    #[verifier::rlimit(30)]
    pub(crate) fn remove_candidate(
        &mut self,
        coords: (usize, usize),
        candidate: u8,
        unique_occurence_ignore: Group,
    ) -> (res: Result<(), SolveError>)
        requires
            old(self).wf(),
            old(self).tidy(),
            coords.0 < 9,
            coords.1 < 9,
            1 <= candidate <= 9,
            old(self).struck(coords.0 as int, coords.1 as int, candidate as int),
            old(self).may_ignore(
                coords.0 as int,
                coords.1 as int,
                candidate as int,
                unique_occurence_ignore,
            ),
        ensures
            final(self).keeps(old(self)),
            res is Ok ==> forall|e: int|
                old(self).cell(coords.0 as int, coords.1 as int).is_last_but(candidate as int, e)
                    ==> #[trigger] final(self).cell(coords.0 as int, coords.1 as int).holds(e),
            old(self).cell(coords.0 as int, coords.1 as int) matches Cell::Candidates(cs)
                && has_candidate(cs, candidate as int) && candidate_count(cs) >= 3 && old(
                self,
            ).no_scan(coords.0 as int, coords.1 as int, candidate as int, unique_occurence_ignore)
                ==> res is Ok && final(self).is_struck(
                old(self),
                coords.0 as int,
                coords.1 as int,
                candidate as int,
            ),
            !old(self).cell(coords.0 as int, coords.1 as int).lists(candidate as int) ==> res is Ok
                && *final(self) == *old(self),
            res is Ok ==> {
                &&& final(self).wf()
                &&& final(self).tidy()
                &&& final(self).certified_as(old(self))
                &&& final(self).extends(old(self))
                &&& final(self).owes_as(old(self))
                &&& final(self).admits_all_of(old(self))
                &&& !final(self).cell(coords.0 as int, coords.1 as int).lists(candidate as int)
            },
            res matches Err(e) ==> e.is_conflict() && old(self).hopeless(),
        decreases old(self).unfilled(), 3int,
    {
        let ghost r = coords.0 as int;
        let ghost c = coords.1 as int;
        let ghost d = candidate as int;
        if let Cell::Candidates(cs) = self.cells[coords.0][coords.1] {
            let candidate_idx = (candidate - 1) as usize;
            if cs[candidate_idx] {
                let mut rest = cs;
                rest[candidate_idx] = false;
                assert forall|e: int| #[trigger] has_candidate(rest, e) == (has_candidate(cs, e)
                    && e != d) by {}
                let remaining = count_candidates(&rest);
                proof {
                    lemma_struck_count(cs, rest, d);
                    assert(!self.bare(r, c));
                    assert(self.cells[r][c].wf());
                }
                if remaining == 0 {
                    // A cell that is left without a candidate would be a
                    // contradiction; the striking of the last candidate is not
                    // reached while every unfilled cell has two or more.
                    return Err(SolveError::Contradiction);
                }
                self.cells[coords.0][coords.1] = Cell::Candidates(rest);
                let ghost struck = *self;
                proof {
                    lemma_strike(*old(self), struck, r, c, d, cs, rest);
                    lemma_certified_kept(*old(self), struck);
                }
                if remaining == 1 {
                    let leftover = first_candidate(&rest);
                    proof {
                        assert forall|s: Seq<u8>| #[trigger] struck.admits(s) implies digit_at(
                            s,
                            r,
                            c,
                        ) == leftover by {
                            lemma_naked_single(struck, r, c, leftover as int, s);
                        }
                        assert forall|e: int|
                            1 <= e <= 9 && e != leftover implies !#[trigger] struck.cells[r][c].lists(
                            e,
                        ) by {
                            if has_candidate(rest, e) {
                            }
                        }
                        assert(struck.forces(r, c, leftover as int));
                    }
                    self.fill(coords, leftover)?;
                }
                let ghost filled = *self;
                proof {
                    if remaining == 1 {
                        assert forall|e: int|
                            old(self).cell(r, c).is_last_but(d, e) implies filled.cell(r, c).holds(
                            e,
                        ) by {
                            assert(has_candidate(rest, e) == (has_candidate(cs, e) && e != d));
                        }
                    }
                    lemma_keeps_trans(*old(self), struck, filled);
                    lemma_settles_trans(*old(self), struck, filled);
                    lemma_no_new_lone_trans(*old(self), struck, filled);
                    assert forall|i: int, j: int|
                        0 <= i < 9 && 0 <= j < 9 && #[trigger] filled.bare(i, j) implies old(
                        self,
                    ).bare(i, j) by {
                        assert(struck.bare(i, j));
                    }
                    assert(filled.extends(old(self)));
                    assert forall|g: int|
                        0 <= g < 27 && in_unit(g, r, c) implies #[trigger] filled.debt(
                        g,
                        d,
                    ) >= filled.need(g, d) + 1 by {
                        assert(filled.debt(g, d) == struck.debt(g, d));
                        assert(filled.need(g, d) <= struck.need(g, d));
                    }
                    lemma_may_still_ignore(
                        *old(self),
                        filled,
                        r,
                        c,
                        d,
                        unique_occurence_ignore,
                    );
                }
                proof {
                    assert(filled.owes(r, c, d));
                    assert forall|g: int|
                        0 <= g < 27 && in_unit(g, r, c) implies #[trigger] filled.counter(
                        g,
                        d,
                    ) >= 1 by {
                        assert(filled.debt(g, d) >= filled.need(g, d) + 1);
                        lemma_live_bounds(filled.cells, g, d);
                    }
                    assert(filled.may_decrement(r, c, d, unique_occurence_ignore));
                }
                self.decrement_occurrences(coords, candidate, unique_occurence_ignore)?;
                proof {
                    if remaining >= 2 && old(self).no_scan(r, c, d, unique_occurence_ignore) {
                        assert(filled == struck);
                        assert(struck.no_scan(r, c, d, unique_occurence_ignore));
                        assert(self.is_struck(old(self), r, c, d));
                    }
                }
                proof {
                    lemma_extends_trans(*old(self), filled, *self);
                    lemma_stays_unlisted(struck, filled, r, c, d);
                    lemma_stays_unlisted(filled, *self, r, c, d);
                    assert forall|g: int, e: int|
                        0 <= g < 27 && 1 <= e <= 9 implies #[trigger] self.debt(
                        g,
                        e,
                    ) == old(self).debt(g, e) by {
                        assert(filled.debt(g, e) == struck.debt(g, e));
                        assert(struck.debt(g, e) == old(self).debt(g, e) + bit(
                            in_unit(g, r, c) && e == d,
                        ));
                    }
                }
            }
        }
        Ok(())
    }

    /// Decrement occurrence of a value in the row, column and square as a
    /// result of a candidate being removed from a cell.
    ///
    /// The counters of the three units are taken one down.  Then, unit by
    /// unit, where the counter has dropped to 1, the one cell of that unit
    /// that still lists the digit is filled with it, unless
    /// `unique_occurrence_ignore` names the unit: a unit may be named where
    /// it has the digit placed already, so that no deduction is lost.
    ///
    /// Where no unit is looked at (all are skipped, or no counter falls to
    /// 1), the call succeeds and changes nothing but the three counters;
    /// it then asks for no more than counters of 1 or more.  Where a unit
    /// may be looked at, the grid has to satisfy the invariant of
    /// propagation and each unit has to owe the decrement.  Whatever the
    /// outcome, filled cells stay and candidates only go.
    #[verifier::rlimit(30)]
    pub(crate) fn decrement_occurrences(
        &mut self,
        coords: (usize, usize),
        candidate: u8,
        unique_occurrence_ignore: Group,
    ) -> (res: Result<(), SolveError>)
        requires
            coords.0 < 9,
            coords.1 < 9,
            1 <= candidate <= 9,
            forall|g: int|
                0 <= g < 27 && in_unit(g, coords.0 as int, coords.1 as int) ==> #[trigger] old(
                    self,
                ).counter(g, candidate as int) >= 1,
            !(unique_occurrence_ignore is All) ==> old(self).may_decrement(
                coords.0 as int,
                coords.1 as int,
                candidate as int,
                unique_occurrence_ignore,
            ),
        ensures
            final(self).keeps(old(self)),
            old(self).no_scan(
                coords.0 as int,
                coords.1 as int,
                candidate as int,
                unique_occurrence_ignore,
            ) ==> res is Ok && final(self).is_paid(
                old(self),
                coords.0 as int,
                coords.1 as int,
                candidate as int,
            ),
            res is Ok && old(self).may_decrement(
                coords.0 as int,
                coords.1 as int,
                candidate as int,
                unique_occurrence_ignore,
            ) ==> {
                &&& final(self).wf()
                &&& final(self).tidy()
                &&& final(self).certified_as(old(self))
                &&& final(self).extends(old(self))
                &&& final(self).admits_all_of(old(self))
                &&& forall|g: int, e: int|
                    0 <= g < 27 && 1 <= e <= 9 ==> #[trigger] final(self).debt(g, e) == old(
                        self,
                    ).debt(g, e) - bit(
                        in_unit(g, coords.0 as int, coords.1 as int) && e == candidate,
                    )
                &&& final(self).found_singles(
                    old(self),
                    coords.0 as int,
                    coords.1 as int,
                    candidate as int,
                    unique_occurrence_ignore,
                )
            },
            res matches Err(e) ==> e.is_conflict() && old(self).hopeless(),
        decreases old(self).unfilled(), 2int,
    {
        let square = cell_to_square(coords);
        let candidate_idx = (candidate - 1) as usize;
        let ghost r = coords.0 as int;
        let ghost c = coords.1 as int;
        let ghost d = candidate as int;
        let ghost row = row_unit(r);
        let ghost col = col_unit(c);
        let ghost sqr = square_unit(r, c);
        let ghost ready = self.may_decrement(r, c, d, unique_occurrence_ignore);
        self.pay(coords, candidate);
        let ghost paid = *self;
        proof {
            assert(paid.counter(row, d) == old(self).counter(row, d) - 1);
            assert(paid.counter(col, d) == old(self).counter(col, d) - 1);
            assert(paid.counter(sqr, d) == old(self).counter(sqr, d) - 1);
            if ready {
                lemma_pay(*old(self), paid, r, c, d);
                lemma_certified_kept(*old(self), paid);
                lemma_may_still_ignore(*old(self), paid, r, c, d, unique_occurrence_ignore);
            }
        }
        if !matches!(unique_occurrence_ignore, Group::All) {
            if !matches!(unique_occurrence_ignore, Group::Row) {
                if self.candidate_occurrences.row[coords.0][candidate_idx] == 1 {
                    self.fill_hidden_single(coords.0, candidate)?;
                }
            } else {
                proof {
                    lemma_placed_not_lone(paid, row, d);
                }
            }
            let ghost after_row = *self;
            proof {
                lemma_live_bounds(after_row.cells, row, d);
                assert(!after_row.lone(row, d));
                lemma_keeps_trans(*old(self), paid, after_row);
                lemma_may_still_ignore(paid, after_row, r, c, d, unique_occurrence_ignore);
            }
            if !matches!(unique_occurrence_ignore, Group::Column) {
                if self.candidate_occurrences.col[coords.1][candidate_idx] == 1 {
                    self.fill_hidden_single(9 + coords.1, candidate)?;
                }
            } else {
                proof {
                    lemma_placed_not_lone(after_row, col, d);
                }
            }
            let ghost after_col = *self;
            proof {
                lemma_live_bounds(after_col.cells, col, d);
                assert(!after_col.lone(col, d));
                assert(!after_col.lone(row, d));
                lemma_keeps_trans(paid, after_row, after_col);
                lemma_keeps_trans(*old(self), paid, after_col);
                lemma_may_still_ignore(paid, after_col, r, c, d, unique_occurrence_ignore);
            }
            if !matches!(unique_occurrence_ignore, Group::Square) {
                if self.candidate_occurrences.sqr[square.0][square.1][candidate_idx] == 1 {
                    self.fill_hidden_single(18 + 3 * square.0 + square.1, candidate)?;
                }
            } else {
                proof {
                    lemma_placed_not_lone(after_col, sqr, d);
                }
            }
            proof {
                lemma_live_bounds(self.cells, sqr, d);
                assert(!self.lone(sqr, d));
                assert(!self.lone(col, d));
                assert(!self.lone(row, d));
                lemma_keeps_trans(*old(self), after_col, *self);
                lemma_keeps_trans(after_row, after_col, *self);
                lemma_settles_trans(paid, after_row, after_col);
                lemma_settles_trans(paid, after_col, *self);
                lemma_settles_trans(*old(self), paid, *self);
                assert forall|g: int, e: int|
                    0 <= g < 27 && 1 <= e <= 9 && #[trigger] self.lone(g, e) implies old(
                    self,
                ).lone(g, e) by {
                    assert(after_col.lone(g, e));
                    assert(after_row.lone(g, e));
                    assert(paid.lone(g, e));
                }
                assert forall|i: int, j: int|
                    0 <= i < 9 && 0 <= j < 9 && #[trigger] self.bare(i, j) implies old(self).bare(
                    i,
                    j,
                ) by {
                    assert(after_col.bare(i, j));
                    assert(after_row.bare(i, j));
                    assert(paid.bare(i, j));
                }
                assert forall|g: int, e: int|
                    0 <= g < 27 && 1 <= e <= 9 implies #[trigger] self.debt(
                    g,
                    e,
                ) == old(self).debt(g, e) - bit(in_unit(g, r, c) && e == d) by {
                    assert(after_col.debt(g, e) == after_row.debt(g, e));
                    assert(after_row.debt(g, e) == paid.debt(g, e));
                }
                assert forall|g: int| 0 <= g < 27 && in_unit(g, r, c) implies !#[trigger] self.lone(
                    g,
                    d,
                ) by {}
                let row_scan = !unique_occurrence_ignore.skips_row() && old(self).counter(row, d)
                    == 2;
                let col_scan = !unique_occurrence_ignore.skips_column() && old(self).counter(
                    col,
                    d,
                ) == 2;
                let sqr_scan = !unique_occurrence_ignore.skips_square() && old(self).counter(
                    sqr,
                    d,
                ) == 2;
                if row_scan {
                    assert(after_row.hosts_hold(&paid, row, d));
                    lemma_hosts_kept(paid, after_row, *self, row, d);
                    assert(self.hosts_hold(old(self), row, d));
                } else {
                    assert(after_row == paid);
                    if col_scan {
                        assert(after_col.hosts_hold(&after_row, col, d));
                        lemma_hosts_kept(after_row, after_col, *self, col, d);
                        assert(self.hosts_hold(old(self), col, d));
                    } else {
                        assert(after_col == paid);
                        if sqr_scan {
                            assert(self.hosts_hold(old(self), sqr, d));
                        } else {
                            assert(*self == paid);
                        }
                    }
                }
            }
        } else {
            proof {
                if ready {
                    lemma_placed_not_lone(paid, row, d);
                    lemma_placed_not_lone(paid, col, d);
                    lemma_placed_not_lone(paid, sqr, d);
                }
            }
        }
        Ok(())
    }

    /// Fills the cell of `unit` that still lists `candidate`, where the
    /// unit's counter for it is 1: the digit has no other place in the unit.
    /// Afterwards the cell that listed the digit holds it, and no cell of
    /// the unit lists the digit.
    #[verifier::rlimit(30)]
    fn fill_hidden_single(&mut self, unit: usize, candidate: u8) -> (res: Result<(), SolveError>)
        requires
            old(self).wf(),
            old(self).tidy(),
            unit < 27,
            1 <= candidate <= 9,
            old(self).counter(unit as int, candidate as int) == 1,
        ensures
            final(self).keeps(old(self)),
            res is Ok ==> {
                &&& final(self).wf()
                &&& final(self).tidy()
                &&& final(self).certified_as(old(self))
                &&& final(self).extends(old(self))
                &&& final(self).owes_as(old(self))
                &&& final(self).admits_all_of(old(self))
                &&& final(self).listed(unit as int, candidate as int) == 0
                &&& final(self).hosts_hold(old(self), unit as int, candidate as int)
            },
            res matches Err(e) ==> e.is_conflict() && old(self).hopeless(),
        decreases old(self).unfilled(), 1int,
    {
        let ghost g = unit as int;
        let ghost d = candidate as int;
        for slot in 0..9usize
            invariant
                unit < 27,
                1 <= candidate <= 9,
                g == unit,
                d == candidate,
                self.wf(),
                self.tidy(),
                self.certified_as(old(self)),
                self.extends(old(self)),
                self.owes_as(old(self)),
                self.admits_all_of(old(self)),
                self.counter(g, d) == 1 || live(self.cells, g, d) == 0,
                old(self).wf(),
                old(self).counter(g, d) == 1,
                forall|k: int| 0 <= k < slot ==> !(#[trigger] slot_cell(self.cells, g, k)).lists(d),
                forall|k: int|
                    0 <= k < 9 && (#[trigger] slot_cell(old(self).cells, g, k)).lists(d) ==> (k
                        >= slot && *self == *old(self)) || slot_cell(self.cells, g, k).holds(d),
        {
            let (row, col) = unit_slot(unit, slot);
            let ghost before = *self;
            let ghost mut filled_here = false;
            if let Cell::Candidates(cs) = self.cells[row][col] {
                if cs[(candidate - 1) as usize] {
                    proof {
                        lemma_slot_cell(g, slot as int);
                        lemma_live_counts(self.cells, g, row as int, col as int, d);
                        assert forall|s: Seq<u8>| #[trigger] before.admits(s) implies digit_at(
                            s,
                            row as int,
                            col as int,
                        ) == d by {
                            lemma_hidden_single(before, g, row as int, col as int, d, s);
                        }
                        assert(before.debt(g, d) >= before.need(g, d));
                        lemma_only_place(before, g, row as int, col as int, d);
                        assert(before.forces(row as int, col as int, d));
                    }
                    self.fill((row, col), candidate)?;
                    proof {
                        lemma_extends_trans(*old(self), before, *self);
                        assert(self.listed(g, d) == 0);
                        filled_here = true;
                    }
                }
            }
            proof {
                assert forall|k: int|
                    0 <= k < 9 && (#[trigger] slot_cell(old(self).cells, g, k)).lists(
                        d,
                    ) implies (k >= slot + 1 && *self == *old(self)) || slot_cell(
                    self.cells,
                    g,
                    k,
                ).holds(d) by {
                    lemma_slot_cell(g, k);
                    lemma_slot_cell(g, slot as int);
                    if filled_here {
                        assert(before.cells[row as int][col as int].lists(d));
                        assert(old(self).cells[row as int][col as int].lists(d));
                        lemma_one_host(*old(self), g, k, slot as int, d);
                    } else {
                        assert(*self == before);
                        if slot_cell(before.cells, g, k).holds(d) {
                        } else {
                            assert(before == *old(self));
                        }
                    }
                }
            }
            proof {
                assert forall|k: int| 0 <= k < slot + 1 implies !(#[trigger] slot_cell(
                    self.cells,
                    g,
                    k,
                )).lists(d) by {
                    lemma_slot_cell(g, k);
                    if k < slot {
                        assert(!slot_cell(before.cells, g, k).lists(d));
                        lemma_stays_unlisted(before, *self, unit_row(g, k), unit_col(g, k), d);
                    } else if !before.cells[row as int][col as int].lists(d) {
                        lemma_stays_unlisted(before, *self, row as int, col as int, d);
                    }
                }
            }
        }
        proof {
            lemma_live_zero(self.cells, g, d);
            lemma_hosts_by_slot(*old(self), *self, g, d);
        }
        Ok(())
    }
}

} // verus!
