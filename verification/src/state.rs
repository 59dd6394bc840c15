//! The solver's state and the invariant that propagation maintains.
//!
//! Besides the 81 cells the solver keeps, for every unit and digit, a flag
//! that tells whether the digit has been placed in the unit, and a counter of
//! the unfilled cells of the unit that still list the digit.  While a fill is
//! being propagated a counter may run ahead of the cells: the difference is
//! the unit's *debt* for that digit, paid off by later decrements.
use vstd::prelude::*;
use crate::board::{
    col_unit, digit_at, in_unit, is_valid_grid, lemma_slot_cell, row_unit, square_unit, unit_col,
    unit_row,
};
use crate::singles::{
    agree_before, filled_before, guessed, guessed_before, is_branch, is_chain, is_derivable,
};
use crate::cell::{candidate_count, Cell};
use crate::counts::{
    differ_only_at, holders, lemma_all_open, live, open_upto, slot_cell, Cells,
};
use crate::error::SolveError;
use crate::puzzle::{given_digit, is_given};
use crate::occurrences::{Group, Occurrences};
use crate::tally::bit;

verus! {

/// The state of a solve in progress.
#[derive(Clone, Copy, Debug)]
pub struct Solver {
    /// The cells of the grid.
    pub(crate) cells: Cells,
    /// For every unit and digit, whether the digit has been placed in the
    /// unit.
    pub(crate) value_occurrences: Occurrences<bool>,
    /// For every unit and digit, the number of unfilled cells of the unit
    /// that list the digit, and the decrements that are still owed.
    pub(crate) candidate_occurrences: Occurrences<u8>,
    /// The number of cells that are unfilled.
    pub(crate) unfilled_cells: u8,
    /// The number of fills that the search has made.
    pub(crate) brute_force_fills: u8,
}

impl Solver {
    /// The cell in row `r` and column `c`.
    pub open(crate) spec fn cell(&self, r: int, c: int) -> Cell {
        self.cells[r][c]
    }

    /// The count of unfilled cells that the solver keeps.
    pub open(crate) spec fn unfilled(&self) -> int {
        self.unfilled_cells as int
    }

    /// The number of fills that the search has made on the way to this state.
    pub open(crate) spec fn search_fills(&self) -> int {
        self.brute_force_fills as int
    }

    /// The number of unfilled cells of unit `g` that list digit `d`.
    pub open(crate) spec fn listed(&self, g: int, d: int) -> int {
        live(self.cells, g, d)
    }

    /// The digits of the cells in row-major order, with 0 for a cell that is
    /// unfilled.
    pub open(crate) spec fn digits(&self) -> Seq<u8> {
        Seq::new(
            81,
            |i: int|
                match self.cells[i / 9][i % 9] {
                    Cell::Value(v) => v,
                    Cell::Candidates(_) => 0,
                },
        )
    }

    /// The number of cells of unit `g` that hold digit `d`.
    pub open(crate) spec fn held(&self, g: int, d: int) -> int {
        holders(self.cells, g, d)
    }

    /// The number of cells that are unfilled.
    pub open(crate) spec fn open_cells(&self) -> int {
        open_upto(self.cells, 81)
    }

    /// Whether digit `d` has been placed in unit `g`.
    pub open(crate) spec fn placed(&self, g: int, d: int) -> bool {
        self.value_occurrences.at(g, d)
    }

    /// The candidate counter of unit `g` for digit `d`.
    pub open(crate) spec fn counter(&self, g: int, d: int) -> int {
        self.candidate_occurrences.at(g, d) as int
    }

    /// How far the counter of unit `g` for digit `d` runs ahead of the cells:
    /// the decrements that are still owed.
    pub open(crate) spec fn debt(&self, g: int, d: int) -> int {
        self.counter(g, d) - live(self.cells, g, d)
    }

    /// 1 where `d` has been placed in unit `g` while cells of the unit still
    /// list it, else 0.  A fill that is being propagated is in this state
    /// until it has struck the digit from all its peers.
    pub open(crate) spec fn need(&self, g: int, d: int) -> int {
        if self.placed(g, d) && live(self.cells, g, d) >= 1 {
            1
        } else {
            0
        }
    }

    /// Every cell is well formed.
    pub open(crate) spec fn cells_wf(&self) -> bool {
        forall|r: int, c: int| 0 <= r < 9 && 0 <= c < 9 ==> (#[trigger] self.cells[r][c]).wf()
    }

    /// A digit is flagged as placed in a unit exactly where one cell of the
    /// unit holds it, and no unit holds a digit twice.
    pub open(crate) spec fn flags_wf(&self) -> bool {
        forall|g: int, d: int|
            0 <= g < 27 && 1 <= d <= 9 ==> holders(self.cells, g, d) == bit(
                #[trigger] self.placed(g, d),
            )
    }

    /// No counter is below the number of cells that list the digit, and while
    /// a placed digit is still listed in its unit, a decrement is owed.
    pub open(crate) spec fn counters_wf(&self) -> bool {
        forall|g: int, d: int|
            0 <= g < 27 && 1 <= d <= 9 ==> #[trigger] self.debt(g, d) >= self.need(g, d)
    }

    /// A digit is missing from an unfilled cell's candidates only where it
    /// has been placed in one of the cell's units.
    pub open(crate) spec fn candidates_wf(&self) -> bool {
        forall|r: int, c: int, d: int|
            0 <= r < 9 && 0 <= c < 9 && 1 <= d <= 9 && self.cells[r][c].is_open() && !(
            #[trigger] self.cells[r][c].lists(d)) ==> self.struck(r, c, d)
    }

    /// Whether digit `d` has been placed in a unit of the cell `(r, c)`.
    pub open(crate) spec fn struck(&self, r: int, c: int, d: int) -> bool {
        self.placed(row_unit(r), d) || self.placed(col_unit(c), d) || self.placed(
            square_unit(r, c),
            d,
        )
    }

    /// The conflict that placing digit `d` at `(r, c)` runs into, if any:
    /// the first of the cell's row, column and square that has the digit.
    pub open(crate) spec fn conflict(&self, r: int, c: int, d: int) -> Option<SolveError> {
        if self.placed(row_unit(r), d) {
            Some(SolveError::RowConflict)
        } else if self.placed(col_unit(c), d) {
            Some(SolveError::ColumnConflict)
        } else if self.placed(square_unit(r, c), d) {
            Some(SolveError::SquareConflict)
        } else {
            None
        }
    }

    /// The invariant that holds whenever propagation is entered or left.
    pub open(crate) spec fn wf(&self) -> bool {
        &&& self.cells_wf()
        &&& self.unfilled_cells == open_upto(self.cells, 81)
        &&& self.flags_wf()
        &&& self.counters_wf()
        &&& self.candidates_wf()
    }

    /// Every counter equals the number of unfilled cells of its unit that
    /// list its digit: no decrement is owed.
    pub open(crate) spec fn settled(&self) -> bool {
        forall|g: int, d: int| 0 <= g < 27 && 1 <= d <= 9 ==> #[trigger] self.debt(g, d) == 0
    }

    /// Whether the valid grid `s` is compatible with every cell: it has the
    /// digits that were placed, and a candidate wherever a cell is unfilled.
    pub open(crate) spec fn admits(&self, s: Seq<u8>) -> bool {
        &&& is_valid_grid(s)
        &&& forall|r: int, c: int|
            0 <= r < 9 && 0 <= c < 9 ==> (#[trigger] self.cells[r][c]).admits(digit_at(s, r, c))
    }

    /// Whether the cells can have come from those of `prior` by filling cells
    /// and striking candidates: placed digits stay and candidates only go.
    pub open(crate) spec fn cells_keep(&self, prior: &Solver) -> bool {
        &&& forall|r: int, c: int|
            0 <= r < 9 && 0 <= c < 9 && !(#[trigger] prior.cells[r][c]).is_open()
                ==> self.cells[r][c] == prior.cells[r][c]
        &&& forall|r: int, c: int, d: int|
            0 <= r < 9 && 0 <= c < 9 && 1 <= d <= 9 && #[trigger] self.cells[r][c].lists(d)
                ==> prior.cells[r][c].lists(d)
    }

    /// Whether this state can have come from `prior` by filling cells and
    /// striking candidates, without a fill made by search.
    pub open(crate) spec fn keeps(&self, prior: &Solver) -> bool {
        &&& self.cells_keep(prior)
        &&& self.unfilled_cells <= prior.unfilled_cells
        &&& self.brute_force_fills == prior.brute_force_fills
    }

    /// Whether this is the state of the empty grid: all 81 cells unfilled and
    /// listing every digit, nothing placed, every counter at 9.
    pub open(crate) spec fn is_blank(&self) -> bool {
        &&& self.wf()
        &&& self.at_rest()
        &&& self.unfilled() == 81
        &&& self.search_fills() == 0
        &&& self.certified(Set::<int>::empty())
        &&& forall|g: int, d: int|
            0 <= g < 27 && 1 <= d <= 9 ==> #[trigger] self.counter(g, d) == 9 && !self.placed(g, d)
        &&& forall|r: int, c: int, d: int|
            0 <= r < 9 && 0 <= c < 9 && 1 <= d <= 9 ==> #[trigger] self.cell(r, c).lists(d)
    }

    /// Whether this state is one that a fill of the cell `(r, c)` of `prior`
    /// with digit `v` may leave where it succeeds.
    #[verifier::opaque]
    pub open(crate) spec fn is_filled_from(&self, prior: &Solver, r: int, c: int, v: int) -> bool {
        &&& prior.cell(r, c).holds(v) || (prior.cell(r, c).is_open() && prior.conflict(r, c, v)
            is None)
        &&& prior.cell(r, c).holds(v) ==> *self == *prior
        &&& self.wf()
        &&& self.tidy()
        &&& self.keeps(prior)
        &&& self.cell(r, c).holds(v)
        &&& prior.at_rest() ==> self.at_rest() && self.is_closure_of(
            prior.filled().insert(9 * r + c),
        )
        &&& forall|free: Set<int>| #[trigger]
            prior.certified(free) ==> self.certified(free.insert(9 * r + c))
        &&& forall|s: Seq<u8>| #[trigger] prior.admits(s) && digit_at(s, r, c) == v ==> self.admits(s)
        &&& prior.cell(r, c).is_open() ==> self.unfilled() < prior.unfilled()
    }

    /// Whether a fill of the cell `(r, c)` with digit `v` may fail with `e`
    /// in this state: as `AlreadyFilled` exactly where the cell holds another
    /// digit, with the conflict of the first of the cell's row, column and
    /// square that has the digit, or with a conflict that propagation runs
    /// into; and in no case where a compatible valid grid has the digit there.
    pub open(crate) spec fn fill_fails_with(&self, r: int, c: int, v: int, e: SolveError) -> bool {
        &&& !self.cell(r, c).holds(v)
        &&& e == SolveError::AlreadyFilled <==> !self.cell(r, c).is_open()
        &&& self.cell(r, c).is_open() ==> match self.conflict(r, c, v) {
            Some(conflict) => e == conflict,
            None => e.is_conflict(),
        }
        &&& forall|s: Seq<u8>| !(#[trigger] self.admits(s) && digit_at(s, r, c) == v)
    }

    /// Whether `trail` are the states that loading the digits that `puzzle`
    /// gives for its first `n` cells goes through: the empty grid first, and
    /// after every cell the state with the cell loaded, every fill
    /// succeeding.
    pub open(crate) spec fn is_loading(puzzle: Seq<char>, n: int, trail: Seq<Solver>) -> bool {
        &&& trail.len() == n + 1
        &&& trail[0].is_blank()
        &&& forall|i: int|
            1 <= i <= n ==> (#[trigger] trail[i]).is_next_loaded(&trail[i - 1], puzzle, i - 1)
    }

    /// Whether `state` is one that loading the digits that `puzzle` gives
    /// for its first `n` cells may leave: the empty grid, filled with those
    /// digits in the order of the cells, every fill succeeding.
    #[verifier::opaque]
    pub open(crate) spec fn is_loaded(puzzle: Seq<char>, n: int, state: Solver) -> bool {
        exists|trail: Seq<Solver>| #[trigger] Self::is_loading(puzzle, n, trail) && trail[n] == state
    }

    /// Whether this state is `prior` after the cell with index `i` of
    /// `puzzle` is loaded: filled where the puzzle gives a digit for it.
    pub open(crate) spec fn is_next_loaded(&self, prior: &Solver, puzzle: Seq<char>, i: int) -> bool {
        if is_given(puzzle[i]) {
            self.is_filled_from(prior, i / 9, i % 9, given_digit(puzzle[i]))
        } else {
            *self == *prior
        }
    }

    /// Whether this state is `prior` with the counters of the row, the
    /// column and the square of `(r, c)` for digit `d` one less, and nothing
    /// else changed.
    pub open(crate) spec fn is_paid(&self, prior: &Solver, r: int, c: int, d: int) -> bool {
        &&& self.cells == prior.cells
        &&& self.value_occurrences == prior.value_occurrences
        &&& self.unfilled_cells == prior.unfilled_cells
        &&& self.brute_force_fills == prior.brute_force_fills
        &&& forall|g: int, e: int|
            0 <= g < 27 && 1 <= e <= 9 ==> #[trigger] self.counter(g, e) == prior.counter(g, e)
                - bit(in_unit(g, r, c) && e == d)
    }

    /// Whether this state is `prior` with digit `d` struck from the
    /// candidates of the cell `(r, c)`, the counters of the cell's row,
    /// column and square for the digit one less, and nothing else changed.
    pub open(crate) spec fn is_struck(&self, prior: &Solver, r: int, c: int, d: int) -> bool {
        &&& differ_only_at(prior.cells, self.cells, r, c)
        &&& prior.cells[r][c] matches Cell::Candidates(cs) && self.cells[r][c] matches Cell::Candidates(
            rest,
        ) && rest@ == cs@.update(d - 1, false)
        &&& self.value_occurrences == prior.value_occurrences
        &&& self.unfilled_cells == prior.unfilled_cells
        &&& self.brute_force_fills == prior.brute_force_fills
        &&& forall|g: int, e: int|
            0 <= g < 27 && 1 <= e <= 9 ==> #[trigger] self.counter(g, e) == prior.counter(g, e)
                - bit(in_unit(g, r, c) && e == d)
    }

    /// Whether each unit of `(r, c)` owes a decrement for digit `d`, beyond
    /// the one that a placed digit needs while it is still listed.
    pub open(crate) spec fn owes(&self, r: int, c: int, d: int) -> bool {
        forall|g: int|
            0 <= g < 27 && in_unit(g, r, c) ==> #[trigger] self.debt(g, d) >= self.need(g, d) + 1
    }

    /// Whether a decrement at `(r, c)` for digit `d` looks for no hidden
    /// single: every unit of the cell is skipped or does not have its
    /// counter fall to 1.
    pub open(crate) spec fn no_scan(&self, r: int, c: int, d: int, ignore: Group) -> bool {
        &&& ignore.skips_row() || self.counter(row_unit(r), d) != 2
        &&& ignore.skips_column() || self.counter(col_unit(c), d) != 2
        &&& ignore.skips_square() || self.counter(square_unit(r, c), d) != 2
    }

    /// What a decrement at `(r, c)` for digit `d` asks where it may look for
    /// hidden singles: the invariant of propagation, no naked single
    /// waiting, a decrement owed by each unit of the cell, and the digit
    /// placed in the units that are skipped.
    pub open(crate) spec fn may_decrement(&self, r: int, c: int, d: int, ignore: Group) -> bool {
        &&& self.wf()
        &&& self.tidy()
        &&& self.owes(r, c, d)
        &&& self.may_ignore(r, c, d, ignore)
    }

    /// What a decrement at `(r, c)` for digit `d` has found: in the first
    /// unit of the cell (row, then column, then square) that is not skipped
    /// and whose counter fell to 1, the cell that listed the digit holds it.
    /// A later unit may have lost its cell to what the first one set off:
    /// the cell was filled with another digit or struck of this one.  In
    /// either case no unit of the cell is left with a hidden single of the
    /// digit that waits to be filled.
    pub open(crate) spec fn found_singles(
        &self,
        prior: &Solver,
        r: int,
        c: int,
        d: int,
        ignore: Group,
    ) -> bool {
        let row_scan = !ignore.skips_row() && prior.counter(row_unit(r), d) == 2;
        let col_scan = !ignore.skips_column() && prior.counter(col_unit(c), d) == 2;
        let sqr_scan = !ignore.skips_square() && prior.counter(square_unit(r, c), d) == 2;
        &&& row_scan ==> self.hosts_hold(prior, row_unit(r), d)
        &&& col_scan && !row_scan ==> self.hosts_hold(prior, col_unit(c), d)
        &&& sqr_scan && !row_scan && !col_scan ==> self.hosts_hold(prior, square_unit(r, c), d)
        &&& forall|g: int| 0 <= g < 27 && in_unit(g, r, c) ==> !#[trigger] self.lone(g, d)
    }

    /// Whether every cell of unit `g` that listed digit `d` in `prior` holds
    /// it now.
    pub open(crate) spec fn hosts_hold(&self, prior: &Solver, g: int, d: int) -> bool {
        forall|i: int, j: int|
            0 <= i < 9 && 0 <= j < 9 && in_unit(g, i, j) && prior.cell(i, j).lists(d)
                ==> #[trigger] self.cell(i, j).holds(d)
    }

    /// Whether unit `g` has a single cell left for digit `d` and no
    /// decrement is owed: a hidden single that waits to be filled.
    pub open(crate) spec fn lone(&self, g: int, d: int) -> bool {
        self.counter(g, d) == 1 && live(self.cells, g, d) >= 1
    }

    /// Whether the cell `(r, c)` is unfilled with a single candidate left: a
    /// naked single that waits to be filled.
    pub open(crate) spec fn bare(&self, r: int, c: int) -> bool {
        match self.cells[r][c] {
            Cell::Value(_) => false,
            Cell::Candidates(cs) => candidate_count(cs) == 1,
        }
    }

    /// Whether no placed digit is newly listed in its unit.
    pub open(crate) spec fn settles(&self, prior: &Solver) -> bool {
        forall|g: int, d: int|
            0 <= g < 27 && 1 <= d <= 9 ==> #[trigger] self.need(g, d) <= prior.need(g, d)
    }

    /// Whether every hidden single that waits was waiting in `prior`.
    pub open(crate) spec fn no_new_lone(&self, prior: &Solver) -> bool {
        forall|g: int, d: int|
            0 <= g < 27 && 1 <= d <= 9 && #[trigger] self.lone(g, d) ==> prior.lone(g, d)
    }

    /// Whether every naked single that waits was waiting in `prior`.
    pub open(crate) spec fn no_new_bare(&self, prior: &Solver) -> bool {
        forall|r: int, c: int|
            0 <= r < 9 && 0 <= c < 9 && #[trigger] self.bare(r, c) ==> prior.bare(r, c)
    }

    /// Whether this state can have come from `prior` by propagation: placed
    /// digits stay, candidates only go, no placed digit is newly listed in
    /// its unit, and no single is left waiting that was not waiting before.
    pub open(crate) spec fn extends(&self, prior: &Solver) -> bool {
        &&& self.keeps(prior)
        &&& self.settles(prior)
        &&& self.no_new_lone(prior)
        &&& self.no_new_bare(prior)
    }

    /// Whether no naked single waits to be filled: every unfilled cell has
    /// two candidates or more.
    pub open(crate) spec fn tidy(&self) -> bool {
        forall|r: int, c: int| 0 <= r < 9 && 0 <= c < 9 ==> !#[trigger] self.bare(r, c)
    }

    /// Whether no naked single waits to be filled, except perhaps in the
    /// cell `(r, c)`.
    pub open(crate) spec fn tidy_but(&self, r: int, c: int) -> bool {
        forall|i: int, j: int|
            0 <= i < 9 && 0 <= j < 9 && (i != r || j != c) ==> !#[trigger] self.bare(i, j)
    }

    /// Whether no single waits to be filled: every unfilled cell has two
    /// candidates or more, and no unit has a single cell left for a digit
    /// while its counter is 1.
    pub open(crate) spec fn calm(&self) -> bool {
        &&& forall|g: int, d: int| 0 <= g < 27 && 1 <= d <= 9 ==> !#[trigger] self.lone(g, d)
        &&& self.tidy()
    }

    /// The invariant between fills: the invariant of propagation holds,
    /// nothing is owed and no single waits to be filled.
    pub open(crate) spec fn at_rest(&self) -> bool {
        &&& self.wf()
        &&& self.settled()
        &&& self.calm()
    }

    /// Whether skipping the hidden-single check for the units that
    /// `ignore` names is sound for a decrement at `(r, c)` for digit `d`:
    /// those units have the digit placed already.
    pub open(crate) spec fn may_ignore(&self, r: int, c: int, d: int, ignore: Group) -> bool {
        match ignore {
            Group::All => self.placed(row_unit(r), d) && self.placed(col_unit(c), d)
                && self.placed(square_unit(r, c), d),
            Group::Row => self.placed(row_unit(r), d),
            Group::Column => self.placed(col_unit(c), d),
            Group::Square => self.placed(square_unit(r, c), d),
            Group::Nothing => true,
        }
    }

    /// Whether `log` accounts for the filled cells: it lists them, every
    /// one of them, and it is a chain of singles from the cells in `free`.
    pub open(crate) spec fn certifies(&self, log: Seq<int>, free: Set<int>) -> bool {
        &&& is_chain(self.digits(), log, free)
        &&& forall|i: int|
            0 <= i < log.len() ==> !self.cells[#[trigger] log[i] / 9][log[i] % 9].is_open()
        &&& forall|r: int, c: int|
            0 <= r < 9 && 0 <= c < 9 && !(#[trigger] self.cells[r][c]).is_open() ==> filled_before(
                log,
                log.len() as int,
                r,
                c,
            )
    }

    /// Whether every filled cell is accounted for: the cells can be filled in
    /// an order in which every cell outside `free` is a naked or hidden
    /// single of the cells before it.
    pub open(crate) spec fn certified(&self, free: Set<int>) -> bool {
        exists|log: Seq<int>| self.certifies(log, free)
    }

    /// Whether the other cells of unit `g` leave `(r, c)` as the only place
    /// for digit `d` in the unit.
    pub open(crate) spec fn only_place(&self, g: int, r: int, c: int, d: int) -> bool {
        forall|k: int|
            0 <= k < 9 && (unit_row(g, k) != r || unit_col(g, k) != c) ==> !(#[trigger] slot_cell(
                self.cells,
                g,
                k,
            )).lists(d)
    }

    /// Whether the filled cells force digit `d` into the unfilled cell
    /// `(r, c)`: as a naked single, the cell listing no other digit, or as a
    /// hidden single, a unit of the cell having no other place for the digit.
    pub open(crate) spec fn forces(&self, r: int, c: int, d: int) -> bool {
        ||| forall|e: int| 1 <= e <= 9 && e != d ==> !#[trigger] self.cells[r][c].lists(e)
        ||| exists|g: int| 0 <= g < 27 && in_unit(g, r, c) && #[trigger] self.only_place(g, r, c, d)
    }

    /// Whether every account of the filled cells of `prior` extends to one
    /// of the filled cells of this state, with the same cells free.
    pub open(crate) spec fn certified_as(&self, prior: &Solver) -> bool {
        forall|free: Set<int>| #[trigger] prior.certified(free) ==> self.certified(free)
    }

    /// The cells that are filled, by their row-major indices.
    pub open(crate) spec fn filled(&self) -> Set<int> {
        Set::new(|x: int| 0 <= x < 81 && !self.cells[x / 9][x % 9].is_open())
    }

    /// Whether the filled cells are the closure of the cells in `free` under
    /// naked and hidden singles: in every compatible grid, a cell is filled
    /// exactly where singles derive it from those cells.
    #[verifier::opaque]
    pub open(crate) spec fn is_closure_of(&self, free: Set<int>) -> bool {
        forall|s: Seq<u8>, x: int|
            #![trigger self.admits(s), self.filled().contains(x)]
            self.admits(s) && 0 <= x < 81 ==> (self.filled().contains(x) <==> is_derivable(
                s,
                free,
                x,
            ))
    }

    /// Whether this complete grid has come from `prior` with the guesses
    /// `guesses`, in that order: singles account for every other cell that
    /// was filled since; every guess was needed, its cell not being derived
    /// by singles from the cells of `prior` and the guesses before, and was
    /// made at the first cell with the fewest digits left; and every guess
    /// is the least digit for its cell that a grid has that is compatible
    /// with `prior` and has the digits guessed before.
    #[verifier::opaque]
    pub open(crate) spec fn guessed_from(&self, prior: &Solver, guesses: Seq<int>) -> bool {
        &&& forall|free: Set<int>| #[trigger]
            prior.certified(free) ==> self.certified(free.union(guessed(guesses)))
        &&& forall|k: int|
            0 <= k < guesses.len() ==> !is_derivable(
                self.digits(),
                prior.filled().union(guessed_before(guesses, k)),
                #[trigger] guesses[k],
            )
        &&& forall|k: int|
            0 <= k < guesses.len() ==> is_branch(
                self.digits(),
                prior.filled().union(guessed_before(guesses, k)),
                #[trigger] guesses[k],
            )
        &&& forall|k: int, other: Seq<u8>|
            0 <= k < guesses.len() && prior.admits(other) && #[trigger] agree_before(
                other,
                self.digits(),
                guesses,
                k,
            ) ==> self.digits()[guesses[k]] <= other[guesses[k]]
    }

    /// Whether every valid grid that is compatible with `prior` is compatible
    /// with this state too.
    pub open(crate) spec fn admits_all_of(&self, prior: &Solver) -> bool {
        forall|s: Seq<u8>| #[trigger] prior.admits(s) ==> self.admits(s)
    }

    /// Whether the debts of this state are those of `prior`.
    pub open(crate) spec fn owes_as(&self, prior: &Solver) -> bool {
        forall|g: int, d: int|
            0 <= g < 27 && 1 <= d <= 9 ==> #[trigger] self.debt(g, d) == prior.debt(g, d)
    }
}

impl Default for Solver {
    /// The empty grid: every cell unfilled, with every digit possible.
    fn default() -> (solver: Self)
        ensures
            solver.wf(),
            solver.at_rest(),
            solver.unfilled() == 81,
            solver.search_fills() == 0,
            solver.certified(Set::<int>::empty()),
            solver.is_blank(),
            forall|g: int, d: int|
                0 <= g < 27 && 1 <= d <= 9 ==> #[trigger] solver.counter(g, d) == 9 && !solver.placed(
                    g,
                    d,
                ),
            forall|r: int, c: int, d: int|
                0 <= r < 9 && 0 <= c < 9 && 1 <= d <= 9 ==> #[trigger] solver.cell(r, c).lists(d),
    {
        let blank = Cell::default();
        let solver = Self {
            cells: [[blank; 9]; 9],
            value_occurrences: Default::default(),
            candidate_occurrences: Default::default(),
            unfilled_cells: 9 * 9,
            brute_force_fills: 0,
        };
        proof {
            assert forall|r: int, c: int|
                0 <= r < 9 && 0 <= c < 9 implies #[trigger] solver.cells[r][c]
                == blank by {}
            lemma_all_open(solver.cells, 81);
            assert(solver.certifies(Seq::<int>::empty(), Set::<int>::empty()));
            assert forall|g: int, d: int|
                0 <= g < 27 && 1 <= d <= 9 implies !#[trigger] solver.lone(
                g,
                d,
            ) by {
                assert(solver.candidate_occurrences.at(g, d) == 9);
            }
            assert forall|r: int, c: int| 0 <= r < 9 && 0 <= c < 9 implies !#[trigger] solver.bare(
                r,
                c,
            ) by {
                assert(solver.cells[r][c] == blank);
            }
            assert forall|g: int, d: int| 0 <= g < 27 && 1 <= d <= 9 implies holders(
                solver.cells,
                g,
                d,
            ) == 0 && live(solver.cells, g, d) == 9 by {
                reveal(holders);
                reveal(live);
                assert forall|k: int| 0 <= k < 9 implies (#[trigger] slot_cell(solver.cells, g, k))
                    == blank by {
                    lemma_slot_cell(g, k);
                }
            }
        }
        solver
    }
}

impl Solver {
    /// The number of cells that are still unfilled.
    pub fn unfilled_cells(&self) -> (count: u8)
        ensures
            count == self.unfilled(),
    {
        self.unfilled_cells
    }

    /// The number of fills that the search has made.
    pub fn brute_force_fills(&self) -> (count: u8)
        ensures
            count == self.search_fills(),
    {
        self.brute_force_fills
    }

    /// The cell at `coords`.
    pub fn cell_at(&self, coords: (usize, usize)) -> (cell: Cell)
        requires
            coords.0 < 9,
            coords.1 < 9,
        ensures
            cell == self.cell(coords.0 as int, coords.1 as int),
    {
        self.cells[coords.0][coords.1]
    }
}

} // verus!
