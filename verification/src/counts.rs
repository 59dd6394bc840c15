//! Counting over the cells of a grid: how many cells of a unit list or hold
//! a digit, and how many cells are unfilled.
use vstd::prelude::*;
use crate::board::{in_unit, lemma_cell_slot, lemma_slot_cell, slot_of, unit_col, unit_row};
use crate::cell::Cell;
use crate::tally::{
    bit, lemma_tally_bounds, lemma_tally_change, lemma_tally_counts, lemma_tally_monotone,
    lemma_tally_same, lemma_tally_witness, tally,
};

verus! {


/// The 9x9 cells of a grid, indexed by row, then column.
pub type Cells = [[Cell; 9]; 9];

/// The cell in slot `k` of unit `g`.
pub open spec fn slot_cell(cells: Cells, g: int, k: int) -> Cell {
    cells[unit_row(g, k)][unit_col(g, k)]
}

/// The number of unfilled cells of unit `g` that list digit `d`.
#[verifier::opaque]
pub open spec fn live(cells: Cells, g: int, d: int) -> int {
    tally(|k: int| slot_cell(cells, g, k).lists(d))
}

/// The number of cells of unit `g` that hold digit `d`.
#[verifier::opaque]
pub open spec fn holders(cells: Cells, g: int, d: int) -> int {
    tally(|k: int| slot_cell(cells, g, k).holds(d))
}

/// 1 where the cell with row-major index `i` is unfilled, else 0.
pub open spec fn open_bit(cells: Cells, i: int) -> int {
    if cells[i / 9][i % 9].is_open() {
        1
    } else {
        0
    }
}

/// The number of unfilled cells among the first `n` cells in row-major order.
pub open spec fn open_upto(cells: Cells, n: int) -> int
    decreases n,
{
    if n <= 0 {
        0
    } else {
        open_upto(cells, n - 1) + open_bit(cells, n - 1)
    }
}

/// The two grids agree on every cell but `(r, c)`.
pub open spec fn differ_only_at(a: Cells, b: Cells, r: int, c: int) -> bool {
    forall|i: int, j: int|
        0 <= i < 9 && 0 <= j < 9 && (i != r || j != c) ==> #[trigger] b[i][j] == a[i][j]
}

/// Outside the cell `(r, c)` the slots of a unit show the same cells in both
/// grids; the cell itself sits in one slot of each unit that it belongs to.
pub(crate) proof fn lemma_slot_unchanged(a: Cells, b: Cells, r: int, c: int, g: int, k: int)
    requires
        0 <= r < 9,
        0 <= c < 9,
        0 <= g < 27,
        0 <= k < 9,
        differ_only_at(a, b, r, c),
        !in_unit(g, r, c) || k != slot_of(g, r, c),
    ensures
        slot_cell(b, g, k) == slot_cell(a, g, k),
{
    lemma_slot_cell(g, k);
    assert(b[unit_row(g, k)][unit_col(g, k)] == a[unit_row(g, k)][unit_col(g, k)]);
}

/// Changing one cell changes the live count of the units that it belongs to,
/// and of no others.
pub(crate) proof fn lemma_live_change(a: Cells, b: Cells, r: int, c: int, g: int, d: int)
    requires
        0 <= r < 9,
        0 <= c < 9,
        0 <= g < 27,
        differ_only_at(a, b, r, c),
    ensures
        in_unit(g, r, c) ==> live(b, g, d) == live(a, g, d) - bit(a[r][c].lists(d)) + bit(
            b[r][c].lists(d),
        ),
        !in_unit(g, r, c) ==> live(b, g, d) == live(a, g, d),
{
    reveal(live);
    let f = |k: int| slot_cell(a, g, k).lists(d);
    let h = |k: int| slot_cell(b, g, k).lists(d);
    if in_unit(g, r, c) {
        lemma_cell_slot(g, r, c);
        let k0 = slot_of(g, r, c);
        assert forall|k: int| 0 <= k < 9 && k != k0 implies #[trigger] f(k) == h(k) by {
            lemma_slot_unchanged(a, b, r, c, g, k);
        }
        lemma_tally_change(f, h, k0);
    } else {
        assert forall|k: int| 0 <= k < 9 implies #[trigger] f(k) == h(k) by {
            lemma_slot_unchanged(a, b, r, c, g, k);
        }
        lemma_tally_same(f, h);
    }
}

/// Changing one cell changes the holder count of the units that it belongs
/// to, and of no others.
pub(crate) proof fn lemma_holders_change(a: Cells, b: Cells, r: int, c: int, g: int, d: int)
    requires
        0 <= r < 9,
        0 <= c < 9,
        0 <= g < 27,
        differ_only_at(a, b, r, c),
    ensures
        in_unit(g, r, c) ==> holders(b, g, d) == holders(a, g, d) - bit(a[r][c].holds(d)) + bit(
            b[r][c].holds(d),
        ),
        !in_unit(g, r, c) ==> holders(b, g, d) == holders(a, g, d),
{
    reveal(holders);
    let f = |k: int| slot_cell(a, g, k).holds(d);
    let h = |k: int| slot_cell(b, g, k).holds(d);
    if in_unit(g, r, c) {
        lemma_cell_slot(g, r, c);
        let k0 = slot_of(g, r, c);
        assert forall|k: int| 0 <= k < 9 && k != k0 implies #[trigger] f(k) == h(k) by {
            lemma_slot_unchanged(a, b, r, c, g, k);
        }
        lemma_tally_change(f, h, k0);
    } else {
        assert forall|k: int| 0 <= k < 9 implies #[trigger] f(k) == h(k) by {
            lemma_slot_unchanged(a, b, r, c, g, k);
        }
        lemma_tally_same(f, h);
    }
}

/// Changing one cell changes the count of unfilled cells by that cell alone.
pub(crate) proof fn lemma_open_change(a: Cells, b: Cells, r: int, c: int, n: int)
    requires
        0 <= r < 9,
        0 <= c < 9,
        0 <= n <= 81,
        differ_only_at(a, b, r, c),
    ensures
        open_upto(b, n) == open_upto(a, n) + (if 9 * r + c < n {
            bit(b[r][c].is_open()) - bit(a[r][c].is_open())
        } else {
            0
        }),
    decreases n,
{
    if n > 0 {
        lemma_open_change(a, b, r, c, n - 1);
        let i = n - 1;
        if i / 9 == r && i % 9 == c {
            assert(i == 9 * r + c);
        } else {
            assert(b[i / 9][i % 9] == a[i / 9][i % 9]);
            assert(i != 9 * r + c);
        }
    }
}

/// An unfilled cell counts among the unfilled cells.
pub(crate) proof fn lemma_open_counts(cells: Cells, r: int, c: int, n: int)
    requires
        0 <= r < 9,
        0 <= c < 9,
        9 * r + c < n <= 81,
        cells[r][c].is_open(),
    ensures
        open_upto(cells, n) >= 1,
    decreases n,
{
    lemma_open_bounds(cells, n - 1);
    if n - 1 == 9 * r + c {
        assert((n - 1) / 9 == r && (n - 1) % 9 == c);
    } else {
        lemma_open_counts(cells, r, c, n - 1);
    }
}

/// There are at most as many unfilled cells as cells.
pub(crate) proof fn lemma_open_bounds(cells: Cells, n: int)
    requires
        0 <= n,
    ensures
        0 <= open_upto(cells, n) <= n,
    decreases n,
{
    if n > 0 {
        lemma_open_bounds(cells, n - 1);
    }
}

/// Where no cell is unfilled, every cell holds a digit.
pub(crate) proof fn lemma_none_open(cells: Cells, r: int, c: int)
    requires
        0 <= r < 9,
        0 <= c < 9,
        open_upto(cells, 81) == 0,
    ensures
        !cells[r][c].is_open(),
{
    if cells[r][c].is_open() {
        lemma_open_counts(cells, r, c, 81);
    }
}

/// A unit in which no cell lists a digit has live count 0 for it.
pub(crate) proof fn lemma_live_zero(cells: Cells, g: int, d: int)
    requires
        forall|k: int| 0 <= k < 9 ==> !(#[trigger] slot_cell(cells, g, k)).lists(d),
    ensures
        live(cells, g, d) == 0,
{
    reveal(live);
    lemma_tally_same(|k: int| slot_cell(cells, g, k).lists(d), |k: int| false);
}

/// A unit in which one cell lists a digit has live count 1 for it.
pub(crate) proof fn lemma_live_one(cells: Cells, g: int, k0: int, d: int)
    requires
        0 <= k0 < 9,
        slot_cell(cells, g, k0).lists(d),
        forall|k: int| 0 <= k < 9 && k != k0 ==> !(#[trigger] slot_cell(cells, g, k)).lists(d),
    ensures
        live(cells, g, d) == 1,
{
    reveal(live);
    let f = |k: int| false;
    let h = |k: int| slot_cell(cells, g, k).lists(d);
    assert forall|k: int| 0 <= k < 9 && k != k0 implies #[trigger] f(k) == h(k) by {
        assert(!slot_cell(cells, g, k).lists(d));
    }
    lemma_tally_change(f, h, k0);
}

/// Where no cell is unfilled, the count of unfilled cells is 0.
pub(crate) proof fn lemma_all_filled(cells: Cells, n: int)
    requires
        0 <= n <= 81,
        forall|r: int, c: int| 0 <= r < 9 && 0 <= c < 9 ==> !(#[trigger] cells[r][c]).is_open(),
    ensures
        open_upto(cells, n) == 0,
    decreases n,
{
    if n > 0 {
        lemma_all_filled(cells, n - 1);
        assert(!cells[(n - 1) / 9][(n - 1) % 9].is_open());
    }
}

/// A unit with live count 0 for a digit has no cell that lists it.
pub(crate) proof fn lemma_live_none(cells: Cells, g: int, r: int, c: int, d: int)
    requires
        0 <= g < 27,
        0 <= r < 9,
        0 <= c < 9,
        in_unit(g, r, c),
        live(cells, g, d) == 0,
    ensures
        !cells[r][c].lists(d),
{
    reveal(live);
    lemma_cell_slot(g, r, c);
    if cells[r][c].lists(d) {
        lemma_tally_counts(|k: int| slot_cell(cells, g, k).lists(d), slot_of(g, r, c));
    }
}

/// A cell that lists a digit counts in the live counts of its units.
pub(crate) proof fn lemma_live_counts(cells: Cells, g: int, r: int, c: int, d: int)
    requires
        0 <= g < 27,
        0 <= r < 9,
        0 <= c < 9,
        in_unit(g, r, c),
        cells[r][c].lists(d),
    ensures
        live(cells, g, d) >= 1,
{
    if live(cells, g, d) <= 0 {
        lemma_live_bounds(cells, g, d);
        lemma_live_none(cells, g, r, c, d);
    }
}

/// Live counts lie between 0 and 9.
pub(crate) proof fn lemma_live_bounds(cells: Cells, g: int, d: int)
    ensures
        0 <= live(cells, g, d) <= 9,
{
    reveal(live);
    lemma_tally_bounds(|k: int| slot_cell(cells, g, k).lists(d));
}

/// Where every cell lists no more than before, live counts do not grow.
pub(crate) proof fn lemma_live_monotone(a: Cells, b: Cells, g: int, d: int)
    requires
        0 <= g < 27,
        forall|r: int, c: int|
            0 <= r < 9 && 0 <= c < 9 && (#[trigger] b[r][c]).lists(d) ==> a[r][c].lists(d),
    ensures
        live(b, g, d) <= live(a, g, d),
{
    reveal(live);
    let f = |k: int| slot_cell(b, g, k).lists(d);
    let h = |k: int| slot_cell(a, g, k).lists(d);
    assert forall|k: int| 0 <= k < 9 && #[trigger] f(k) implies h(k) by {
        lemma_slot_cell(g, k);
        assert(b[unit_row(g, k)][unit_col(g, k)].lists(d));
    }
    lemma_tally_monotone(f, h);
}

/// A cell that holds a digit counts among the holders of its units.
pub(crate) proof fn lemma_holder_counts(cells: Cells, g: int, r: int, c: int, d: int)
    requires
        0 <= g < 27,
        0 <= r < 9,
        0 <= c < 9,
        in_unit(g, r, c),
        cells[r][c].holds(d),
    ensures
        holders(cells, g, d) >= 1,
{
    reveal(holders);
    lemma_cell_slot(g, r, c);
    lemma_tally_counts(|k: int| slot_cell(cells, g, k).holds(d), slot_of(g, r, c));
}

/// A unit with a holder of a digit has a cell that holds it.
pub(crate) proof fn lemma_holder_witness(cells: Cells, g: int, d: int) -> (k: int)
    requires
        0 <= g < 27,
        holders(cells, g, d) >= 1,
    ensures
        0 <= k < 9,
        slot_cell(cells, g, k).holds(d),
{
    reveal(holders);
    lemma_tally_witness(|k: int| slot_cell(cells, g, k).holds(d))
}

/// Where every cell is unfilled, all of the first `n` cells are.
pub(crate) proof fn lemma_all_open(cells: Cells, n: int)
    requires
        0 <= n <= 81,
        forall|r: int, c: int| 0 <= r < 9 && 0 <= c < 9 ==> (#[trigger] cells[r][c]).is_open(),
    ensures
        open_upto(cells, n) == n,
    decreases n,
{
    if n > 0 {
        lemma_all_open(cells, n - 1);
        assert(cells[(n - 1) / 9][(n - 1) % 9].is_open());
    }
}

} // verus!
