//! Geometry of the 9x9 grid and the mathematical model of a filled grid.
//!
//! The grid has 27 units: rows are units `0..9`, columns are units `9..18`
//! and the 3x3 squares are units `18..27`.  Every unit has nine slots; the
//! functions [`unit_row`] and [`unit_col`] give the cell that sits in a slot.
//! A filled grid is modelled as a `Seq<u8>` of 81 digits in row-major order.
use vstd::prelude::*;
use crate::tally::{bit, lemma_tally_two, lemma_tally_witness, tally};

verus! {

/// Row of the cell in slot `k` of unit `g`.
pub open spec fn unit_row(g: int, k: int) -> int {
    if g < 9 {
        g
    } else if g < 18 {
        k
    } else {
        3 * ((g - 18) / 3) + k / 3
    }
}

/// Column of the cell in slot `k` of unit `g`.
pub open spec fn unit_col(g: int, k: int) -> int {
    if g < 9 {
        k
    } else if g < 18 {
        g - 9
    } else {
        3 * ((g - 18) % 3) + k % 3
    }
}

/// The unit that is row `r`.
pub open spec fn row_unit(r: int) -> int {
    r
}

/// The unit that is column `c`.
pub open spec fn col_unit(c: int) -> int {
    9 + c
}

/// The unit that is the 3x3 square around the cell `(r, c)`.
pub open spec fn square_unit(r: int, c: int) -> int {
    18 + 3 * (r / 3) + c / 3
}

/// The slot that the cell `(r, c)` has inside its 3x3 square.
pub open spec fn square_slot(r: int, c: int) -> int {
    3 * (r % 3) + c % 3
}

/// Whether the cell `(r, c)` belongs to unit `g`.
pub open spec fn in_unit(g: int, r: int, c: int) -> bool {
    g == row_unit(r) || g == col_unit(c) || g == square_unit(r, c)
}

/// The slot that the cell `(r, c)` has inside unit `g`, where it belongs to it.
pub open spec fn slot_of(g: int, r: int, c: int) -> int {
    if g < 9 {
        c
    } else if g < 18 {
        r
    } else {
        square_slot(r, c)
    }
}

/// Convert the coordinates of a cell to the coordinates of the 3x3 square
/// that it is located in.
pub fn cell_to_square(coords: (usize, usize)) -> (square: (usize, usize))
    ensures
        square.0 == coords.0 / 3,
        square.1 == coords.1 / 3,
{
    (coords.0 / 3, coords.1 / 3)
}

/// Convert an index in `0..9` to the coordinates of the corresponding cell
/// in a 3x3 grid.
pub fn index_to_3x3_coords(idx: usize) -> (coords: (usize, usize))
    ensures
        coords.0 == idx / 3,
        coords.1 == idx % 3,
{
    (idx / 3, idx % 3)
}

/// The coordinates of the cell in slot `slot` of unit `unit`.
pub fn unit_slot(unit: usize, slot: usize) -> (coords: (usize, usize))
    requires
        unit < 27,
        slot < 9,
    ensures
        coords.0 == unit_row(unit as int, slot as int),
        coords.1 == unit_col(unit as int, slot as int),
        coords.0 < 9,
        coords.1 < 9,
{
    if unit < 9 {
        (unit, slot)
    } else if unit < 18 {
        (slot, unit - 9)
    } else {
        let square = index_to_3x3_coords(unit - 18);
        let relative = index_to_3x3_coords(slot);
        (3 * square.0 + relative.0, 3 * square.1 + relative.1)
    }
}

/// A slot of a unit names a cell of that unit, in the slot that `slot_of` gives.
pub(crate) proof fn lemma_slot_cell(g: int, k: int)
    requires
        0 <= g < 27,
        0 <= k < 9,
    ensures
        0 <= unit_row(g, k) < 9,
        0 <= unit_col(g, k) < 9,
        in_unit(g, unit_row(g, k), unit_col(g, k)),
        slot_of(g, unit_row(g, k), unit_col(g, k)) == k,
{
}

/// A cell sits in exactly one slot of each unit that it belongs to.
pub(crate) proof fn lemma_cell_slot(g: int, r: int, c: int)
    requires
        0 <= g < 27,
        0 <= r < 9,
        0 <= c < 9,
        in_unit(g, r, c),
    ensures
        0 <= slot_of(g, r, c) < 9,
        unit_row(g, slot_of(g, r, c)) == r,
        unit_col(g, slot_of(g, r, c)) == c,
{
}

/// The digit that the grid `s` holds at `(r, c)`.
pub open spec fn digit_at(s: Seq<u8>, r: int, c: int) -> int {
    s[9 * r + c] as int
}

/// How often digit `d` stands in unit `g` of the grid `s`.
pub open spec fn occurrences(s: Seq<u8>, g: int, d: int) -> int {
    tally(|k: int| digit_at(s, unit_row(g, k), unit_col(g, k)) == d)
}

/// A complete, valid grid: 81 digits in `1..=9`, and every row, column and
/// 3x3 square contains each digit exactly once.
pub open spec fn is_valid_grid(s: Seq<u8>) -> bool {
    &&& s.len() == 81
    &&& forall|i: int| 0 <= i < 81 ==> 1 <= #[trigger] s[i] <= 9
    &&& forall|g: int, d: int| 0 <= g < 27 && 1 <= d <= 9 ==> #[trigger] occurrences(s, g, d) == 1
}

/// In a valid grid every digit stands somewhere in every unit.
pub(crate) proof fn lemma_digit_has_slot(s: Seq<u8>, g: int, d: int) -> (k: int)
    requires
        is_valid_grid(s),
        0 <= g < 27,
        1 <= d <= 9,
    ensures
        0 <= k < 9,
        digit_at(s, unit_row(g, k), unit_col(g, k)) == d,
{
    assert(occurrences(s, g, d) == 1);
    lemma_tally_witness(|k: int| digit_at(s, unit_row(g, k), unit_col(g, k)) == d)
}

/// In a valid grid two different slots of a unit hold different digits.
pub(crate) proof fn lemma_slots_differ(s: Seq<u8>, g: int, j: int, k: int)
    requires
        is_valid_grid(s),
        0 <= g < 27,
        0 <= j < 9,
        0 <= k < 9,
        j != k,
    ensures
        digit_at(s, unit_row(g, j), unit_col(g, j)) != digit_at(s, unit_row(g, k), unit_col(g, k)),
{
    let d = digit_at(s, unit_row(g, j), unit_col(g, j));
    lemma_slot_cell(g, j);
    assert(1 <= s[9 * unit_row(g, j) + unit_col(g, j)] <= 9);
    assert(occurrences(s, g, d) == 1);
    if digit_at(s, unit_row(g, k), unit_col(g, k)) == d {
        lemma_tally_two(|i: int| digit_at(s, unit_row(g, i), unit_col(g, i)) == d, j, k);
    }
}

/// In a valid grid two different cells of one unit hold different digits.
pub(crate) proof fn lemma_peers_differ(s: Seq<u8>, g: int, r1: int, c1: int, r2: int, c2: int)
    requires
        is_valid_grid(s),
        0 <= g < 27,
        0 <= r1 < 9,
        0 <= c1 < 9,
        0 <= r2 < 9,
        0 <= c2 < 9,
        in_unit(g, r1, c1),
        in_unit(g, r2, c2),
        r1 != r2 || c1 != c2,
    ensures
        digit_at(s, r1, c1) != digit_at(s, r2, c2),
{
    lemma_cell_slot(g, r1, c1);
    lemma_cell_slot(g, r2, c2);
    lemma_slots_differ(s, g, slot_of(g, r1, c1), slot_of(g, r2, c2));
}

/// How many of the digits `1..=9` the number `x` is: 1 or 0.
pub open spec fn digit_bits(x: int) -> int {
    bit(x == 1) + bit(x == 2) + bit(x == 3) + bit(x == 4) + bit(x == 5) + bit(x == 6) + bit(x == 7)
        + bit(x == 8) + bit(x == 9)
}

/// Nine digits in a unit, none of them twice, are all nine digits.
pub(crate) proof fn lemma_pigeonhole(s: Seq<u8>, g: int)
    requires
        s.len() == 81,
        forall|i: int| 0 <= i < 81 ==> 1 <= #[trigger] s[i] <= 9,
        0 <= g < 27,
        forall|d: int| 1 <= d <= 9 ==> #[trigger] occurrences(s, g, d) <= 1,
    ensures
        forall|d: int| 1 <= d <= 9 ==> #[trigger] occurrences(s, g, d) == 1,
{
    let x = |k: int| digit_at(s, unit_row(g, k), unit_col(g, k));
    assert forall|k: int| 0 <= k < 9 implies digit_bits(#[trigger] x(k)) == 1 by {
        lemma_slot_cell(g, k);
        assert(1 <= s[9 * unit_row(g, k) + unit_col(g, k)] <= 9);
    }
    let total = occurrences(s, g, 1) + occurrences(s, g, 2) + occurrences(s, g, 3) + occurrences(
        s,
        g,
        4,
    ) + occurrences(s, g, 5) + occurrences(s, g, 6) + occurrences(s, g, 7) + occurrences(s, g, 8)
        + occurrences(s, g, 9);
    assert(total == digit_bits(x(0)) + digit_bits(x(1)) + digit_bits(x(2)) + digit_bits(x(3))
        + digit_bits(x(4)) + digit_bits(x(5)) + digit_bits(x(6)) + digit_bits(x(7)) + digit_bits(
        x(8),
    ));
    assert(total == 9);
}

} // verus!
