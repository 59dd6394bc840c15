//! A family of valid grids: for every cell and digit there is a valid grid
//! that has the digit in the cell.
use vstd::prelude::*;
use crate::board::{digit_at, is_valid_grid, lemma_slot_cell, occurrences, unit_col, unit_row};
use crate::tally::{lemma_tally_same, tally};

verus! {

/// The digit of the cell `(r, c)` in the grid with shift `k`: the rows of a
/// band are shifted by three, the bands by one.
pub open spec fn pattern_digit(r: int, c: int, k: int) -> int {
    (3 * (r % 3) + r / 3 + c + k) % 9 + 1
}

/// The grid with shift `k`.
pub open spec fn pattern(k: int) -> Seq<u8> {
    Seq::new(81, |i: int| pattern_digit(i / 9, i % 9, k) as u8)
}

/// The place of slot `j` among the residues: the slot itself where `swap`
/// is false, and the slot with its two base-three digits swapped where it is
/// true.
pub open spec fn weight(j: int, swap: bool) -> int {
    if swap {
        3 * (j % 3) + j / 3
    } else {
        j
    }
}

/// Nine numbers that differ by the nine weights have each residue of 9 once.
proof fn lemma_residues(base: int, t: int, swap: bool)
    requires
        0 <= base,
        0 <= t < 9,
    ensures
        tally(|j: int| (base + weight(j, swap)) % 9 == t) == 1,
{
    let m = base % 9;
    assert((base + 0) % 9 == (m + 0) % 9);
    assert((base + 1) % 9 == (m + 1) % 9);
    assert((base + 2) % 9 == (m + 2) % 9);
    assert((base + 3) % 9 == (m + 3) % 9);
    assert((base + 4) % 9 == (m + 4) % 9);
    assert((base + 5) % 9 == (m + 5) % 9);
    assert((base + 6) % 9 == (m + 6) % 9);
    assert((base + 7) % 9 == (m + 7) % 9);
    assert((base + 8) % 9 == (m + 8) % 9);
    assert(weight(0, swap) == 0 && weight(8, swap) == 8 && weight(4, swap) == 4);
    assert(weight(1, swap) == if swap { 3int } else { 1int });
    assert(weight(2, swap) == if swap { 6int } else { 2int });
    assert(weight(3, swap) == if swap { 1int } else { 3int });
    assert(weight(5, swap) == if swap { 7int } else { 5int });
    assert(weight(6, swap) == if swap { 2int } else { 6int });
    assert(weight(7, swap) == if swap { 5int } else { 7int });
    if m == 0 {
    } else if m == 1 {
    } else if m == 2 {
    } else if m == 3 {
    } else if m == 4 {
    } else if m == 5 {
    } else if m == 6 {
    } else if m == 7 {
    } else {
    }
}

/// Every grid of the family is valid.
pub(crate) proof fn lemma_pattern_valid(k: int)
    requires
        0 <= k,
    ensures
        is_valid_grid(pattern(k)),
        forall|r: int, c: int|
            0 <= r < 9 && 0 <= c < 9 ==> #[trigger] digit_at(pattern(k), r, c) == pattern_digit(
                r,
                c,
                k,
            ),
{
    let s = pattern(k);
    assert forall|r: int, c: int| 0 <= r < 9 && 0 <= c < 9 implies #[trigger] digit_at(s, r, c)
        == pattern_digit(r, c, k) by {
        assert((9 * r + c) / 9 == r && (9 * r + c) % 9 == c);
    }
    assert forall|i: int| 0 <= i < 81 implies 1 <= #[trigger] s[i] <= 9 by {}
    assert forall|g: int, d: int| 0 <= g < 27 && 1 <= d <= 9 implies #[trigger] occurrences(
        s,
        g,
        d,
    ) == 1 by {
        let swap = 9 <= g < 18;
        let base = if g < 9 {
            3 * (g % 3) + g / 3 + k
        } else if g < 18 {
            g - 9 + k
        } else {
            (g - 18) / 3 + 3 * ((g - 18) % 3) + k
        };
        let f = |j: int| digit_at(s, unit_row(g, j), unit_col(g, j)) == d;
        let h = |j: int| (base + weight(j, swap)) % 9 == d - 1;
        assert forall|j: int| 0 <= j < 9 implies #[trigger] f(j) == h(j) by {
            lemma_slot_cell(g, j);
            assert(digit_at(s, unit_row(g, j), unit_col(g, j)) == pattern_digit(
                unit_row(g, j),
                unit_col(g, j),
                k,
            ));
        }
        lemma_tally_same(h, f);
        lemma_residues(base, d - 1, swap);
    }
}

/// The shift that brings the digit `v` to a cell whose digit without shift
/// is `x % 9 + 1`.
proof fn lemma_shift(x: int, v: int) -> (k: int)
    requires
        0 <= x,
        1 <= v <= 9,
    ensures
        0 <= k < 9,
        (x + k) % 9 + 1 == v,
{
    let z = x % 9;
    let k = (v - 1 - z + 9) % 9;
    assert((x + k) % 9 == (z + k) % 9);
    k
}

/// For every cell and digit there is a valid grid that has the digit in the
/// cell.
pub(crate) proof fn lemma_valid_grid_with(r: int, c: int, v: int) -> (s: Seq<u8>)
    requires
        0 <= r < 9,
        0 <= c < 9,
        1 <= v <= 9,
    ensures
        is_valid_grid(s),
        digit_at(s, r, c) == v,
{
    let k = lemma_shift(3 * (r % 3) + r / 3 + c, v);
    assert(pattern_digit(r, c, k) == v);
    lemma_pattern_valid(k);
    assert(digit_at(pattern(k), r, c) == pattern_digit(r, c, k));
    pattern(k)
}

} // verus!
