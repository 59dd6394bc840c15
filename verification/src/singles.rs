//! What naked and hidden singles derive, and the guesses of a search.
//!
//! A chain of singles lists cells of a grid in an order in which every cell
//! is either free (given by the puzzle, or guessed) or forced by the cells
//! before it: as a naked single, where those cells leave the cell no other
//! digit, or as a hidden single, where they leave its digit no other place
//! in one of its units.  A search guesses where singles derive no more:
//! at the first of the cells with the fewest digits left, the least digit
//! that leads to a solution.
use vstd::prelude::*;
use crate::board::{in_unit, square_unit, unit_col, unit_row};
use crate::puzzle::{given_upto, is_solution_of};
use crate::tally::bit;

verus! {

/// Whether `(r1, c1)` and `(r2, c2)` are two cells of one row, column or
/// square.
pub open spec fn are_peers(r1: int, c1: int, r2: int, c2: int) -> bool {
    &&& r1 != r2 || c1 != c2
    &&& r1 == r2 || c1 == c2 || square_unit(r1, c1) == square_unit(r2, c2)
}

/// Whether a cell before position `i` of `order` is a peer of `(r, c)` and
/// has digit `e` in the grid `s`.
pub open spec fn seen_before(s: Seq<u8>, order: Seq<int>, i: int, r: int, c: int, e: int) -> bool {
    exists|j: int|
        0 <= j < i && #[trigger] s[order[j]] == e && are_peers(order[j] / 9, order[j] % 9, r, c)
}

/// Whether the cell `(r, c)` stands before position `i` of `order`.
pub open spec fn filled_before(order: Seq<int>, i: int, r: int, c: int) -> bool {
    exists|j: int| 0 <= j < i && #[trigger] order[j] == 9 * r + c
}

/// Whether the cell at position `i` of `order` is a naked single: the cells
/// before it show every other digit to the cell.
pub open spec fn is_naked_single(s: Seq<u8>, order: Seq<int>, i: int) -> bool {
    forall|e: int|
        1 <= e <= 9 && e != s[order[i]] ==> #[trigger] seen_before(
            s,
            order,
            i,
            order[i] / 9,
            order[i] % 9,
            e,
        )
}

/// Whether no other cell of unit `g` can take the digit of the cell at
/// position `i` of `order`: each of them stands before it or is shown the
/// digit by a cell before it.
pub open spec fn is_last_place(s: Seq<u8>, order: Seq<int>, i: int, g: int) -> bool {
    forall|k: int|
        0 <= k < 9 && 9 * unit_row(g, k) + unit_col(g, k) != order[i] ==> #[trigger] filled_before(
            order,
            i,
            unit_row(g, k),
            unit_col(g, k),
        ) || seen_before(s, order, i, unit_row(g, k), unit_col(g, k), s[order[i]] as int)
}

/// Whether the cell at position `i` of `order` is a hidden single: in one of
/// its units the cells before it leave its digit no other place.
pub open spec fn is_hidden_single(s: Seq<u8>, order: Seq<int>, i: int) -> bool {
    exists|g: int|
        0 <= g < 27 && in_unit(g, order[i] / 9, order[i] % 9) && #[trigger] is_last_place(
            s,
            order,
            i,
            g,
        )
}

/// Whether `order` is a chain of singles from the cells in `free`: every
/// cell in it is free or is a naked or hidden single of the cells before it.
pub open spec fn is_chain(s: Seq<u8>, order: Seq<int>, free: Set<int>) -> bool {
    &&& forall|i: int| 0 <= i < order.len() ==> 0 <= #[trigger] order[i] < 81
    &&& forall|i: int|
        0 <= i < order.len() ==> free.contains(#[trigger] order[i]) || is_naked_single(
            s,
            order,
            i,
        ) || is_hidden_single(s, order, i)
}

/// Whether singles derive the cell `x` of the grid `s` from the cells in
/// `free`: a chain of singles from them reaches it.
pub open spec fn is_derivable(s: Seq<u8>, free: Set<int>, x: int) -> bool {
    exists|order: Seq<int>, i: int|
        is_chain(s, order, free) && 0 <= i < order.len() && #[trigger] order[i] == x
}

/// The cells that `puzzle` gives a digit for, by their row-major indices.
pub open spec fn given_cells(puzzle: Seq<char>) -> Set<int> {
    given_upto(puzzle, 81)
}

/// The first `k` cells of `guesses`, as a set.
pub open spec fn guessed_before(guesses: Seq<int>, k: int) -> Set<int> {
    Set::new(|x: int| exists|j: int| 0 <= j < k && #[trigger] guesses[j] == x)
}

/// The cells of `guesses`, as a set.
pub open spec fn guessed(guesses: Seq<int>) -> Set<int> {
    guessed_before(guesses, guesses.len() as int)
}

/// Whether `order` derives the grid `s` from `puzzle` and the cells in
/// `guessed`: `s` solves the puzzle, `order` lists every cell, and every
/// cell in it is given by the puzzle, is one of the guessed cells, or is a
/// naked or hidden single of the cells before it.
pub open spec fn is_derivation_with(
    puzzle: Seq<char>,
    s: Seq<u8>,
    order: Seq<int>,
    guessed: Set<int>,
) -> bool {
    &&& is_solution_of(s, puzzle)
    &&& is_chain(s, order, given_cells(puzzle).union(guessed))
    &&& forall|r: int, c: int|
        0 <= r < 9 && 0 <= c < 9 ==> #[trigger] filled_before(order, order.len() as int, r, c)
}

/// Whether `order` derives the grid `s` from `puzzle` by singles alone.
pub open spec fn is_derivation(puzzle: Seq<char>, s: Seq<u8>, order: Seq<int>) -> bool {
    is_derivation_with(puzzle, s, order, Set::<int>::empty())
}

/// Whether singles derive the grid `s` from `puzzle` once the cells in
/// `guessed` are filled in as well.
pub open spec fn is_derived_with(puzzle: Seq<char>, s: Seq<u8>, guessed: Set<int>) -> bool {
    exists|order: Seq<int>| is_derivation_with(puzzle, s, order, guessed)
}

/// Whether naked and hidden singles alone solve `puzzle`.
pub open spec fn is_solvable_by_singles(puzzle: Seq<char>) -> bool {
    exists|s: Seq<u8>, order: Seq<int>| is_derivation(puzzle, s, order)
}

/// Whether every guess in `guesses` was needed to derive the grid `s` from
/// `puzzle`: singles do not derive its cell from the given cells and the
/// guesses before it.
pub open spec fn are_needed(puzzle: Seq<char>, s: Seq<u8>, guesses: Seq<int>) -> bool {
    forall|k: int|
        0 <= k < guesses.len() ==> !is_derivable(
            s,
            given_cells(puzzle).union(guessed_before(guesses, k)),
            #[trigger] guesses[k],
        )
}

/// Whether the grid `other` has the digits of the grid `s` in the first
/// `k` cells of `guesses`.
pub open spec fn agree_before(other: Seq<u8>, s: Seq<u8>, guesses: Seq<int>, k: int) -> bool {
    forall|j: int| 0 <= j < k ==> other[#[trigger] guesses[j]] == s[guesses[j]]
}

/// Whether every guess in `guesses` is the least that leads to a solution:
/// no solution of `puzzle` that has the digits of `s` at the guesses before
/// it has a smaller digit in its cell.
pub open spec fn are_least(puzzle: Seq<char>, s: Seq<u8>, guesses: Seq<int>) -> bool {
    forall|k: int, other: Seq<u8>|
        0 <= k < guesses.len() && is_solution_of(other, puzzle) && #[trigger] agree_before(
            other,
            s,
            guesses,
            k,
        ) ==> s[guesses[k]] <= other[guesses[k]]
}

/// Whether a cell that singles derive from the cells in `free` is a peer of
/// the cell `y` and has digit `d` in the grid `s`.
pub open spec fn is_shown(s: Seq<u8>, free: Set<int>, y: int, d: int) -> bool {
    exists|z: int|
        0 <= z < 81 && are_peers(z / 9, z % 9, y / 9, y % 9) && #[trigger] is_derivable(s, free, z)
            && s[z] == d
}

/// The number of digits that the cells that singles derive from `free` leave
/// to the cell `y`.
pub open spec fn options(s: Seq<u8>, free: Set<int>, y: int) -> int {
    bit(!is_shown(s, free, y, 1)) + bit(!is_shown(s, free, y, 2)) + bit(!is_shown(s, free, y, 3))
        + bit(!is_shown(s, free, y, 4)) + bit(!is_shown(s, free, y, 5)) + bit(
        !is_shown(s, free, y, 6),
    ) + bit(!is_shown(s, free, y, 7)) + bit(!is_shown(s, free, y, 8)) + bit(
        !is_shown(s, free, y, 9),
    )
}

/// Whether `x` is the cell to guess at once singles have derived what they
/// can from the cells in `free`: of the cells that they do not derive, the
/// one that is left the fewest digits, and the first of those in row-major
/// order.
#[verifier::opaque]
pub open spec fn is_branch(s: Seq<u8>, free: Set<int>, x: int) -> bool {
    &&& 0 <= x < 81
    &&& !is_derivable(s, free, x)
    &&& forall|y: int|
        0 <= y < 81 && !#[trigger] is_derivable(s, free, y) ==> options(s, free, y) >= options(
            s,
            free,
            x,
        ) && (y < x ==> options(s, free, y) > options(s, free, x))
}

/// Whether every guess in `guesses` was made at the cell to guess at, given
/// the digits of `puzzle` and the guesses before it.
pub open spec fn are_branches(puzzle: Seq<char>, s: Seq<u8>, guesses: Seq<int>) -> bool {
    forall|k: int|
        0 <= k < guesses.len() ==> is_branch(
            s,
            given_cells(puzzle).union(guessed_before(guesses, k)),
            #[trigger] guesses[k],
        )
}

/// Whether `guesses` are the guesses of a search that ends in the grid `s`:
/// singles derive `s` from the digits of `puzzle` and the guesses; every
/// guess was needed and was made at the first of the cells with the fewest
/// digits left; and every guess is the least digit for its cell that a
/// solution has that has the digits guessed before.
pub open spec fn is_search_of(puzzle: Seq<char>, s: Seq<u8>, guesses: Seq<int>) -> bool {
    &&& is_derived_with(puzzle, s, guessed(guesses))
    &&& are_needed(puzzle, s, guesses)
    &&& are_branches(puzzle, s, guesses)
    &&& are_least(puzzle, s, guesses)
}

/// Whether the cell `x` stands before position `m` of `order`.
pub open spec fn stands_before(order: Seq<int>, m: int, x: int) -> bool {
    exists|j: int| 0 <= j < m && #[trigger] order[j] == x
}

} // verus!
