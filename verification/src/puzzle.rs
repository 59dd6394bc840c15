//! The textual form of a puzzle: 81 characters in row-major order, each a
//! digit `1`-`9` for a given cell or the blank marker `.` for an empty one.
use vstd::prelude::*;
use crate::board::is_valid_grid;
use crate::error::{Malformation, SolveError};

verus! {

/// The character that marks an empty cell.
pub const BLANK: char = '.';

/// Whether `c` gives a cell's digit.
pub open spec fn is_given(c: char) -> bool {
    '1' <= c <= '9'
}

/// The digit that the character `c` gives.
pub open spec fn given_digit(c: char) -> int {
    c as int - 48
}

/// What a character of a puzzle says of its cell: a digit, or nothing.
pub open spec fn given(c: char) -> Option<u8> {
    if is_given(c) {
        Some(given_digit(c) as u8)
    } else {
        None
    }
}

/// Whether `puzzle` has 81 characters, each a digit `1`-`9` or the blank
/// marker.
pub open spec fn is_well_formed(puzzle: Seq<char>) -> bool {
    &&& puzzle.len() == 81
    &&& forall|i: int| 0 <= i < 81 ==> is_given(#[trigger] puzzle[i]) || puzzle[i] == BLANK
}

/// Whether the grid `s` has every digit that `puzzle` gives among its first
/// `n` characters.
pub open spec fn meets_upto(s: Seq<u8>, puzzle: Seq<char>, n: int) -> bool {
    forall|i: int| 0 <= i < n && is_given(#[trigger] puzzle[i]) ==> s[i] == given_digit(puzzle[i])
}

/// Whether `s` solves `puzzle`: it is a complete, valid grid and has every
/// digit that the puzzle gives.
pub open spec fn is_solution_of(s: Seq<u8>, puzzle: Seq<char>) -> bool {
    is_valid_grid(s) && meets_upto(s, puzzle, 81)
}

/// Whether `puzzle` has a solution.
pub open spec fn is_solvable(puzzle: Seq<char>) -> bool {
    exists|s: Seq<u8>| is_solution_of(s, puzzle)
}

/// The cells for which `puzzle` gives a digit among its first `n`
/// characters, by their row-major indices.
pub open spec fn given_upto(puzzle: Seq<char>, n: int) -> Set<int> {
    Set::new(|i: int| 0 <= i < n && is_given(puzzle[i]))
}

/// The number of characters among the first `n` of `puzzle` that give no
/// digit.
pub open spec fn blanks_upto(puzzle: Seq<char>, n: int) -> int
    decreases n,
{
    if n <= 0 {
        0
    } else {
        blanks_upto(puzzle, n - 1) + if is_given(puzzle[n - 1]) {
            0int
        } else {
            1int
        }
    }
}

/// The number of empty cells of a puzzle.
pub open spec fn blank_count(puzzle: Seq<char>) -> int {
    blanks_upto(puzzle, 81)
}

/// Reads one character of a puzzle: the digit it gives, nothing for the
/// blank marker, and a failure for any other character.
pub fn read_cell(c: char) -> (res: Result<Option<u8>, SolveError>)
    ensures
        is_given(c) ==> res == Ok::<Option<u8>, SolveError>(Some(given_digit(c) as u8)),
        c == BLANK ==> res == Ok::<Option<u8>, SolveError>(None),
        !is_given(c) && c != BLANK ==> res == Err::<Option<u8>, SolveError>(
            SolveError::MalformedInput(Malformation::Character),
        ),
{
    if '1' <= c && c <= '9' {
        Ok(Some((c as u32 - 48) as u8))
    } else if c == BLANK {
        Ok(None)
    } else {
        Err(SolveError::MalformedInput(Malformation::Character))
    }
}

/// Reads a puzzle into its 81 cells: for each the digit that is given, if
/// any.  Fails where the input has not 81 characters or has a character that
/// is neither a digit `1`-`9` nor the blank marker.
pub fn read_puzzle(puzzle: &Vec<char>) -> (res: Result<Vec<Option<u8>>, SolveError>)
    ensures
        res is Ok <==> is_well_formed(puzzle@),
        res matches Ok(cells) ==> cells@.len() == 81 && forall|i: int|
            0 <= i < 81 ==> #[trigger] cells@[i] == given(puzzle@[i]),
        res matches Err(e) ==> e == SolveError::MalformedInput(
            if puzzle@.len() != 81 {
                Malformation::Size
            } else {
                Malformation::Character
            },
        ),
{
    if puzzle.len() != 9 * 9 {
        return Err(SolveError::MalformedInput(Malformation::Size));
    }
    let mut cells: Vec<Option<u8>> = Vec::new();
    for idx in 0..81usize
        invariant
            puzzle@.len() == 81,
            cells@.len() == idx,
            forall|i: int| 0 <= i < idx ==> is_given(#[trigger] puzzle@[i]) || puzzle@[i] == BLANK,
            forall|i: int| 0 <= i < idx ==> #[trigger] cells@[i] == given(puzzle@[i]),
    {
        match read_cell(puzzle[idx]) {
            Ok(cell) => {
                cells.push(cell);
            },
            Err(e) => {
                return Err(e);
            },
        }
    }
    Ok(cells)
}

} // verus!
