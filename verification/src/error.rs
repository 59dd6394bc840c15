//! The ways in which loading or solving a puzzle can fail.
use vstd::prelude::*;

verus! {

/// What is wrong with an input that is no puzzle.
#[derive(Clone, Copy, Debug, PartialEq, Eq, Structural)]
pub enum Malformation {
    /// The input does not have 81 characters.
    Size,
    /// The input has a character that is neither a digit `1`-`9` nor the
    /// blank marker `.`.
    Character,
}

/// Why a puzzle could not be solved.
#[derive(Clone, Copy, Debug, PartialEq, Eq, Structural)]
pub enum SolveError {
    /// The input does not have 81 characters, or one of them is neither a
    /// digit `1`-`9` nor the blank marker `.`.
    MalformedInput(Malformation),
    /// A fill would put a digit into a row that already has it.
    RowConflict,
    /// A fill would put a digit into a column that already has it.
    ColumnConflict,
    /// A fill would put a digit into a 3x3 square that already has it.
    SquareConflict,
    /// A fill targets a cell that already holds a different digit.
    AlreadyFilled,
    /// The search has tried every branch without reaching a complete grid.
    Unsolvable,
    /// Propagation would leave an unfilled cell without any candidate.
    /// A cell is filled as soon as it has one candidate left, so that no
    /// fill of a well-formed grid ends this way.
    Contradiction,
    /// The search was started on a grid without an unfilled cell.
    NoUnfilledCell,
}

impl SolveError {
    /// The failures of a fill that meets its digit in a unit of the cell.
    pub open spec fn is_conflict(self) -> bool {
        self == SolveError::RowConflict || self == SolveError::ColumnConflict || self
            == SolveError::SquareConflict
    }

    /// The text that tells of the failure.
    pub open spec fn text(self) -> Seq<char> {
        match self {
            SolveError::MalformedInput(Malformation::Size) => "invalid puzzle size"@,
            SolveError::MalformedInput(Malformation::Character) => "invalid character in puzzle"@,
            SolveError::RowConflict => "fill results in row conflict"@,
            SolveError::ColumnConflict => "fill results in column conflict"@,
            SolveError::SquareConflict => "fill results in square conflict"@,
            SolveError::AlreadyFilled => "cannot change already filled in cell"@,
            SolveError::Unsolvable => "all branches exhausted"@,
            SolveError::Contradiction => "cell left without any candidate"@,
            SolveError::NoUnfilledCell => "no unfilled cell was found"@,
        }
    }

    /// The text that tells of the failure.
    pub fn message(&self) -> (text: &'static str)
        ensures
            text@ == self.text(),
    {
        match self {
            SolveError::MalformedInput(Malformation::Size) => "invalid puzzle size",
            SolveError::MalformedInput(Malformation::Character) => "invalid character in puzzle",
            SolveError::RowConflict => "fill results in row conflict",
            SolveError::ColumnConflict => "fill results in column conflict",
            SolveError::SquareConflict => "fill results in square conflict",
            SolveError::AlreadyFilled => "cannot change already filled in cell",
            SolveError::Unsolvable => "all branches exhausted",
            SolveError::Contradiction => "cell left without any candidate",
            SolveError::NoUnfilledCell => "no unfilled cell was found",
        }
    }
}

} // verus!
