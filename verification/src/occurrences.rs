//! Per-unit bookkeeping: one entry for every unit and digit, kept in three
//! tables, one for the rows, one for the columns and one for the 3x3 squares.
use vstd::prelude::*;

verus! {

/// Selects the units for which a decrement skips the hidden-single check.
#[derive(Clone, Copy, Debug)]
pub enum Group {
    /// Skip the check for every unit.
    All,
    /// Skip the check for the cell's row.
    Row,
    /// Skip the check for the cell's column.
    Column,
    /// Skip the check for the cell's square.
    Square,
    /// Skip no check.
    Nothing,
}

impl Group {
    /// Whether the hidden-single check of a cell's row is skipped.
    pub open spec fn skips_row(self) -> bool {
        self is All || self is Row
    }

    /// Whether the hidden-single check of a cell's column is skipped.
    pub open spec fn skips_column(self) -> bool {
        self is All || self is Column
    }

    /// Whether the hidden-single check of a cell's square is skipped.
    pub open spec fn skips_square(self) -> bool {
        self is All || self is Square
    }
}

/// One entry of type `T` for every unit and digit.
#[derive(Debug)]
pub struct Occurrences<T> {
    /// Entries of the rows, by row and digit.
    pub row: [[T; 9]; 9],
    /// Entries of the columns, by column and digit.
    pub col: [[T; 9]; 9],
    /// Entries of the squares, by the square's row, its column and digit.
    pub sqr: [[[T; 9]; 3]; 3],
}

impl<T> Occurrences<T> {
    /// The entry for unit `g` (rows `0..9`, columns `9..18`, squares
    /// `18..27`) and digit `d` in `1..=9`.
    pub open spec fn at(self, g: int, d: int) -> T {
        if g < 9 {
            self.row[g][d - 1]
        } else if g < 18 {
            self.col[g - 9][d - 1]
        } else {
            self.sqr[(g - 18) / 3][(g - 18) % 3][d - 1]
        }
    }
}

impl<T: Copy> Clone for Occurrences<T> {
    fn clone(&self) -> (copy: Self)
        ensures
            copy == *self,
    {
        *self
    }
}

impl<T: Copy> Copy for Occurrences<T> {

}

impl Default for Occurrences<u8> {
    /// Every counter starts at 9: every cell of a unit lists every digit.
    fn default() -> (occurrences: Self)
        ensures
            forall|g: int, d: int|
                0 <= g < 27 && 1 <= d <= 9 ==> #[trigger] occurrences.at(g, d) == 9,
    {
        Self { row: [[9; 9]; 9], col: [[9; 9]; 9], sqr: [[[9; 9]; 3]; 3] }
    }
}

impl Default for Occurrences<bool> {
    /// No digit has been placed anywhere.
    fn default() -> (occurrences: Self)
        ensures
            forall|g: int, d: int| 0 <= g < 27 && 1 <= d <= 9 ==> !#[trigger] occurrences.at(g, d),
    {
        Self { row: [[false; 9]; 9], col: [[false; 9]; 9], sqr: [[[false; 9]; 3]; 3] }
    }
}

} // verus!
