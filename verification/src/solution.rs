//! A solved puzzle and its textual forms.
use vstd::prelude::*;
use vstd::string::StringExecFns;

verus! {

/// The 81 digits of a grid of numbers, in row-major order.
pub open spec fn grid_digits(cells: [[u8; 9]; 9]) -> Seq<u8> {
    Seq::new(81, |i: int| cells[i / 9][i % 9])
}

/// The character that stands for the digit `d` in `0..=9`.
pub open spec fn digit_char(d: u8) -> char {
    (d + 48) as char
}

/// The digits of `digits` as characters, one after the other.
pub open spec fn digits_text(digits: Seq<u8>) -> Seq<char> {
    Seq::new(digits.len(), |i: int| digit_char(digits[i]))
}

/// The line that frames the bands of the drawn grid.
pub open spec fn frame_text() -> Seq<char> {
    "+-------+-------+-------+"@
}

/// The text of one cell of the drawn grid: its digit and a space, after a bar
/// where the cell starts a 3x3 square.
pub open spec fn cell_text(digits: Seq<u8>, row: int, col: int) -> Seq<char> {
    (if col % 3 == 0 {
        "| "@
    } else {
        Seq::<char>::empty()
    }) + seq![digit_char(digits[9 * row + col])] + " "@
}

/// The text of the first `n` cells of a row of the drawn grid.
pub open spec fn cells_text(digits: Seq<u8>, row: int, n: int) -> Seq<char>
    decreases n,
{
    if n <= 0 {
        Seq::<char>::empty()
    } else {
        cells_text(digits, row, n - 1) + cell_text(digits, row, n - 1)
    }
}

/// The text of one row of the drawn grid, after a frame line where the row
/// starts a band of 3x3 squares.
pub open spec fn row_text(digits: Seq<u8>, row: int) -> Seq<char> {
    (if row % 3 == 0 {
        frame_text() + "\n"@
    } else {
        Seq::<char>::empty()
    }) + cells_text(digits, row, 9) + "|\n"@
}

/// The text of the first `n` rows of the drawn grid.
pub open spec fn rows_text(digits: Seq<u8>, n: int) -> Seq<char>
    decreases n,
{
    if n <= 0 {
        Seq::<char>::empty()
    } else {
        rows_text(digits, n - 1) + row_text(digits, n - 1)
    }
}

/// The drawn grid: nine rows of digits, with bars between the 3x3 squares
/// and frame lines around the bands.
pub open spec fn grid_text(digits: Seq<u8>) -> Seq<char> {
    rows_text(digits, 9) + frame_text()
}

/// A solved puzzle: the digits of the grid, and how many fills the search
/// had to make to find them.
#[derive(Debug)]
pub struct Solution {
    /// The digits of the grid, by row and column.
    pub cells: [[u8; 9]; 9],
    /// The number of fills made by search rather than by propagation; 0
    /// where propagation alone solved the puzzle.
    pub brute_forces: u8,
}

impl View for Solution {
    type V = Seq<u8>;

    /// The 81 digits of the solution in row-major order.
    open spec fn view(&self) -> Seq<u8> {
        grid_digits(self.cells)
    }
}

impl Solution {
    /// The number of fills that the search made: the field `brute_forces`.
    pub open spec fn fills(&self) -> int {
        self.brute_forces as int
    }

    /// Whether every entry is a number that a single character can show.
    pub open spec fn is_printable(&self) -> bool {
        self@.len() == 81 && forall|i: int| 0 <= i < 81 ==> #[trigger] self@[i] <= 9
    }

    /// Tells whether every entry is a number that a single character can
    /// show, as the two texts of the solution ask.
    pub fn can_print(&self) -> (ok: bool)
        ensures
            ok == self.is_printable(),
    {
        for row in 0..9usize
            invariant
                forall|i: int| 0 <= i < 9 * row ==> #[trigger] self@[i] <= 9,
        {
            for col in 0..9usize
                invariant
                    row < 9,
                    forall|i: int| 0 <= i < 9 * row + col ==> #[trigger] self@[i] <= 9,
            {
                if self.cells[row][col] > 9 {
                    assert(self@[9 * row + col] == self.cells[row as int][col as int]);
                    return false;
                }
                assert(self@[9 * row + col] == self.cells[row as int][col as int]);
            }
        }
        true
    }

    /// Makes a solution of a grid of digits and a number of search fills.
    pub(crate) fn new(cells: [[u8; 9]; 9], brute_forces: u8) -> (solution: Solution)
        ensures
            solution@ == grid_digits(cells),
            solution.fills() == brute_forces,
    {
        Solution { cells, brute_forces }
    }

    /// The solution as a single line: its 81 digits in row-major order.
    pub fn row_representation(&self) -> (text: String)
        requires
            self.is_printable(),
        ensures
            text@ == digits_text(self@),
    {
        let mut text = String::new();
        for row in 0..9usize
            invariant
                self.is_printable(),
                text@ == digits_text(self@.take(9 * row as int)),
        {
            for col in 0..9usize
                invariant
                    row < 9,
                    self.is_printable(),
                    text@ == digits_text(self@.take(9 * row as int + col as int)),
            {
                let ghost n = 9 * row as int + col as int;
                let digit = self.cells[row][col];
                proof {
                    assert(self@[n] == digit);
                    assert(self@.take(n + 1) == self@.take(n).push(digit));
                    assert(digits_text(self@.take(n + 1)) == digits_text(self@.take(n)).push(
                        digit_char(digit),
                    ));
                }
                text.append(digit_text(digit));
            }
        }
        proof {
            assert(self@.take(81) == self@);
        }
        text
    }
}

impl Solution {
    /// The solution drawn as a grid, 3x3 squares set apart:
    ///
    /// ```text
    /// +-------+-------+-------+
    /// | 4 1 7 | 3 6 9 | 8 2 5 |
    /// ```
    ///
    /// and so on for nine rows, with a frame line after every third.
    pub fn grid_representation(&self) -> (text: String)
        requires
            self.is_printable(),
        ensures
            text@ == grid_text(self@),
    {
        let mut text = String::new();
        assert(text@ =~= rows_text(self@, 0));
        for row in 0..9usize
            invariant
                self.is_printable(),
                text@ == rows_text(self@, row as int),
        {
            let ghost above = text@;
            if row % 3 == 0 {
                text.append("+-------+-------+-------+");
                text.append("\n");
            }
            let ghost head = text@;
            assert(head =~= above + (if row % 3 == 0 {
                frame_text() + "\n"@
            } else {
                Seq::<char>::empty()
            }) + cells_text(self@, row as int, 0));
            for col in 0..9usize
                invariant
                    row < 9,
                    self.is_printable(),
                    text@ == above + (if row % 3 == 0 {
                        frame_text() + "\n"@
                    } else {
                        Seq::<char>::empty()
                    }) + cells_text(self@, row as int, col as int),
            {
                let ghost before = text@;
                if col % 3 == 0 {
                    text.append("| ");
                }
                let value = self.cells[row][col];
                assert(self@[9 * row + col] == value);
                text.append(digit_text(value));
                text.append(" ");
                assert(text@ =~= before + cell_text(self@, row as int, col as int));
                assert(text@ =~= above + (if row % 3 == 0 {
                    frame_text() + "\n"@
                } else {
                    Seq::<char>::empty()
                }) + cells_text(self@, row as int, col + 1));
            }
            text.append("|\n");
            assert(text@ =~= above + row_text(self@, row as int));
        }
        text.append("+-------+-------+-------+");
        text
    }
}

/// The text of a single digit.
pub fn digit_text(d: u8) -> (text: &'static str)
    requires
        d <= 9,
    ensures
        text@ == seq![digit_char(d)],
{
    proof {
        reveal_strlit("0");
        reveal_strlit("1");
        reveal_strlit("2");
        reveal_strlit("3");
        reveal_strlit("4");
        reveal_strlit("5");
        reveal_strlit("6");
        reveal_strlit("7");
        reveal_strlit("8");
        reveal_strlit("9");
    }
    let text = match d {
        0 => "0",
        1 => "1",
        2 => "2",
        3 => "3",
        4 => "4",
        5 => "5",
        6 => "6",
        7 => "7",
        8 => "8",
        _ => "9",
    };
    assert(text@ =~= seq![digit_char(d)]);
    text
}

} // verus!
