use sudoku_solver::board::unit_slot;
use sudoku_solver::cell::{count_candidates, first_candidate, Cell};
use sudoku_solver::puzzle::{read_cell, read_puzzle};
use sudoku_solver::solution::digit_text;
use sudoku_solver::error::Malformation;
use sudoku_solver::{cell_to_square, index_to_3x3_coords, SolveError, Solver};

#[test]
fn cell_to_square_divides_by_three() {
    assert_eq!(cell_to_square((0, 0)), (0, 0));
    assert_eq!(cell_to_square((2, 3)), (0, 1));
    assert_eq!(cell_to_square((5, 8)), (1, 2));
    assert_eq!(cell_to_square((8, 8)), (2, 2));
    assert_eq!(cell_to_square((6, 2)), (2, 0));
}

#[test]
fn index_to_3x3_coords_is_row_major() {
    let expected = [(0, 0), (0, 1), (0, 2), (1, 0), (1, 1), (1, 2), (2, 0), (2, 1), (2, 2)];
    for (idx, coords) in expected.iter().enumerate() {
        assert_eq!(index_to_3x3_coords(idx), *coords);
    }
}

#[test]
fn unit_slot_walks_rows_columns_and_squares() {
    assert_eq!(unit_slot(0, 0), (0, 0));
    assert_eq!(unit_slot(4, 7), (4, 7));
    assert_eq!(unit_slot(9, 0), (0, 0));
    assert_eq!(unit_slot(13, 7), (7, 4));
    assert_eq!(unit_slot(17, 8), (8, 8));
    assert_eq!(unit_slot(18, 0), (0, 0));
    assert_eq!(unit_slot(18, 4), (1, 1));
    assert_eq!(unit_slot(22, 0), (3, 3));
    assert_eq!(unit_slot(23, 5), (4, 8));
    assert_eq!(unit_slot(26, 8), (8, 8));
}

#[test]
fn every_cell_is_in_one_slot_of_its_row_column_and_square() {
    for row in 0..9 {
        for col in 0..9 {
            let square = cell_to_square((row, col));
            let units = [row, 9 + col, 18 + 3 * square.0 + square.1];
            for unit in 0..27 {
                let slots = (0..9).filter(|slot| unit_slot(unit, *slot) == (row, col)).count();
                assert_eq!(slots, if units.contains(&unit) { 1 } else { 0 });
            }
        }
    }
}

#[test]
fn default_cell_lists_every_digit() {
    assert!(matches!(Cell::default(), Cell::Candidates(cs) if cs == [true; 9]));
}

#[test]
fn count_candidates_counts_true_entries() {
    assert_eq!(count_candidates(&[true; 9]), 9);
    assert_eq!(count_candidates(&[false; 9]), 0);
    assert_eq!(
        count_candidates(&[false, true, false, false, true, false, false, false, true]),
        3
    );
}

#[test]
fn first_candidate_is_the_smallest() {
    assert_eq!(first_candidate(&[true; 9]), 1);
    assert_eq!(
        first_candidate(&[false, false, false, true, false, false, true, false, false]),
        4
    );
    assert_eq!(
        first_candidate(&[false, false, false, false, false, false, false, false, true]),
        9
    );
}

#[test]
fn read_cell_tells_digits_blanks_and_the_rest_apart() {
    assert_eq!(read_cell('1'), Ok(Some(1)));
    assert_eq!(read_cell('5'), Ok(Some(5)));
    assert_eq!(read_cell('9'), Ok(Some(9)));
    assert_eq!(read_cell('.'), Ok(None));
    assert_eq!(read_cell('0'), Err(SolveError::MalformedInput(Malformation::Character)));
    assert_eq!(read_cell('a'), Err(SolveError::MalformedInput(Malformation::Character)));
    assert_eq!(read_cell(' '), Err(SolveError::MalformedInput(Malformation::Character)));
    assert_eq!(read_cell(':'), Err(SolveError::MalformedInput(Malformation::Character)));
    assert_eq!(read_cell('/'), Err(SolveError::MalformedInput(Malformation::Character)));
    assert_eq!(read_cell('\u{663}'), Err(SolveError::MalformedInput(Malformation::Character)));
}

#[test]
fn read_puzzle_reads_81_cells() {
    let text = format!("1.9{}5", ".".repeat(77));
    let cells = read_puzzle(&text.chars().collect()).unwrap();
    assert_eq!(cells.len(), 81);
    assert_eq!(cells[0], Some(1));
    assert_eq!(cells[1], None);
    assert_eq!(cells[2], Some(9));
    assert_eq!(cells[79], None);
    assert_eq!(cells[80], Some(5));
}

#[test]
fn read_puzzle_refuses_other_lengths_and_characters() {
    let short: Vec<char> = ".".repeat(80).chars().collect();
    assert_eq!(read_puzzle(&short), Err(SolveError::MalformedInput(Malformation::Size)));
    let long: Vec<char> = ".".repeat(82).chars().collect();
    assert_eq!(read_puzzle(&long), Err(SolveError::MalformedInput(Malformation::Size)));
    let letter: Vec<char> = format!("{}x", ".".repeat(80)).chars().collect();
    assert_eq!(read_puzzle(&letter), Err(SolveError::MalformedInput(Malformation::Character)));
}

#[test]
fn digit_text_is_the_decimal_digit() {
    let expected = ["0", "1", "2", "3", "4", "5", "6", "7", "8", "9"];
    for (digit, text) in expected.iter().enumerate() {
        assert_eq!(digit_text(digit as u8), *text);
    }
}

#[test]
fn grid_representation_draws_bands_and_squares() {
    let puzzle = "4.....8.5.3..........7......2.....6.....8.4......1.......6.3.7.5..2.....1.4......";
    let solution = Solver::solve(puzzle.chars().collect()).unwrap();
    let expected = "\
+-------+-------+-------+
| 4 1 7 | 3 6 9 | 8 2 5 |
| 6 3 2 | 1 5 8 | 9 4 7 |
| 9 5 8 | 7 2 4 | 3 1 6 |
+-------+-------+-------+
| 8 2 5 | 4 3 7 | 1 6 9 |
| 7 9 1 | 5 8 6 | 4 3 2 |
| 3 4 6 | 9 1 2 | 7 5 8 |
+-------+-------+-------+
| 2 8 9 | 6 4 3 | 5 7 1 |
| 5 7 3 | 2 9 1 | 6 8 4 |
| 1 6 4 | 8 7 5 | 2 9 3 |
+-------+-------+-------+";
    assert_eq!(solution.grid_representation(), expected);
}

#[test]
fn row_representation_is_the_grid_row_by_row() {
    let puzzle = "4.....8.5.3..........7......2.....6.....8.4......1.......6.3.7.5..2.....1.4......";
    let solution = Solver::solve(puzzle.chars().collect()).unwrap();
    assert_eq!(
        solution.row_representation(),
        "417369825632158947958724316825437169791586432346912758289643571573291684164875293"
    );
    let drawn: String =
        solution.grid_representation().chars().filter(|c| c.is_ascii_digit()).collect();
    assert_eq!(drawn, solution.row_representation());
}

#[test]
fn every_failure_has_its_text() {
    let texts = [
        (SolveError::MalformedInput(Malformation::Size), "invalid puzzle size"),
        (SolveError::MalformedInput(Malformation::Character), "invalid character in puzzle"),
        (SolveError::RowConflict, "fill results in row conflict"),
        (SolveError::ColumnConflict, "fill results in column conflict"),
        (SolveError::SquareConflict, "fill results in square conflict"),
        (SolveError::AlreadyFilled, "cannot change already filled in cell"),
        (SolveError::Unsolvable, "all branches exhausted"),
        (SolveError::Contradiction, "cell left without any candidate"),
        (SolveError::NoUnfilledCell, "no unfilled cell was found"),
    ];
    for (error, text) in texts {
        assert_eq!(error.message(), text);
    }
}

#[test]
fn solutions_can_be_printed() {
    let puzzle = "4.....8.5.3..........7......2.....6.....8.4......1.......6.3.7.5..2.....1.4......";
    let mut solution = Solver::solve(puzzle.chars().collect()).unwrap();
    assert!(solution.can_print());
    solution.cells[4][4] = 10;
    assert!(!solution.can_print());
}
