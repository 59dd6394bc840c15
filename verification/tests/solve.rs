use sudoku_solver::error::Malformation;
use sudoku_solver::{SolveError, Solver};

fn chars(text: &str) -> Vec<char> {
    text.chars().collect()
}

fn solved(text: &str) -> (String, u8) {
    let solution = Solver::solve(chars(text)).unwrap();
    (solution.row_representation(), solution.brute_forces)
}

fn failure(text: &str) -> SolveError {
    Solver::solve(chars(text)).unwrap_err()
}

fn unit_cells(unit: usize) -> Vec<usize> {
    (0..9)
        .map(|slot| {
            if unit < 9 {
                9 * unit + slot
            } else if unit < 18 {
                9 * slot + (unit - 9)
            } else {
                let (sr, sc) = ((unit - 18) / 3, (unit - 18) % 3);
                9 * (3 * sr + slot / 3) + 3 * sc + slot % 3
            }
        })
        .collect()
}

fn is_valid_grid(text: &str) -> bool {
    let digits: Vec<char> = text.chars().collect();
    digits.len() == 81
        && (0..27).all(|unit| {
            ('1'..='9').all(|d| {
                unit_cells(unit).iter().filter(|&&i| digits[i] == d).count() == 1
            })
        })
}

const EASY: &str =
    "..3.2.6..9..3.5..1..18.64....81.29..7.......8..67.82....26.95..8..2.3..9..5.1.3..";
const EASY_SOLUTION: &str =
    "483921657967345821251876493548132976729564138136798245372689514814253769695417382";
const SEVENTEEN: &str =
    "4.....8.5.3..........7......2.....6.....8.4......1.......6.3.7.5..2.....1.4......";
const SEVENTEEN_SOLUTION: &str =
    "417369825632158947958724316825437169791586432346912758289643571573291684164875293";
const SEVENTEEN_BY_LOGIC: &str =
    ".......1.4.........2...........5.4.7..8...3....1.9....3..4..2...5.1........8.6...";
const SEVENTEEN_BY_LOGIC_SOLUTION: &str =
    "693784512487512936125963874932651487568247391741398625319475268856129743274836159";
const BLANK: &str =
    ".................................................................................";

#[test]
fn easy_puzzle_is_solved_by_propagation_alone() {
    let (grid, brute_forces) = solved(EASY);
    assert_eq!(grid, EASY_SOLUTION);
    assert_eq!(brute_forces, 0);
}

#[test]
fn seventeen_clue_puzzle_needs_search() {
    assert_eq!(SEVENTEEN.chars().filter(|c| *c != '.').count(), 17);
    let (grid, brute_forces) = solved(SEVENTEEN);
    assert_eq!(grid, SEVENTEEN_SOLUTION);
    assert!(brute_forces > 0);
    assert!(brute_forces <= 64);
}

#[test]
fn seventeen_clue_puzzle_with_singles_only() {
    let (grid, brute_forces) = solved(SEVENTEEN_BY_LOGIC);
    assert_eq!(grid, SEVENTEEN_BY_LOGIC_SOLUTION);
    assert_eq!(brute_forces, 0);
}

#[test]
fn solutions_have_each_digit_once_in_every_unit() {
    for puzzle in [EASY, SEVENTEEN, SEVENTEEN_BY_LOGIC, BLANK] {
        let (grid, _) = solved(puzzle);
        assert!(is_valid_grid(&grid), "{}", grid);
    }
}

#[test]
fn solutions_keep_the_given_digits() {
    for puzzle in [EASY, SEVENTEEN, SEVENTEEN_BY_LOGIC] {
        let (grid, _) = solved(puzzle);
        for (given, digit) in puzzle.chars().zip(grid.chars()) {
            assert!(given == '.' || given == digit);
        }
    }
}

#[test]
fn complete_grid_is_returned_unchanged() {
    let (grid, brute_forces) = solved(SEVENTEEN_SOLUTION);
    assert_eq!(grid, SEVENTEEN_SOLUTION);
    assert_eq!(brute_forces, 0);
}

#[test]
fn solving_a_solution_again_changes_nothing() {
    for puzzle in [EASY, SEVENTEEN, BLANK] {
        let (first, _) = solved(puzzle);
        let (second, brute_forces) = solved(&first);
        assert_eq!(second, first);
        assert_eq!(brute_forces, 0);
    }
}

#[test]
fn blank_puzzle_is_filled_by_search() {
    let (grid, brute_forces) = solved(BLANK);
    assert_eq!(
        grid,
        "123456789456789123789123456231674895875912364694538217317265948542897631968341572"
    );
    assert!(brute_forces > 0);
    assert!(brute_forces <= 81);
}

#[test]
fn digit_twice_in_a_row_is_a_row_conflict() {
    let puzzle = format!("5.......5{}", ".".repeat(72));
    assert_eq!(failure(&puzzle), SolveError::RowConflict);
}

#[test]
fn digit_twice_in_a_column_is_a_column_conflict() {
    let puzzle = format!("5........5{}", ".".repeat(71));
    assert_eq!(failure(&puzzle), SolveError::ColumnConflict);
}

#[test]
fn digit_twice_in_a_square_is_a_square_conflict() {
    let puzzle = format!("5.........5{}", ".".repeat(70));
    assert_eq!(failure(&puzzle), SolveError::SquareConflict);
}

#[test]
fn given_digit_against_a_forced_cell_is_already_filled() {
    // The first eight digits force a 9 into the last cell of the row.
    let puzzle = format!("123456781{}", ".".repeat(72));
    assert_eq!(failure(&puzzle), SolveError::AlreadyFilled);
}

#[test]
fn given_digit_against_a_deduced_cell_is_already_filled() {
    let puzzle =
        "4.....8.5.3..........7......23....6.....8.4......1.......6.3.7.5..2.....1.4......";
    assert_eq!(failure(puzzle), SolveError::AlreadyFilled);
}

#[test]
fn conflict_found_while_propagating() {
    let puzzle =
        "4.3...8.5.3..........7......2.....6.....8.4......1.......6.3.7.5..2.....1.4......";
    assert_eq!(failure(puzzle), SolveError::SquareConflict);
}

#[test]
fn puzzle_without_solution_is_unsolvable() {
    let puzzle =
        "46....8.5.3..........7......2.....6.....8.4......1.......6.3.7.5..2.....1.4......";
    assert_eq!(failure(puzzle), SolveError::Unsolvable);
}

#[test]
fn input_of_length_80_is_malformed() {
    assert_eq!(failure(&".".repeat(80)), SolveError::MalformedInput(Malformation::Size));
}

#[test]
fn input_of_length_82_is_malformed() {
    assert_eq!(failure(&".".repeat(82)), SolveError::MalformedInput(Malformation::Size));
}

#[test]
fn empty_input_is_malformed() {
    assert_eq!(failure(""), SolveError::MalformedInput(Malformation::Size));
}

#[test]
fn letter_in_input_is_malformed() {
    let puzzle = format!("{}x{}", ".".repeat(40), ".".repeat(40));
    assert_eq!(failure(&puzzle), SolveError::MalformedInput(Malformation::Character));
}

#[test]
fn zero_in_input_is_malformed() {
    let puzzle = format!("0{}", ".".repeat(80));
    assert_eq!(failure(&puzzle), SolveError::MalformedInput(Malformation::Character));
}

#[test]
fn space_in_input_is_malformed() {
    let puzzle = format!(" {}", ".".repeat(80));
    assert_eq!(failure(&puzzle), SolveError::MalformedInput(Malformation::Character));
}

#[test]
fn letter_after_a_conflict_is_still_malformed() {
    let puzzle = format!("5.......5x{}", ".".repeat(71));
    assert_eq!(failure(&puzzle), SolveError::MalformedInput(Malformation::Character));
}

#[test]
fn row_representation_has_81_digits() {
    let solution = Solver::solve(chars(EASY)).unwrap();
    let text = solution.row_representation();
    assert_eq!(text.len(), 81);
    assert!(text.chars().all(|c| ('1'..='9').contains(&c)));
}

fn units_of(cell: usize) -> [usize; 3] {
    let (row, col) = (cell / 9, cell % 9);
    [row, 9 + col, 18 + 3 * (row / 3) + col / 3]
}

fn shown(grid: &[u8], cell: usize, digit: u8) -> bool {
    units_of(cell)
        .iter()
        .any(|unit| unit_cells(*unit).iter().any(|peer| *peer != cell && grid[*peer] == digit))
}

/// Fills in naked and hidden singles until none is left, and tells whether
/// that completes the grid.
fn singles_complete(puzzle: &str) -> bool {
    let mut grid: Vec<u8> = puzzle.chars().map(|c| c.to_digit(10).unwrap_or(0) as u8).collect();
    loop {
        let mut progress = false;
        for cell in 0..81 {
            if grid[cell] != 0 {
                continue;
            }
            let candidates: Vec<u8> = (1..=9u8).filter(|d| !shown(&grid, cell, *d)).collect();
            if candidates.len() == 1 {
                grid[cell] = candidates[0];
                progress = true;
                continue;
            }
            for digit in candidates {
                let last_place = units_of(cell).iter().any(|unit| {
                    unit_cells(*unit)
                        .iter()
                        .all(|other| *other == cell || grid[*other] != 0 || shown(&grid, *other, digit))
                });
                if last_place {
                    grid[cell] = digit;
                    progress = true;
                    break;
                }
            }
        }
        if !progress {
            return grid.iter().all(|digit| *digit != 0);
        }
    }
}

#[test]
fn search_is_used_exactly_where_singles_do_not_suffice() {
    let mut puzzles: Vec<String> =
        [EASY, SEVENTEEN, SEVENTEEN_BY_LOGIC, BLANK, EASY_SOLUTION].iter().map(|p| p.to_string()).collect();
    for solution in [EASY_SOLUTION, SEVENTEEN_SOLUTION, SEVENTEEN_BY_LOGIC_SOLUTION] {
        for stride in 2..12 {
            for offset in 0..2 {
                puzzles.push(
                    solution
                        .chars()
                        .enumerate()
                        .map(|(idx, c)| if idx % stride == offset { c } else { '.' })
                        .collect(),
                );
                puzzles.push(
                    solution
                        .chars()
                        .enumerate()
                        .map(|(idx, c)| if idx % stride == offset { '.' } else { c })
                        .collect(),
                );
            }
        }
    }
    let mut with_search = 0;
    let mut without_search = 0;
    for puzzle in &puzzles {
        let (grid, brute_forces) = solved(puzzle);
        assert!(is_valid_grid(&grid));
        assert_eq!(brute_forces == 0, singles_complete(puzzle), "{}", puzzle);
        if brute_forces == 0 {
            without_search += 1;
        } else {
            with_search += 1;
        }
    }
    assert!(with_search > 10);
    assert!(without_search > 10);
}

fn candidates_of(grid: &[u8], cell: usize) -> Vec<u8> {
    (1..=9u8).filter(|d| !shown(grid, cell, *d)).collect()
}

/// Fills in naked and hidden singles until none is left; `None` where a
/// cell is left without a candidate or a unit has a digit twice.
fn close_under_singles(mut grid: Vec<u8>) -> Option<Vec<u8>> {
    loop {
        let mut progress = false;
        for cell in 0..81 {
            if grid[cell] != 0 {
                continue;
            }
            let candidates = candidates_of(&grid, cell);
            if candidates.is_empty() {
                return None;
            }
            if candidates.len() == 1 {
                grid[cell] = candidates[0];
                progress = true;
                continue;
            }
            for digit in candidates {
                let last_place = units_of(cell).iter().any(|unit| {
                    unit_cells(*unit)
                        .iter()
                        .all(|other| *other == cell || grid[*other] != 0 || shown(&grid, *other, digit))
                });
                if last_place {
                    grid[cell] = digit;
                    progress = true;
                    break;
                }
            }
        }
        if !progress {
            break;
        }
    }
    let consistent = (0..27).all(|unit| {
        (1..=9u8).all(|d| unit_cells(unit).iter().filter(|cell| grid[**cell] == d).count() <= 1)
    });
    if consistent {
        Some(grid)
    } else {
        None
    }
}

/// Solves a grid by singles and, where they are stuck, by guessing the
/// digits of the first cell with the fewest candidates in ascending order;
/// returns the solution and the number of guesses on the way to it.
fn solve_by_guessing(grid: Vec<u8>, guesses: u8) -> Option<(Vec<u8>, u8)> {
    let grid = close_under_singles(grid)?;
    let mut best: Option<(usize, usize)> = None;
    for cell in 0..81 {
        if grid[cell] == 0 {
            let count = candidates_of(&grid, cell).len();
            if best.map_or(true, |(_, fewest)| count < fewest) {
                best = Some((cell, count));
            }
        }
    }
    let Some((cell, _)) = best else {
        return Some((grid, guesses));
    };
    for digit in candidates_of(&grid, cell) {
        let mut branch = grid.clone();
        branch[cell] = digit;
        if let Some(found) = solve_by_guessing(branch, guesses + 1) {
            return Some(found);
        }
    }
    None
}

#[test]
fn solution_and_search_fills_match_an_independent_search() {
    let mut puzzles: Vec<String> =
        [EASY, SEVENTEEN, SEVENTEEN_BY_LOGIC, BLANK].iter().map(|p| p.to_string()).collect();
    for solution in [EASY_SOLUTION, SEVENTEEN_SOLUTION, SEVENTEEN_BY_LOGIC_SOLUTION] {
        for stride in 2..12 {
            for offset in 0..2 {
                for keep in [true, false] {
                    puzzles.push(
                        solution
                            .chars()
                            .enumerate()
                            .map(|(idx, c)| if (idx % stride == offset) == keep { c } else { '.' })
                            .collect(),
                    );
                }
            }
        }
    }
    for puzzle in &puzzles {
        let (grid, brute_forces) = solved(puzzle);
        let given: Vec<u8> = puzzle.chars().map(|c| c.to_digit(10).unwrap_or(0) as u8).collect();
        let (expected, guesses) = solve_by_guessing(given, 0).unwrap();
        let expected: String =
            expected.iter().map(|d| char::from_digit(*d as u32, 10).unwrap()).collect();
        assert_eq!(grid, expected, "{}", puzzle);
        assert_eq!(brute_forces, guesses, "{}", puzzle);
    }
}

#[test]
fn failures_tell_what_went_wrong() {
    assert_eq!(failure(&".".repeat(80)).message(), "invalid puzzle size");
    assert_eq!(failure(&format!("x{}", ".".repeat(80))).message(), "invalid character in puzzle");
    assert_eq!(
        failure(&format!("5.......5{}", ".".repeat(72))).message(),
        "fill results in row conflict"
    );
}

#[test]
fn digit_given_twice_in_a_unit_is_the_conflict_of_the_first_shared_unit() {
    let mut cases = 0;
    for a in 0..81usize {
        for b in (a + 1)..81usize {
            let (ar, ac, br, bc) = (a / 9, a % 9, b / 9, b % 9);
            let same_square = ar / 3 == br / 3 && ac / 3 == bc / 3;
            let expected = if ar == br {
                SolveError::RowConflict
            } else if ac == bc {
                SolveError::ColumnConflict
            } else if same_square {
                SolveError::SquareConflict
            } else {
                continue;
            };
            let digit = char::from_digit(((a + b) % 9 + 1) as u32, 10).unwrap();
            let puzzle: String =
                (0..81).map(|i| if i == a || i == b { digit } else { '.' }).collect();
            assert_eq!(failure(&puzzle), expected, "{}", puzzle);
            cases += 1;
        }
    }
    assert_eq!(cases, 81 * 20 / 2);
}
