use sudoku_solver::cell::Cell;
use sudoku_solver::{SolveError, Solver};

fn value_at(solver: &Solver, coords: (usize, usize)) -> Option<u8> {
    match solver.cell_at(coords) {
        Cell::Value(value) => Some(value),
        Cell::Candidates(_) => None,
    }
}

fn candidates_at(solver: &Solver, coords: (usize, usize)) -> Vec<u8> {
    match solver.cell_at(coords) {
        Cell::Value(_) => Vec::new(),
        Cell::Candidates(cs) => (1..=9u8).filter(|d| cs[(*d - 1) as usize]).collect(),
    }
}

fn unit_cells(unit: usize) -> Vec<(usize, usize)> {
    (0..9).map(|slot| sudoku_solver::board::unit_slot(unit, slot)).collect()
}

/// Checks on a solver between fills that no single waits and that the
/// candidates are the digits that no unit of the cell has.
fn assert_at_rest(solver: &Solver) {
    let mut unfilled = 0;
    for row in 0..9 {
        for col in 0..9 {
            if value_at(solver, (row, col)).is_none() {
                unfilled += 1;
                let candidates = candidates_at(solver, (row, col));
                assert!(candidates.len() >= 2);
                for digit in 1..=9u8 {
                    let placed_nearby = (0..27).any(|unit| {
                        let cells = unit_cells(unit);
                        cells.contains(&(row, col))
                            && cells.iter().any(|at| value_at(solver, *at) == Some(digit))
                    });
                    assert_eq!(candidates.contains(&digit), !placed_nearby);
                }
            }
        }
    }
    assert_eq!(solver.unfilled_cells(), unfilled);
    for unit in 0..27 {
        for digit in 1..=9u8 {
            let cells = unit_cells(unit);
            let holders = cells.iter().filter(|at| value_at(solver, **at) == Some(digit)).count();
            let hosts =
                cells.iter().filter(|at| candidates_at(solver, **at).contains(&digit)).count();
            assert!(holders <= 1);
            assert_ne!(hosts, 1);
            assert!(holders == 0 || hosts == 0);
        }
    }
}

#[test]
fn new_solver_has_81_unfilled_cells() {
    let solver = Solver::default();
    assert_eq!(solver.unfilled_cells(), 81);
    assert_eq!(solver.brute_force_fills(), 0);
    assert_eq!(value_at(&solver, (0, 0)), None);
    assert_eq!(value_at(&solver, (8, 8)), None);
}

#[test]
fn fill_places_the_digit_and_counts_down() {
    let mut solver = Solver::default();
    assert_eq!(solver.fill((0, 0), 5), Ok(()));
    assert_eq!(value_at(&solver, (0, 0)), Some(5));
    assert_eq!(solver.unfilled_cells(), 80);
    assert_eq!(solver.fill((4, 4), 5), Ok(()));
    assert_eq!(value_at(&solver, (4, 4)), Some(5));
    assert_eq!(solver.unfilled_cells(), 79);
    assert_eq!(solver.brute_force_fills(), 0);
}

#[test]
fn filling_the_same_digit_again_changes_nothing() {
    let mut solver = Solver::default();
    assert_eq!(solver.fill((0, 0), 5), Ok(()));
    assert_eq!(solver.fill((0, 0), 5), Ok(()));
    assert_eq!(solver.unfilled_cells(), 80);
    assert_eq!(value_at(&solver, (0, 0)), Some(5));
}

#[test]
fn filling_another_digit_is_refused() {
    let mut solver = Solver::default();
    assert_eq!(solver.fill((0, 0), 5), Ok(()));
    assert_eq!(solver.fill((0, 0), 6), Err(SolveError::AlreadyFilled));
}

#[test]
fn fill_reports_the_first_unit_in_conflict() {
    let mut solver = Solver::default();
    assert_eq!(solver.fill((0, 0), 5), Ok(()));
    assert_eq!(solver.clone().fill((0, 8), 5), Err(SolveError::RowConflict));
    assert_eq!(solver.clone().fill((8, 0), 5), Err(SolveError::ColumnConflict));
    assert_eq!(solver.clone().fill((1, 1), 5), Err(SolveError::SquareConflict));
    // Row and square both have the digit: the row is named.
    assert_eq!(solver.clone().fill((0, 1), 5), Err(SolveError::RowConflict));
    // Column and square both have the digit: the column is named.
    assert_eq!(solver.clone().fill((1, 0), 5), Err(SolveError::ColumnConflict));
}

#[test]
fn unfilled_count_strictly_decreases_with_every_fill() {
    let mut solver = Solver::default();
    let mut last = solver.unfilled_cells();
    for (idx, value) in [1u8, 2, 3, 4, 5, 6, 7, 8].iter().enumerate() {
        assert_eq!(solver.fill((0, idx), *value), Ok(()));
        assert!(solver.unfilled_cells() < last);
        last = solver.unfilled_cells();
    }
}

#[test]
fn last_candidate_of_a_cell_is_filled_in() {
    let mut solver = Solver::default();
    for (idx, value) in [1u8, 2, 3, 4, 5, 6, 7, 8].iter().enumerate() {
        assert_eq!(solver.fill((0, idx), *value), Ok(()));
    }
    // Eight fills and the naked single that they force.
    assert_eq!(value_at(&solver, (0, 8)), Some(9));
    assert_eq!(solver.unfilled_cells(), 72);
}

#[test]
fn last_place_of_a_digit_in_a_unit_is_filled_in() {
    let mut solver = Solver::default();
    assert_eq!(solver.fill((1, 3), 1), Ok(()));
    assert_eq!(solver.fill((2, 6), 1), Ok(()));
    assert_eq!(solver.fill((3, 1), 1), Ok(()));
    assert_eq!(value_at(&solver, (0, 0)), None);
    assert_eq!(solver.fill((6, 2), 1), Ok(()));
    // In the first square only the corner is left for the 1.
    assert_eq!(value_at(&solver, (0, 0)), Some(1));
    assert_eq!(solver.unfilled_cells(), 76);
}

#[test]
fn search_on_a_complete_grid_fails_distinctly() {
    let solution = "417369825632158947958724316825437169791586432346912758289643571573291684164875293";
    let mut solver = Solver::default();
    for (idx, c) in solution.chars().enumerate() {
        let value = c.to_digit(10).unwrap() as u8;
        assert_eq!(solver.fill((idx / 9, idx % 9), value), Ok(()));
    }
    assert_eq!(solver.unfilled_cells(), 0);
    assert_eq!(solver.brute_force().unwrap_err(), SolveError::NoUnfilledCell);
}

#[test]
fn search_completes_a_loaded_grid() {
    let puzzle = "4.....8.5.3..........7......2.....6.....8.4......1.......6.3.7.5..2.....1.4......";
    let solution = "417369825632158947958724316825437169791586432346912758289643571573291684164875293";
    let mut solver = Solver::default();
    for (idx, c) in puzzle.chars().enumerate() {
        if let Some(value) = c.to_digit(10) {
            assert_eq!(solver.fill((idx / 9, idx % 9), value as u8), Ok(()));
        }
    }
    let open = solver.unfilled_cells();
    assert!(open > 0);
    let solved = solver.brute_force().unwrap();
    assert_eq!(solved.unfilled_cells(), 0);
    assert!(solved.brute_force_fills() > 0);
    assert!(solved.brute_force_fills() <= open);
    for (idx, c) in solution.chars().enumerate() {
        let value = c.to_digit(10).unwrap() as u8;
        assert_eq!(value_at(&solved, (idx / 9, idx % 9)), Some(value));
    }
}

#[test]
fn search_without_a_solution_is_unsolvable() {
    let puzzle = "46....8.5.3..........7......2.....6.....8.4......1.......6.3.7.5..2.....1.4......";
    let mut solver = Solver::default();
    for (idx, c) in puzzle.chars().enumerate() {
        if let Some(value) = c.to_digit(10) {
            assert_eq!(solver.fill((idx / 9, idx % 9), value as u8), Ok(()));
        }
    }
    assert_eq!(solver.brute_force().unwrap_err(), SolveError::Unsolvable);
}

#[test]
fn nothing_waits_between_fills() {
    let puzzle = "4.....8.5.3..........7......2.....6.....8.4......1.......6.3.7.5..2.....1.4......";
    let mut solver = Solver::default();
    assert_at_rest(&solver);
    for (idx, c) in puzzle.chars().enumerate() {
        if let Some(value) = c.to_digit(10) {
            assert_eq!(solver.fill((idx / 9, idx % 9), value as u8), Ok(()));
            assert_at_rest(&solver);
        }
    }
    let solved = solver.brute_force().unwrap();
    assert_at_rest(&solved);
}

#[test]
fn candidates_are_struck_from_the_peers_of_a_fill() {
    let mut solver = Solver::default();
    assert_eq!(candidates_at(&solver, (0, 0)), vec![1, 2, 3, 4, 5, 6, 7, 8, 9]);
    assert_eq!(solver.fill((4, 4), 7), Ok(()));
    assert_eq!(candidates_at(&solver, (4, 0)), vec![1, 2, 3, 4, 5, 6, 8, 9]);
    assert_eq!(candidates_at(&solver, (8, 4)), vec![1, 2, 3, 4, 5, 6, 8, 9]);
    assert_eq!(candidates_at(&solver, (3, 5)), vec![1, 2, 3, 4, 5, 6, 8, 9]);
    assert_eq!(candidates_at(&solver, (0, 0)), vec![1, 2, 3, 4, 5, 6, 7, 8, 9]);
    assert_eq!(candidates_at(&solver, (4, 4)), Vec::<u8>::new());
}

fn snapshot(solver: &Solver) -> (Vec<Option<u8>>, Vec<Vec<u8>>, u8, u8) {
    let mut values = Vec::new();
    let mut candidates = Vec::new();
    for row in 0..9 {
        for col in 0..9 {
            values.push(value_at(solver, (row, col)));
            candidates.push(candidates_at(solver, (row, col)));
        }
    }
    (values, candidates, solver.unfilled_cells(), solver.brute_force_fills())
}

#[test]
fn refused_fill_of_a_filled_cell_changes_nothing() {
    let mut solver = Solver::default();
    assert_eq!(solver.fill((0, 0), 5), Ok(()));
    assert_eq!(solver.fill((4, 4), 7), Ok(()));
    let before = snapshot(&solver);
    assert_eq!(solver.fill((0, 0), 6), Err(SolveError::AlreadyFilled));
    assert_eq!(snapshot(&solver), before);
    // The grid can still be used.
    assert_eq!(solver.fill((8, 8), 1), Ok(()));
    assert_at_rest(&solver);
}

#[test]
fn conflict_at_the_target_leaves_cells_and_counts() {
    for target in [(0, 8), (8, 0), (1, 1), (0, 1), (1, 0)] {
        let mut solver = Solver::default();
        assert_eq!(solver.fill((0, 0), 5), Ok(()));
        let before = snapshot(&solver);
        assert!(solver.fill(target, 5).is_err());
        assert_eq!(snapshot(&solver), before);
        assert_eq!(value_at(&solver, target), None);
        assert_eq!(solver.unfilled_cells(), 80);
        // The grid can still be used.
        assert_eq!(solver.fill(target, 6), Ok(()));
        assert_at_rest(&solver);
    }
}

#[test]
fn every_outcome_keeps_filled_cells_and_never_adds_candidates() {
    let puzzle = "46....8.5.3..........7......2.....6.....8.4......1.......6.3.7.5..2.....1.4......";
    let mut solver = Solver::default();
    for (idx, c) in puzzle.chars().enumerate() {
        if let Some(value) = c.to_digit(10) {
            for digit in 1..=9u8 {
                let mut trial = solver.clone();
                let before = snapshot(&trial);
                let _ = trial.fill((idx / 9, idx % 9), digit);
                let after = snapshot(&trial);
                for cell in 0..81 {
                    if before.0[cell].is_some() {
                        assert_eq!(after.0[cell], before.0[cell]);
                    }
                    assert!(after.1[cell].iter().all(|d| before.1[cell].contains(d)));
                }
                assert!(after.2 <= before.2);
                assert_eq!(after.3, before.3);
            }
            assert_eq!(solver.fill((idx / 9, idx % 9), value as u8), Ok(()));
        }
    }
}
