//! The entry point: load a puzzle, propagate, search, and hand out the
//! solution.
use vstd::prelude::*;
use crate::board::{digit_at, is_valid_grid};
use crate::cell::Cell;
use crate::error::{Malformation, SolveError};
use crate::puzzle::{
    blank_count, blanks_upto, given, given_digit, given_upto, is_given, is_solution_of,
    is_solvable, is_well_formed, meets_upto, read_puzzle,
};
use crate::solution::Solution;
use crate::counts::{lemma_all_filled, lemma_open_bounds, open_upto};
use crate::singles::{
    agree_before, are_branches, are_least, are_needed, filled_before, given_cells, guessed,
    guessed_before, is_branch, is_derivable, is_search_of,
    is_derivation, is_derivation_with, is_derived_with, is_solvable_by_singles,
};
use crate::state::Solver;
use crate::account::{
    lemma_chain_filled, lemma_closed_branch, lemma_closure, lemma_derivable_more, lemma_derived,
};
use crate::steps::{
    lemma_completed, lemma_loaded_blank, lemma_loaded_next, lemma_open_monotone,
};

verus! {

impl Solver {
    /// The digits of the cells, with 0 for a cell that is unfilled.
    pub(crate) fn values(&self) -> (values: [[u8; 9]; 9])
        ensures
            forall|r: int, c: int|
                0 <= r < 9 && 0 <= c < 9 ==> match #[trigger] self.cells[r][c] {
                    Cell::Value(v) => values[r][c] == v,
                    Cell::Candidates(_) => values[r][c] == 0,
                },
    {
        let mut values = [[0u8; 9]; 9];
        for row in 0..9usize
            invariant
                forall|r: int, c: int|
                    0 <= r < row && 0 <= c < 9 ==> match #[trigger] self.cells[r][c] {
                        Cell::Value(v) => values[r][c] == v,
                        Cell::Candidates(_) => values[r][c] == 0,
                    },
        {
            for col in 0..9usize
                invariant
                    row < 9,
                    forall|r: int, c: int|
                        0 <= r < row && 0 <= c < 9 ==> match #[trigger] self.cells[r][c] {
                            Cell::Value(v) => values[r][c] == v,
                            Cell::Candidates(_) => values[r][c] == 0,
                        },
                    forall|c: int|
                        0 <= c < col ==> match #[trigger] self.cells[row as int][c] {
                            Cell::Value(v) => values[row as int][c] == v,
                            Cell::Candidates(_) => values[row as int][c] == 0,
                        },
            {
                values[row][col] = match self.cells[row][col] {
                    Cell::Value(v) => v,
                    Cell::Candidates(_) => 0,
                };
            }
        }
        values
    }

    /// Whether `res` is a result that solving `puzzle` can have.
    ///
    /// The input is malformed exactly where it has not 81 characters or has
    /// a character other than `1`-`9` and `.`.  A well-formed puzzle is
    /// solved exactly where it has a solution: the result is then a
    /// complete, valid grid with every digit that the puzzle gives, found
    /// with no more search fills than the puzzle has empty cells, and with
    /// none exactly where naked and hidden singles alone solve the puzzle:
    /// the search fills are guesses from which, together with the given
    /// digits, singles derive the solution; each of them was needed, singles
    /// not deriving its cell from the given digits and the guesses before
    /// it, and was made at the first of the cells with the fewest digits
    /// left; and each is the least digit for its cell that a solution has
    /// that has the digits guessed before.  A
    /// well-formed puzzle without a solution fails with the conflict that
    /// loading its digits ran into, or as unsolvable.
    pub open spec fn is_outcome(puzzle: Seq<char>, res: Result<Solution, SolveError>) -> bool {
        &&& !is_well_formed(puzzle) <==> (res matches Err(e) && (e is MalformedInput))
        &&& res matches Err(e) ==> ((e is MalformedInput) ==> e == SolveError::MalformedInput(
            if puzzle.len() != 81 {
                Malformation::Size
            } else {
                Malformation::Character
            },
        ))
        &&& res is Ok <==> is_well_formed(puzzle) && is_solvable(puzzle)
        &&& res matches Ok(solution) ==> {
            &&& is_solution_of(solution@, puzzle)
            &&& 0 <= solution.fills() <= blank_count(puzzle)
        }
        &&& res matches Ok(solution) ==> (solution.fills() == 0 <==> is_solvable_by_singles(
            puzzle,
        ))
        &&& res matches Ok(solution) ==> exists|guesses: Seq<int>|
            guesses.len() == solution.fills() && #[trigger] is_search_of(
                puzzle,
                solution@,
                guesses,
            )
        &&& res matches Err(e) ==> e != SolveError::Contradiction && e
            != SolveError::NoUnfilledCell
        &&& res matches Err(e) ==> (e == SolveError::Unsolvable ==> exists|loaded: Solver| #[trigger]
            Self::is_loaded(puzzle, 81, loaded) && loaded.unfilled() > 0 && loaded.hopeless())
        &&& res matches Err(e) ==> (e == SolveError::AlreadyFilled || e.is_conflict()
            ==> exists|n: int, prior: Solver|
            0 <= n < 81 && is_given(puzzle[n]) && #[trigger] Self::is_loaded(puzzle, n, prior)
                && prior.fill_fails_with(n / 9, n % 9, given_digit(puzzle[n]), e))
    }

    /// Load a puzzle represented by a 81 length vector of values and dots
    /// ('.') for non-filled cells, and solve it.
    ///
    /// The given digits are filled in one after the other, each with all
    /// that follows from it; what is then still unfilled is left to the
    /// search.
    #[verifier::rlimit(30)]
    pub fn solve(puzzle: Vec<char>) -> (res: Result<Solution, SolveError>)
        ensures
            Self::is_outcome(puzzle@, res),
    {
        let cells = match read_puzzle(&puzzle) {
            Ok(cells) => cells,
            Err(e) => {
                return Err(e);
            },
        };
        let ghost p = puzzle@;

        // Load in values supplied by the puzzle.
        let mut grid: Solver = Default::default();
        proof {
            assert(given_upto(p, 0) =~= Set::<int>::empty());
            lemma_loaded_blank(p, grid);
            assert forall|s: Seq<u8>| is_valid_grid(s) implies #[trigger] grid.admits(s) by {
                assert forall|r: int, c: int| 0 <= r < 9 && 0 <= c < 9 implies (
                #[trigger] grid.cells[r][c]).admits(digit_at(s, r, c)) by {
                    assert(1 <= s[9 * r + c] <= 9);
                    assert(grid.cell(r, c).lists(digit_at(s, r, c)));
                }
            }
        }
        for idx in 0..81usize
            invariant
                p == puzzle@,
                is_well_formed(p),
                cells@.len() == 81,
                forall|i: int| 0 <= i < 81 ==> #[trigger] cells@[i] == given(p[i]),
                grid.at_rest(),
                Self::is_loaded(p, idx as int, grid),
                grid.certified(given_upto(p, idx as int)),
                grid.brute_force_fills == 0,
                forall|i: int|
                    0 <= i < idx && is_given(#[trigger] p[i]) ==> grid.cells[i / 9][i % 9].holds(
                        given_digit(p[i]),
                    ),
                forall|s: Seq<u8>|
                    is_valid_grid(s) && meets_upto(s, p, idx as int) ==> #[trigger] grid.admits(s),
                open_upto(grid.cells, idx as int) <= blanks_upto(p, idx as int),
        {
            let ghost before = grid;
            if let Some(value) = cells[idx] {
                let ghost r = (idx / 9) as int;
                let ghost c = (idx % 9) as int;
                assert(cells@[idx as int] == given(p[idx as int]));
                match grid.fill((idx / 9, idx % 9), value) {
                    Ok(()) => {},
                    Err(e) => {
                        proof {
                            assert forall|s: Seq<u8>| !is_solution_of(s, p) by {
                                if is_solution_of(s, p) {
                                    assert(meets_upto(s, p, idx as int));
                                    assert(before.admits(s));
                                    assert(digit_at(s, r, c) == s[idx as int]);
                                }
                            }
                            assert(is_given(p[idx as int]));
                            assert(Self::is_loaded(p, idx as int, before)
                                && before.fill_fails_with(
                                (idx as int) / 9,
                                (idx as int) % 9,
                                given_digit(p[idx as int]),
                                e,
                            ));
                            assert(e == SolveError::AlreadyFilled || e.is_conflict());
                        }
                        return Err(
                            match e {
                                SolveError::Contradiction => SolveError::Unsolvable,
                                conflict => conflict,
                            },
                        );
                    },
                }
                proof {
                    assert(grid.is_next_loaded(&before, p, idx as int));
                    lemma_loaded_next(p, idx as int, before, grid);
                    assert(given_upto(p, idx as int).insert(9 * (idx / 9) + idx % 9) =~= given_upto(
                        p,
                        idx + 1,
                    ));
                    lemma_open_monotone(before, grid, idx as int);
                    assert forall|i: int|
                        0 <= i < idx + 1 && is_given(#[trigger] p[i]) implies grid.cells[i / 9][i
                        % 9].holds(given_digit(p[i])) by {
                        if i < idx {
                            assert(before.cells[i / 9][i % 9].holds(given_digit(p[i])));
                            assert(!before.cells[i / 9][i % 9].is_open());
                        }
                    }
                    assert forall|s: Seq<u8>|
                        is_valid_grid(s) && meets_upto(s, p, idx + 1) implies #[trigger] grid.admits(
                        s,
                    ) by {
                        assert(meets_upto(s, p, idx as int));
                        assert(before.admits(s));
                        assert(digit_at(s, r, c) == s[idx as int]);
                    }
                }
            } else {
                assert(cells@[idx as int] == given(p[idx as int]));
                proof {
                    assert(grid.is_next_loaded(&before, p, idx as int));
                    lemma_loaded_next(p, idx as int, before, grid);
                    assert(given_upto(p, idx as int) =~= given_upto(p, idx + 1));
                    assert forall|s: Seq<u8>|
                        is_valid_grid(s) && meets_upto(s, p, idx + 1) implies #[trigger] grid.admits(
                        s,
                    ) by {
                        assert(meets_upto(s, p, idx as int));
                    }
                }
            }
        }
        let ghost loaded = grid;
        proof {
            lemma_open_bounds(grid.cells, 81);
            if is_solvable_by_singles(p) {
                let (s, order) = choose|s: Seq<u8>, order: Seq<int>| is_derivation(p, s, order);
                assert(grid.admits(s));
                assert forall|i: int| 0 <= i < 81 && is_given(#[trigger] p[i]) implies !grid.cells[i
                    / 9][i % 9].is_open() by {
                    assert(grid.cells[i / 9][i % 9].holds(given_digit(p[i])));
                }
                let free = given_cells(p).union(Set::<int>::empty());
                assert forall|x: int| #[trigger] free.contains(x) implies grid.filled().contains(
                    x,
                ) by {
                    assert(is_given(p[x]));
                }
                lemma_chain_filled(grid, s, order, free, order.len() as int);
                assert forall|r: int, c: int| 0 <= r < 9 && 0 <= c < 9 implies !(
                #[trigger] grid.cells[r][c]).is_open() by {
                    assert(filled_before(order, order.len() as int, r, c));
                    let j = choose|j: int| 0 <= j < order.len() && #[trigger] order[j] == 9 * r + c;
                    assert(order[j] / 9 == r && order[j] % 9 == c);
                }
                lemma_all_filled(grid.cells, 81);
            }
            if grid.unfilled_cells == 0 {
                lemma_completed(grid, grid);
                assert forall|i: int|
                    0 <= i < 81 && is_given(#[trigger] p[i]) implies grid.digits()[i]
                    == given_digit(p[i]) by {
                    assert(grid.cells[i / 9][i % 9].holds(given_digit(p[i])));
                }
                assert(given_cells(p).union(Set::<int>::empty()) =~= given_upto(p, 81));
                lemma_derived(grid, p, Set::<int>::empty());
                let order = choose|order: Seq<int>|
                    is_derivation_with(p, grid.digits(), order, Set::<int>::empty());
                assert(is_derivation(p, grid.digits(), order));
            }
        }

        // Brute-force any remaining unfilled cells.
        let brute_force = grid.unfilled_cells > 0;
        if brute_force {
            grid = match grid.brute_force() {
                Ok(solved) => solved,
                Err(e) => {
                    proof {
                        assert forall|s: Seq<u8>| !is_solution_of(s, p) by {
                            if is_solution_of(s, p) {
                                assert(loaded.admits(s));
                            }
                        }
                        assert(Self::is_loaded(p, 81, loaded) && loaded.unfilled() > 0
                            && loaded.hopeless());
                    }
                    return Err(e);
                },
            };
        }
        let solution = Solution::new(grid.values(), grid.brute_force_fills);
        proof {
            let s = solution@;
            assert(s =~= grid.digits());
            lemma_completed(loaded, grid);
            assert forall|i: int| 0 <= i < 81 && is_given(#[trigger] p[i]) implies s[i]
                == given_digit(p[i]) by {
                assert(loaded.cells[i / 9][i % 9].holds(given_digit(p[i])));
                assert(loaded.cells[i / 9][i % 9].admits(digit_at(s, i / 9, i % 9)));
                assert(digit_at(s, i / 9, i % 9) == s[i]);
            }
            assert(is_solution_of(s, p));
            if brute_force {
                let guesses = choose|guesses: Seq<int>|
                    guesses.len() == grid.search_fills() - loaded.search_fills()
                        && #[trigger] grid.guessed_from(&loaded, guesses);
                reveal(Solver::guessed_from);
                assert(grid.certified(given_cells(p).union(guessed(guesses))));
                lemma_derived(grid, p, guessed(guesses));
                assert forall|k: int| 0 <= k < guesses.len() implies !is_derivable(
                    s,
                    given_cells(p).union(guessed_before(guesses, k)),
                    #[trigger] guesses[k],
                ) by {
                    let fewer = given_cells(p).union(guessed_before(guesses, k));
                    let more = loaded.filled().union(guessed_before(guesses, k));
                    assert forall|y: int| #[trigger] fewer.contains(y) implies more.contains(y) by {
                        if given_cells(p).contains(y) {
                            assert(is_given(p[y]));
                            assert(loaded.cells[y / 9][y % 9].holds(given_digit(p[y])));
                        }
                    }
                    if is_derivable(s, fewer, guesses[k]) {
                        lemma_derivable_more(s, fewer, more, guesses[k]);
                    }
                }
                assert forall|k: int, other: Seq<u8>|
                    0 <= k < guesses.len() && is_solution_of(other, p) && #[trigger] agree_before(
                        other,
                        s,
                        guesses,
                        k,
                    ) implies s[guesses[k]] <= other[guesses[k]] by {
                    assert(loaded.admits(other));
                }
                lemma_closure(loaded, given_cells(p));
                assert forall|k: int| 0 <= k < guesses.len() implies is_branch(
                    s,
                    given_cells(p).union(guessed_before(guesses, k)),
                    #[trigger] guesses[k],
                ) by {
                    lemma_closed_branch(
                        loaded,
                        s,
                        given_cells(p),
                        guessed_before(guesses, k),
                        guesses[k],
                    );
                }
                assert(guesses.len() == solution.fills());
                assert(is_derived_with(p, s, guessed(guesses)));
                assert(are_needed(p, s, guesses));
                assert(are_branches(p, s, guesses));
                assert(are_least(p, s, guesses));
                assert(is_search_of(p, s, guesses));
            } else {
                let guesses = Seq::<int>::empty();
                assert(guessed(guesses) =~= Set::<int>::empty());
                assert(guesses.len() == solution.fills());
                assert(is_derived_with(p, s, guessed(guesses)));
                assert(are_needed(p, s, guesses));
                assert(are_branches(p, s, guesses));
                assert(are_least(p, s, guesses));
                assert(is_search_of(p, s, guesses));
            }
            assert(is_well_formed(p) && is_solvable(p));
            assert(solution.fills() == 0 <==> is_solvable_by_singles(p));
            assert(exists|guesses: Seq<int>|
                guesses.len() == solution.fills() && #[trigger] is_search_of(p, s, guesses));
            assert(Self::is_outcome(p, Ok::<Solution, SolveError>(solution)));
        }
        Ok(solution)
    }
}

} // verus!
