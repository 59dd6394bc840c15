//! Depth-first search over the cells that propagation leaves unfilled.
use vstd::prelude::*;
use crate::board::digit_at;
use crate::cell::{candidate_count, count_candidates, Candidates, Cell};
use crate::error::SolveError;
use crate::counts::{lemma_open_bounds, lemma_open_counts, open_upto, Cells};
use crate::account::{
    lemma_branch, lemma_certified_filled, lemma_certified_kept, lemma_closure,
    lemma_closure_kept, lemma_guess_more, lemma_guess_one,
};
use crate::state::Solver;
use crate::steps::{lemma_cells_keep_trans, lemma_completed, lemma_fills_are_free};

verus! {

/// The number of digits among which the search has to choose for the cell
/// `(r, c)`: the number of its candidates, or 10 for a cell that is filled.
pub open spec fn choices(cells: Cells, r: int, c: int) -> int {
    match cells[r][c] {
        Cell::Value(_) => 10,
        Cell::Candidates(cs) => candidate_count(cs),
    }
}

impl Solver {
    /// Whether `(row, col)` is the cell that the search branches on: the
    /// unfilled cell with the fewest candidates, and among those the first
    /// in row-major order.
    pub open(crate) spec fn is_branch_cell(&self, row: int, col: int) -> bool {
        &&& 0 <= row < 9
        &&& 0 <= col < 9
        &&& self.cells[row][col].is_open()
        &&& forall|r: int, c: int|
            0 <= r < 9 && 0 <= c < 9 ==> #[trigger] choices(self.cells, r, c) >= choices(
                self.cells,
                row,
                col,
            )
        &&& forall|r: int, c: int|
            0 <= r < 9 && 0 <= c < 9 && 9 * r + c < 9 * row + col ==> #[trigger] choices(
                self.cells,
                r,
                c,
            ) > choices(self.cells, row, col)
    }

    /// Finds the unfilled cell with the fewest candidates, the first of them
    /// in row-major order, and returns its coordinates and its candidates.
    /// There is none exactly where every cell is filled.
    pub(crate) fn highest_entropy(&self) -> (res: Option<(usize, usize, Candidates)>)
        ensures
            res is None <==> forall|r: int, c: int|
                0 <= r < 9 && 0 <= c < 9 ==> !(#[trigger] self.cells[r][c]).is_open(),
            res matches Some((row, col, cs)) ==> self.is_branch_cell(row as int, col as int)
                && self.cells[row as int][col as int] == Cell::Candidates(cs),
    {
        let mut highest_entropy: Option<(usize, usize, u8)> = None;
        let mut found: Candidates = [false; 9];
        for row in 0..9usize
            invariant
                self.prefix_choice(highest_entropy, found, 9 * row as int),
        {
            for col in 0..9usize
                invariant
                    row < 9,
                    self.prefix_choice(highest_entropy, found, 9 * row as int + col as int),
            {
                if let Cell::Candidates(cs) = self.cells[row][col] {
                    let current_entropy = (row, col, count_candidates(&cs));
                    match highest_entropy {
                        None => {
                            highest_entropy = Some(current_entropy);
                            found = cs;
                        },
                        Some(former) => {
                            if current_entropy.2 < former.2 {
                                highest_entropy = Some(current_entropy);
                                found = cs;
                            }
                        },
                    }
                }
            }
        }
        match highest_entropy {
            None => None,
            Some((row, col, _)) => Some((row, col, found)),
        }
    }

    /// What the scan for the branch cell knows after the first `n` cells in
    /// row-major order: `best` is the first of those with the fewest
    /// candidates, with its number of candidates and, in `found`, the
    /// candidates themselves; there is none where all of them are filled.
    pub open(crate) spec fn prefix_choice(
        &self,
        best: Option<(usize, usize, u8)>,
        found: Candidates,
        n: int,
    ) -> bool {
        match best {
            None => forall|r: int, c: int|
                0 <= r < 9 && 0 <= c < 9 && 9 * r + c < n ==> !(#[trigger] self.cells[r][c]).is_open(),
            Some((row, col, count)) => {
                &&& row < 9
                &&& col < 9
                &&& 9 * row + col < n
                &&& self.cells[row as int][col as int] == Cell::Candidates(found)
                &&& count == candidate_count(found)
                &&& forall|r: int, c: int|
                    0 <= r < 9 && 0 <= c < 9 && 9 * r + c < n ==> #[trigger] choices(
                        self.cells,
                        r,
                        c,
                    ) >= count
                &&& forall|r: int, c: int|
                    0 <= r < 9 && 0 <= c < 9 && 9 * r + c < 9 * row + col ==> #[trigger] choices(
                        self.cells,
                        r,
                        c,
                    ) > count
            },
        }
    }

    /// Whether `solved` is a grid that the search from this state may
    /// return: it is complete and at rest, keeps the digits of this state
    /// and is compatible with it, has in the cell that the search branches
    /// on the least digit that a compatible grid has there, and has come
    /// from this state with as many guesses as fills were counted.
    pub open(crate) spec fn is_found(&self, solved: Solver) -> bool {
        &&& solved.at_rest()
        &&& solved.unfilled() == 0
        &&& solved.cells_keep(self)
        &&& self.admits(solved.digits())
        &&& forall|row: int, col: int, s: Seq<u8>|
            #![trigger self.is_branch_cell(row, col), self.admits(s)]
            self.is_branch_cell(row, col) && self.admits(s) ==> digit_at(
                solved.digits(),
                row,
                col,
            ) <= digit_at(s, row, col)
        &&& self.search_fills() < solved.search_fills()
        &&& solved.search_fills() <= self.search_fills() + self.unfilled()
        &&& exists|guesses: Seq<int>|
            guesses.len() == solved.search_fills() - self.search_fills()
                && #[trigger] solved.guessed_from(self, guesses)
    }

    /// Whether `branch` is this state after the guess of digit `d` for the
    /// cell `(row, col)` that the search branches on, no compatible grid
    /// having a smaller digit there.
    pub open(crate) spec fn is_guess(&self, branch: Solver, row: int, col: int, d: int) -> bool {
        &&& self.at_rest()
        &&& self.is_branch_cell(row, col)
        &&& self.search_fills() + self.unfilled() <= 81
        &&& branch.at_rest()
        &&& branch.cells[row][col].holds(d)
        &&& branch.cells_keep(self)
        &&& branch.unfilled() < self.unfilled()
        &&& branch.search_fills() == self.search_fills() + 1
        &&& branch.is_closure_of(self.filled().insert(9 * row + col))
        &&& forall|free: Set<int>| #[trigger]
            self.certified(free) ==> branch.certified(free.insert(9 * row + col))
        &&& forall|s: Seq<u8>|
            #[trigger] self.admits(s) && digit_at(s, row, col) == d ==> branch.admits(s)
        &&& forall|s: Seq<u8>| #[trigger] self.admits(s) ==> digit_at(s, row, col) >= d
    }

    /// A guess that completes the grid is what the search returns.
    #[verifier::rlimit(30)]
    proof fn lemma_found_at_once(self, branch: Solver, row: int, col: int, d: int)
        requires
            self.is_guess(branch, row, col, d),
            branch.unfilled() == 0,
        ensures
            self.is_found(branch),
    {
        let x = 9 * row + col;
        lemma_completed(self, branch);
        self.lemma_branch_digit(branch, row, col);
        assert forall|other: Seq<u8>| #[trigger] self.admits(other) implies branch.digits()[x]
            <= other[x] by {
            assert(digit_at(other, row, col) >= d);
        }
        lemma_certified_filled(self);
        lemma_closure(self, self.filled());
        lemma_branch(self, branch.digits(), self.filled(), row, col);
        lemma_guess_one(self, branch, x);
        assert(seq![x].len() == 1);
        lemma_open_bounds(branch.cells, 81);
    }

    /// What the search returns after a guess, it returns before the guess.
    #[verifier::rlimit(30)]
    proof fn lemma_found_later(self, branch: Solver, solved: Solver, row: int, col: int, d: int)
        requires
            self.is_guess(branch, row, col, d),
            branch.is_found(solved),
        ensures
            self.is_found(solved),
    {
        let x = 9 * row + col;
        lemma_cells_keep_trans(self, branch, solved);
        lemma_completed(self, solved);
        assert(solved.cells[row][col] == branch.cells[row][col]);
        self.lemma_branch_digit(solved, row, col);
        assert forall|other: Seq<u8>| #[trigger] self.admits(other) implies solved.digits()[x]
            <= other[x] by {
            assert(digit_at(other, row, col) >= d);
        }
        assert forall|other: Seq<u8>|
            #[trigger] self.admits(other) && other[x] == solved.digits()[x] implies branch.admits(
            other,
        ) by {
            assert(digit_at(other, row, col) == d);
        }
        lemma_certified_filled(self);
        lemma_closure(self, self.filled());
        lemma_branch(self, solved.digits(), self.filled(), row, col);
        let later = choose|later: Seq<int>|
            later.len() == solved.search_fills() - branch.search_fills()
                && #[trigger] solved.guessed_from(&branch, later);
        lemma_guess_more(self, branch, solved, x, later);
        assert((seq![x] + later).len() == solved.search_fills() - self.search_fills());
    }

    /// Recursively apply brute-force by testing all candidates of the cell
    /// with the least candidates (highest entropy).
    ///
    /// The candidates of that cell are tried in ascending order, each on a
    /// copy of the grid; the first branch that ends in a complete grid is
    /// returned.  That grid is valid and compatible with the state that the
    /// search started from, and no compatible grid has a smaller digit in the
    /// cell that the search branched on.  Every fill that the search makes is
    /// counted; each of them was needed and made at the first cell with the
    /// fewest digits left, and singles account for all other cells that
    /// were filled.  The search fails with `Unsolvable` only where no valid
    /// grid is compatible with that state, and with `NoUnfilledCell` exactly
    /// where it is started on a grid without an unfilled cell.
    #[verifier::rlimit(30)]
    pub fn brute_force(self) -> (res: Result<Self, SolveError>)
        requires
            self.at_rest(),
            self.search_fills() + self.unfilled() <= 81,
        ensures
            self.unfilled() == 0 <==> res == Err::<Self, SolveError>(
                SolveError::NoUnfilledCell,
            ),
            res matches Ok(solved) ==> self.is_found(solved),
            res matches Err(e) ==> {
                &&& e == SolveError::NoUnfilledCell || e == SolveError::Unsolvable
                &&& e == SolveError::Unsolvable ==> self.hopeless()
            },
        decreases self.unfilled(),
    {
        match self.highest_entropy() {
            None => {
                proof {
                    if self.unfilled_cells > 0 {
                        lemma_some_open(self.cells, 81);
                    }
                }
                Err(SolveError::NoUnfilledCell)
            },
            Some((row, col, cs)) => {
                proof {
                    lemma_open_counts(self.cells, row as int, col as int, 81);
                }
                for candidate in 1..10u8
                    invariant
                        row < 9,
                        col < 9,
                        self.at_rest(),
                        self.brute_force_fills + self.unfilled_cells <= 81,
                        self.unfilled_cells > 0,
                        self.cells[row as int][col as int] == Cell::Candidates(cs),
                        self.is_branch_cell(row as int, col as int),
                        forall|s: Seq<u8>|
                            #[trigger] self.admits(s) ==> digit_at(s, row as int, col as int)
                                >= candidate,
                {
                    if cs[(candidate - 1) as usize] {
                        let mut branch = self.clone();
                        if let Ok(_) = branch.fill((row, col), candidate) {
                            let ghost filled = branch;
                            branch.brute_force_fills += 1;
                            proof {
                                lemma_fills_are_free(filled, branch);
                                lemma_cells_keep_trans(self, filled, branch);
                                lemma_certified_kept(filled, branch);
                                lemma_closure_kept(
                                    filled,
                                    branch,
                                    self.filled().insert(9 * row + col),
                                );
                                assert(self.is_guess(
                                    branch,
                                    row as int,
                                    col as int,
                                    candidate as int,
                                ));
                            }
                            if branch.unfilled_cells == 0 {
                                proof {
                                    self.lemma_found_at_once(
                                        branch,
                                        row as int,
                                        col as int,
                                        candidate as int,
                                    );
                                }
                                return Ok(branch);
                            }
                            match branch.brute_force() {
                                Ok(solved) => {
                                    proof {
                                        self.lemma_found_later(
                                            branch,
                                            solved,
                                            row as int,
                                            col as int,
                                            candidate as int,
                                        );
                                    }
                                    return Ok(solved);
                                },
                                Err(_) => {},
                            }
                        }
                    }
                    proof {
                        assert forall|s: Seq<u8>| #[trigger] self.admits(s) implies digit_at(
                            s,
                            row as int,
                            col as int,
                        ) >= candidate + 1 by {
                            assert(self.cells[row as int][col as int].admits(
                                digit_at(s, row as int, col as int),
                            ));
                        }
                    }
                }
                proof {
                    assert forall|s: Seq<u8>| !#[trigger] self.admits(s) by {
                        if self.admits(s) {
                            assert(self.cells[row as int][col as int].admits(
                                digit_at(s, row as int, col as int),
                            ));
                        }
                    }
                }
                Err(SolveError::Unsolvable)
            },
        }
    }
}

impl Solver {
    /// There is one branch cell, and a grid that keeps the cells has at that
    /// cell the digit that it holds there.
    proof fn lemma_branch_digit(self, solved: Solver, row: int, col: int)
        requires
            self.is_branch_cell(row, col),
            !solved.cells[row][col].is_open(),
        ensures
            forall|r: int, c: int| #[trigger] self.is_branch_cell(r, c) ==> r == row && c == col,
            solved.cells[row][col].holds(digit_at(solved.digits(), row, col)),
    {
        assert forall|r: int, c: int| #[trigger] self.is_branch_cell(r, c) implies r == row && c
            == col by {
            assert(choices(self.cells, r, c) >= choices(self.cells, row, col));
            assert(choices(self.cells, row, col) >= choices(self.cells, r, c));
            if 9 * r + c < 9 * row + col {
                assert(choices(self.cells, r, c) > choices(self.cells, row, col));
            }
            if 9 * row + col < 9 * r + c {
                assert(choices(self.cells, row, col) > choices(self.cells, r, c));
            }
        }
        assert((9 * row + col) / 9 == row && (9 * row + col) % 9 == col);
    }
}

/// Where cells are counted as unfilled, one of them is unfilled.
proof fn lemma_some_open(cells: Cells, n: int)
    requires
        0 <= n <= 81,
        open_upto(cells, n) > 0,
    ensures
        exists|r: int, c: int| 0 <= r < 9 && 0 <= c < 9 && (#[trigger] cells[r][c]).is_open(),
    decreases n,
{
    if n > 0 {
        if cells[(n - 1) / 9][(n - 1) % 9].is_open() {
        } else {
            lemma_some_open(cells, n - 1);
        }
    }
}

} // verus!
