//! What holds of every valid grid and of every run of the solver.
use vstd::prelude::*;
use crate::board::{
    col_unit, digit_at, in_unit, is_valid_grid, lemma_cell_slot, lemma_digit_has_slot,
    lemma_peers_differ, lemma_slot_cell, row_unit, slot_of, square_unit, unit_col, unit_row,
};
use crate::chains::{
    lemma_branch_sound, lemma_branch_unique, lemma_derivable_sound, lemma_peer_digit,
};
use crate::clash::{
    gives_twice, lemma_blank_admits, lemma_one_given, lemma_only_holder, lemma_second_conflict,
    lemma_trail_of_two, shared_conflict,
};
use crate::pattern::lemma_valid_grid_with;
use crate::puzzle::BLANK;
use crate::singles::{
    agree_before, are_branches, are_least, are_needed, are_peers, filled_before, given_cells,
    guessed, guessed_before, is_branch, is_derivable, is_derivation, is_derivation_with,
    is_hidden_single, is_last_place, is_naked_single, is_search_of, is_solvable_by_singles,
    seen_before,
};
use crate::cell::{candidate_count, Cell};
use crate::error::SolveError;
use crate::puzzle::{
    blank_count, blanks_upto, given_digit, is_given, is_solution_of, is_solvable, is_well_formed,
};
use crate::solution::{digit_char, digits_text, Solution};
use crate::counts::{holders, lemma_live_bounds, lemma_live_counts};
use crate::state::Solver;
use crate::tally::bit;

verus! {

/// Whether row `r` of the grid `s` has digit `d` in column `c` and nowhere
/// else.
pub open spec fn row_has_only_at(s: Seq<u8>, r: int, d: int, c: int) -> bool {
    &&& 0 <= c < 9
    &&& digit_at(s, r, c) == d
    &&& forall|other: int| 0 <= other < 9 && other != c ==> #[trigger] digit_at(s, r, other) != d
}

/// Whether column `c` of the grid `s` has digit `d` in row `r` and nowhere
/// else.
pub open spec fn column_has_only_at(s: Seq<u8>, c: int, d: int, r: int) -> bool {
    &&& 0 <= r < 9
    &&& digit_at(s, r, c) == d
    &&& forall|other: int| 0 <= other < 9 && other != r ==> #[trigger] digit_at(s, other, c) != d
}

/// Whether the 3x3 square of the grid `s` that starts at row `3 * sr` and
/// column `3 * sc` has digit `d` at `(r, c)` and nowhere else.
pub open spec fn square_has_only_at(s: Seq<u8>, sr: int, sc: int, d: int, r: int, c: int) -> bool {
    &&& 3 * sr <= r < 3 * sr + 3
    &&& 3 * sc <= c < 3 * sc + 3
    &&& digit_at(s, r, c) == d
    &&& forall|i: int, j: int|
        3 * sr <= i < 3 * sr + 3 && 3 * sc <= j < 3 * sc + 3 && (i != r || j != c)
            ==> #[trigger] digit_at(s, i, j) != d
}

/// Whether row `r` of the grid `s` contains digit `d` exactly once.
pub open spec fn row_has_once(s: Seq<u8>, r: int, d: int) -> bool {
    exists|c: int| row_has_only_at(s, r, d, c)
}

/// Whether column `c` of the grid `s` contains digit `d` exactly once.
pub open spec fn column_has_once(s: Seq<u8>, c: int, d: int) -> bool {
    exists|r: int| column_has_only_at(s, c, d, r)
}

/// Whether the 3x3 square of the grid `s` that starts at row `3 * sr` and
/// column `3 * sc` contains digit `d` exactly once.
pub open spec fn square_has_once(s: Seq<u8>, sr: int, sc: int, d: int) -> bool {
    exists|r: int, c: int| square_has_only_at(s, sr, sc, d, r, c)
}

/// In a valid grid every row contains each digit exactly once.
pub proof fn valid_grid_rows(s: Seq<u8>, r: int, d: int) -> (c: int)
    requires
        is_valid_grid(s),
        0 <= r < 9,
        1 <= d <= 9,
    ensures
        row_has_only_at(s, r, d, c),
{
    let c = lemma_digit_has_slot(s, row_unit(r), d);
    assert forall|other: int| 0 <= other < 9 && other != c implies #[trigger] digit_at(s, r, other)
        != d by {
        lemma_peers_differ(s, row_unit(r), r, c, r, other);
    }
    c
}

/// In a valid grid every column contains each digit exactly once.
pub proof fn valid_grid_columns(s: Seq<u8>, c: int, d: int) -> (r: int)
    requires
        is_valid_grid(s),
        0 <= c < 9,
        1 <= d <= 9,
    ensures
        column_has_only_at(s, c, d, r),
{
    let r = lemma_digit_has_slot(s, col_unit(c), d);
    assert forall|other: int| 0 <= other < 9 && other != r implies #[trigger] digit_at(s, other, c)
        != d by {
        lemma_peers_differ(s, col_unit(c), r, c, other, c);
    }
    r
}

/// In a valid grid every 3x3 square contains each digit exactly once.
pub proof fn valid_grid_squares(s: Seq<u8>, sr: int, sc: int, d: int) -> (at: (int, int))
    requires
        is_valid_grid(s),
        0 <= sr < 3,
        0 <= sc < 3,
        1 <= d <= 9,
    ensures
        square_has_only_at(s, sr, sc, d, at.0, at.1),
{
    let g = 18 + 3 * sr + sc;
    let k = lemma_digit_has_slot(s, g, d);
    lemma_slot_cell(g, k);
    let r = unit_row(g, k);
    let c = unit_col(g, k);
    assert forall|i: int, j: int|
        3 * sr <= i < 3 * sr + 3 && 3 * sc <= j < 3 * sc + 3 && (i != r || j != c) implies #[trigger] digit_at(
        s,
        i,
        j,
    ) != d by {
        assert(square_unit(i, j) == g);
        lemma_peers_differ(s, g, r, c, i, j);
    }
    (r, c)
}

/// Between fills the bookkeeping is exact and propagation has nothing left
/// to do: every placed digit is in `1..=9` and is flagged in its units,
/// which hold it once; the candidates of an unfilled cell are exactly the
/// digits that none of its units has; every counter is the number of
/// unfilled cells of its unit that list its digit; the count of unfilled
/// cells is exact; and no single waits: every unfilled cell has two
/// candidates or more, and no unit has exactly one cell left for a digit.
pub proof fn rest_is_fixed_point(solver: Solver)
    requires
        solver.at_rest(),
    ensures
        forall|r: int, c: int|
            0 <= r < 9 && 0 <= c < 9 ==> match #[trigger] solver.cell(r, c) {
                Cell::Value(v) => 1 <= v <= 9,
                Cell::Candidates(cs) => candidate_count(cs) >= 2,
            },
        forall|g: int, d: int|
            0 <= g < 27 && 1 <= d <= 9 ==> #[trigger] solver.held(g, d) == bit(solver.placed(g, d)),
        forall|g: int, d: int|
            0 <= g < 27 && 1 <= d <= 9 ==> #[trigger] solver.counter(g, d) == solver.listed(g, d),
        forall|g: int, d: int|
            0 <= g < 27 && 1 <= d <= 9 && solver.placed(g, d) ==> #[trigger] solver.listed(g, d)
                == 0,
        forall|g: int, d: int| 0 <= g < 27 && 1 <= d <= 9 ==> #[trigger] solver.listed(g, d) != 1,
        forall|r: int, c: int, d: int|
            0 <= r < 9 && 0 <= c < 9 && 1 <= d <= 9 && solver.cell(r, c).is_open() ==> (
            #[trigger] solver.cell(r, c).lists(d) <==> !solver.struck(r, c, d)),
        solver.unfilled() == solver.open_cells(),
{
    assert forall|r: int, c: int, d: int|
        0 <= r < 9 && 0 <= c < 9 && 1 <= d <= 9 && solver.cell(r, c).is_open() implies (
    #[trigger] solver.cell(r, c).lists(d) <==> !solver.struck(r, c, d)) by {
        assert(solver.cells[r][c].lists(d) || solver.struck(r, c, d));
        if solver.cells[r][c].lists(d) {
            lemma_live_counts(solver.cells, row_unit(r), r, c, d);
            lemma_live_counts(solver.cells, col_unit(c), r, c, d);
            lemma_live_counts(solver.cells, square_unit(r, c), r, c, d);
            assert(solver.debt(row_unit(r), d) == 0);
            assert(solver.debt(col_unit(c), d) == 0);
            assert(solver.debt(square_unit(r, c), d) == 0);
            assert(solver.debt(row_unit(r), d) >= solver.need(row_unit(r), d));
            assert(solver.debt(col_unit(c), d) >= solver.need(col_unit(c), d));
            assert(solver.debt(square_unit(r, c), d) >= solver.need(square_unit(r, c), d));
        }
    }
    assert forall|r: int, c: int| 0 <= r < 9 && 0 <= c < 9 implies match #[trigger] solver.cell(
        r,
        c,
    ) {
        Cell::Value(v) => 1 <= v <= 9,
        Cell::Candidates(cs) => candidate_count(cs) >= 2,
    } by {
        assert(solver.cells[r][c].wf());
        assert(!solver.bare(r, c));
    }
    assert forall|g: int, d: int| 0 <= g < 27 && 1 <= d <= 9 implies {
        &&& #[trigger] solver.listed(g, d) == solver.counter(g, d)
        &&& solver.listed(g, d) != 1
        &&& solver.placed(g, d) ==> solver.listed(g, d) == 0
        &&& solver.held(g, d) == bit(solver.placed(g, d))
    } by {
        assert(solver.debt(g, d) == 0);
        assert(solver.debt(g, d) >= solver.need(g, d));
        assert(!solver.lone(g, d));
        assert(holders(solver.cells, g, d) == bit(solver.placed(g, d)));
        lemma_live_bounds(solver.cells, g, d);
    }
}

/// Written out as a puzzle, a valid grid is well formed and has no empty
/// cell, and its one solution is the grid itself.
pub proof fn valid_grid_solves_itself(s: Seq<u8>)
    requires
        is_valid_grid(s),
    ensures
        is_well_formed(digits_text(s)),
        blank_count(digits_text(s)) == 0,
        is_solution_of(s, digits_text(s)),
        forall|t: Seq<u8>| #[trigger] is_solution_of(t, digits_text(s)) ==> t == s,
{
    let p = digits_text(s);
    assert forall|i: int| 0 <= i < 81 implies is_given(#[trigger] p[i]) && given_digit(p[i])
        == s[i] by {
        assert(1 <= s[i] <= 9);
        assert(p[i] == digit_char(s[i]));
    }
    lemma_no_blanks(p, 81);
    assert forall|t: Seq<u8>| #[trigger] is_solution_of(t, p) implies t == s by {
        assert forall|i: int| 0 <= i < 81 implies t[i] == s[i] by {
            assert(is_given(p[i]));
        }
        assert(t =~= s);
    }
}

/// A text that gives a digit for each of its first `n` cells has no empty
/// cell among them.
proof fn lemma_no_blanks(p: Seq<char>, n: int)
    requires
        0 <= n <= p.len(),
        forall|i: int| 0 <= i < n ==> is_given(#[trigger] p[i]),
    ensures
        blanks_upto(p, n) == 0,
    decreases n,
{
    if n > 0 {
        lemma_no_blanks(p, n - 1);
        assert(is_given(p[n - 1]));
    }
}

/// A complete, valid grid that is given as a puzzle is returned unchanged,
/// with no search fill.
pub proof fn solve_returns_complete_grid(s: Seq<u8>, res: Result<Solution, SolveError>)
    requires
        is_valid_grid(s),
        Solver::is_outcome(digits_text(s), res),
    ensures
        res matches Ok(solution) && solution@ == s && solution.fills() == 0,
{
    valid_grid_solves_itself(s);
    assert(is_solvable(digits_text(s)));
}

/// Solving is idempotent: where `first` is the solution of a puzzle, solving
/// the text of `first` returns the same grid with no search fill.
pub proof fn solve_is_idempotent(
    puzzle: Seq<char>,
    first: Solution,
    second: Result<Solution, SolveError>,
)
    requires
        Solver::is_outcome(puzzle, Ok(first)),
        Solver::is_outcome(digits_text(first@), second),
    ensures
        second matches Ok(again) && again@ == first@ && again.fills() == 0,
{
    solve_returns_complete_grid(first@, second);
}

/// Every solution that `solve` returns is a valid grid: every row, column
/// and 3x3 square of it contains each digit exactly once.
pub proof fn solve_returns_valid_grid(puzzle: Seq<char>, solution: Solution)
    requires
        Solver::is_outcome(puzzle, Ok(solution)),
    ensures
        is_valid_grid(solution@),
        solution.is_printable(),
        forall|r: int, d: int|
            0 <= r < 9 && 1 <= d <= 9 ==> #[trigger] row_has_once(solution@, r, d),
        forall|c: int, d: int|
            0 <= c < 9 && 1 <= d <= 9 ==> #[trigger] column_has_once(solution@, c, d),
        forall|sr: int, sc: int, d: int|
            0 <= sr < 3 && 0 <= sc < 3 && 1 <= d <= 9 ==> #[trigger] square_has_once(
                solution@,
                sr,
                sc,
                d,
            ),
{
    let s = solution@;
    assert forall|r: int, d: int| 0 <= r < 9 && 1 <= d <= 9 implies #[trigger] row_has_once(
        s,
        r,
        d,
    ) by {
        let c = valid_grid_rows(s, r, d);
        assert(row_has_only_at(s, r, d, c));
    }
    assert forall|c: int, d: int| 0 <= c < 9 && 1 <= d <= 9 implies #[trigger] column_has_once(
        s,
        c,
        d,
    ) by {
        let r = valid_grid_columns(s, c, d);
        assert(column_has_only_at(s, c, d, r));
    }
    assert forall|sr: int, sc: int, d: int|
        0 <= sr < 3 && 0 <= sc < 3 && 1 <= d <= 9 implies #[trigger] square_has_once(
        s,
        sr,
        sc,
        d,
    ) by {
        let at = valid_grid_squares(s, sr, sc, d);
        assert(square_has_only_at(s, sr, sc, d, at.0, at.1));
    }
}

/// A puzzle that naked and hidden singles alone solve is solved without a
/// search fill.
pub proof fn singles_need_no_search(puzzle: Seq<char>, res: Result<Solution, SolveError>)
    requires
        is_well_formed(puzzle),
        is_solvable_by_singles(puzzle),
        Solver::is_outcome(puzzle, res),
    ensures
        res matches Ok(solution) && solution.fills() == 0,
{
    let (s, order) = choose|s: Seq<u8>, order: Seq<int>| is_derivation(puzzle, s, order);
    assert(is_solution_of(s, puzzle));
}

/// A solution that was found without a search fill can be derived from the
/// puzzle by naked and hidden singles alone.
pub proof fn no_search_means_singles(puzzle: Seq<char>, solution: Solution)
    requires
        Solver::is_outcome(puzzle, Ok(solution)),
        solution.fills() == 0,
    ensures
        is_solvable_by_singles(puzzle),
{
}

/// A grid in which every cell is given is derived without any single.
pub proof fn complete_grid_needs_no_single(s: Seq<u8>)
    requires
        is_valid_grid(s),
    ensures
        is_solvable_by_singles(digits_text(s)),
{
    valid_grid_solves_itself(s);
    let p = digits_text(s);
    let order = Seq::new(81, |i: int| i);
    assert forall|r: int, c: int| 0 <= r < 9 && 0 <= c < 9 implies #[trigger] filled_before(
        order,
        order.len() as int,
        r,
        c,
    ) by {
        assert(order[9 * r + c] == 9 * r + c);
    }
    assert forall|i: int| 0 <= i < order.len() implies is_given(p[#[trigger] order[i]]) by {
        assert(1 <= s[i] <= 9);
        assert(p[i] == digit_char(s[i]));
    }
    assert(is_derivation(p, s, order));
}

/// No single can be derived in the empty grid: the puzzle without any given
/// digit is not solved by singles alone.
pub proof fn blank_puzzle_needs_search(puzzle: Seq<char>)
    requires
        puzzle.len() == 81,
        forall|i: int| 0 <= i < 81 ==> !is_given(#[trigger] puzzle[i]),
    ensures
        !is_solvable_by_singles(puzzle),
{
    if is_solvable_by_singles(puzzle) {
        let (s, order) = choose|s: Seq<u8>, order: Seq<int>| is_derivation(puzzle, s, order);
        assert(filled_before(order, order.len() as int, 0, 0));
        assert(order.len() > 0);
        let x = order[0];
        assert(0 <= x < 81);
        assert(!is_given(puzzle[x]));
        let d = s[x] as int;
        assert(1 <= s[x] <= 9);
        if is_naked_single(s, order, 0) {
            let e = if d == 1 {
                2int
            } else {
                1int
            };
            assert(seen_before(s, order, 0, x / 9, x % 9, e));
        } else {
            assert(is_hidden_single(s, order, 0));
            let g = choose|g: int|
                0 <= g < 27 && in_unit(g, order[0] / 9, order[0] % 9) && #[trigger] is_last_place(
                    s,
                    order,
                    0,
                    g,
                );
            lemma_cell_slot(g, x / 9, x % 9);
            let k0 = slot_of(g, x / 9, x % 9);
            let k = if k0 == 0 {
                1int
            } else {
                0int
            };
            lemma_slot_cell(g, k);
            lemma_slot_cell(g, k0);
            assert(9 * unit_row(g, k) + unit_col(g, k) != x);
            assert(filled_before(order, 0, unit_row(g, k), unit_col(g, k)) || seen_before(
                s,
                order,
                0,
                unit_row(g, k),
                unit_col(g, k),
                d,
            ));
        }
    }
}

/// Guesses that are the same have the same cells.
proof fn lemma_same_guessed(ga: Seq<int>, gb: Seq<int>, k: int)
    requires
        0 <= k <= ga.len(),
        k <= gb.len(),
        forall|j: int| 0 <= j < k ==> #[trigger] ga[j] == gb[j],
    ensures
        guessed_before(ga, k) == guessed_before(gb, k),
{
    assert forall|y: int| guessed_before(ga, k).contains(y) <==> guessed_before(gb, k).contains(
        y,
    ) by {
        if guessed_before(ga, k).contains(y) {
            let j = choose|j: int| 0 <= j < k && #[trigger] ga[j] == y;
            assert(gb[j] == y);
        }
        if guessed_before(gb, k).contains(y) {
            let j = choose|j: int| 0 <= j < k && #[trigger] gb[j] == y;
            assert(ga[j] == y);
        }
    }
    assert(guessed_before(ga, k) =~= guessed_before(gb, k));
}

/// Solutions of a puzzle that have the same digits at some guesses have the
/// same digits in the given cells and the cells of the guesses.
proof fn lemma_same_free(puzzle: Seq<char>, sa: Seq<u8>, sb: Seq<u8>, ga: Seq<int>, k: int)
    requires
        is_solution_of(sa, puzzle),
        is_solution_of(sb, puzzle),
        0 <= k <= ga.len(),
        forall|j: int| 0 <= j < k ==> sa[#[trigger] ga[j]] == sb[ga[j]],
    ensures
        forall|y: int|
            0 <= y < 81 && #[trigger] given_cells(puzzle).union(guessed_before(ga, k)).contains(y)
                ==> sb[y] == sa[y],
{
    assert forall|y: int|
        0 <= y < 81 && #[trigger] given_cells(puzzle).union(guessed_before(ga, k)).contains(
            y,
        ) implies sb[y] == sa[y] by {
        if guessed_before(ga, k).contains(y) {
            let j = choose|j: int| 0 <= j < k && #[trigger] ga[j] == y;
            assert(sa[ga[j]] == sb[ga[j]]);
        } else {
            assert(given_cells(puzzle).contains(y));
            assert(is_given(puzzle[y]));
        }
    }
}

/// Two searches that have made the same guesses make the next guess at the
/// same cell.
proof fn lemma_same_cell(
    puzzle: Seq<char>,
    sa: Seq<u8>,
    ga: Seq<int>,
    sb: Seq<u8>,
    gb: Seq<int>,
    m: int,
)
    requires
        is_solution_of(sa, puzzle),
        is_solution_of(sb, puzzle),
        0 <= m < ga.len(),
        m < gb.len(),
        forall|j: int| 0 <= j < m ==> #[trigger] ga[j] == gb[j],
        forall|j: int| 0 <= j < m ==> sa[#[trigger] ga[j]] == sb[ga[j]],
        is_branch(sa, given_cells(puzzle).union(guessed_before(ga, m)), ga[m]),
        is_branch(sb, given_cells(puzzle).union(guessed_before(gb, m)), gb[m]),
    ensures
        ga[m] == gb[m],
{
    let free = given_cells(puzzle).union(guessed_before(ga, m));
    lemma_same_guessed(ga, gb, m);
    lemma_same_free(puzzle, sa, sb, ga, m);
    lemma_branch_sound(sa, sb, free, ga[m]);
    lemma_branch_unique(sb, free, ga[m], gb[m]);
}

/// Two searches for the same puzzle make the same guesses, as far as both
/// go: at the same cells, with the same digits.
#[verifier::rlimit(30)]
proof fn lemma_guesses_agree(
    puzzle: Seq<char>,
    sa: Seq<u8>,
    ga: Seq<int>,
    sb: Seq<u8>,
    gb: Seq<int>,
    k: int,
)
    requires
        is_solution_of(sa, puzzle),
        is_solution_of(sb, puzzle),
        are_branches(puzzle, sa, ga),
        are_branches(puzzle, sb, gb),
        are_least(puzzle, sa, ga),
        are_least(puzzle, sb, gb),
        0 <= k <= ga.len(),
        k <= gb.len(),
    ensures
        forall|j: int| 0 <= j < k ==> #[trigger] ga[j] == gb[j],
        forall|j: int| 0 <= j < k ==> sa[#[trigger] ga[j]] == sb[ga[j]],
    decreases k,
{
    if k > 0 {
        let m = k - 1;
        lemma_guesses_agree(puzzle, sa, ga, sb, gb, m);
        assert(ga[m] == gb[m]) by {
            assert(is_branch(sa, given_cells(puzzle).union(guessed_before(ga, m)), ga[m]));
            assert(is_branch(sb, given_cells(puzzle).union(guessed_before(gb, m)), gb[m]));
            lemma_same_cell(puzzle, sa, ga, sb, gb, m);
        }
        assert(sa[ga[m]] <= sb[ga[m]]) by {
            assert(agree_before(sb, sa, ga, m));
        }
        assert(sb[gb[m]] <= sa[gb[m]]) by {
            assert forall|j: int| 0 <= j < m implies sa[#[trigger] gb[j]] == sb[gb[j]] by {
                assert(ga[j] == gb[j]);
            }
            assert(agree_before(sa, sb, gb, m));
        }
    }
}

/// A search ends in a solution of its puzzle.
proof fn lemma_solutions(puzzle: Seq<char>, s: Seq<u8>, guesses: Seq<int>)
    requires
        is_search_of(puzzle, s, guesses),
    ensures
        is_solution_of(s, puzzle),
        are_branches(puzzle, s, guesses),
        are_least(puzzle, s, guesses),
        are_needed(puzzle, s, guesses),
{
    let order = choose|order: Seq<int>| is_derivation_with(puzzle, s, order, guessed(guesses));
}

/// A search that ends in a grid derives every cell of the grid from the
/// given digits and its guesses.
proof fn lemma_all_derived(puzzle: Seq<char>, s: Seq<u8>, guesses: Seq<int>, z: int)
    requires
        is_search_of(puzzle, s, guesses),
        0 <= z < 81,
    ensures
        is_derivable(s, given_cells(puzzle).union(guessed(guesses)), z),
{
    let order = choose|order: Seq<int>| is_derivation_with(puzzle, s, order, guessed(guesses));
    assert(filled_before(order, order.len() as int, z / 9, z % 9));
    let j = choose|j: int| 0 <= j < order.len() && #[trigger] order[j] == 9 * (z / 9) + z % 9;
    assert(order[j] == z);
}

/// Of two searches for the same puzzle, none makes more guesses than the
/// other.
proof fn lemma_no_more_guesses(
    puzzle: Seq<char>,
    sa: Seq<u8>,
    ga: Seq<int>,
    sb: Seq<u8>,
    gb: Seq<int>,
)
    requires
        is_search_of(puzzle, sa, ga),
        is_search_of(puzzle, sb, gb),
    ensures
        gb.len() <= ga.len(),
{
    if ga.len() < gb.len() {
        let n = ga.len() as int;
        lemma_solutions(puzzle, sa, ga);
        lemma_solutions(puzzle, sb, gb);
        lemma_guesses_agree(puzzle, sa, ga, sb, gb, n);
        let free = given_cells(puzzle).union(guessed(ga));
        lemma_same_guessed(ga, gb, n);
        lemma_same_free(puzzle, sa, sb, ga, n);
        assert(0 <= gb[n] < 81) by {
            reveal(is_branch);
            assert(is_branch(sb, given_cells(puzzle).union(guessed_before(gb, n)), gb[n]));
        }
        lemma_all_derived(puzzle, sa, ga, gb[n]);
        lemma_derivable_sound(sa, sb, free, gb[n]);
        assert(!is_derivable(sb, given_cells(puzzle).union(guessed_before(gb, n)), gb[n]));
    }
}

/// The search is determined: two searches for the same puzzle end in the
/// same grid, after the same number of guesses.
pub proof fn search_is_determined(
    puzzle: Seq<char>,
    sa: Seq<u8>,
    ga: Seq<int>,
    sb: Seq<u8>,
    gb: Seq<int>,
)
    requires
        is_search_of(puzzle, sa, ga),
        is_search_of(puzzle, sb, gb),
    ensures
        sa == sb,
        ga == gb,
{
    lemma_no_more_guesses(puzzle, sa, ga, sb, gb);
    lemma_no_more_guesses(puzzle, sb, gb, sa, ga);
    let n = ga.len() as int;
    lemma_solutions(puzzle, sa, ga);
    lemma_solutions(puzzle, sb, gb);
    lemma_guesses_agree(puzzle, sa, ga, sb, gb, n);
    assert(ga =~= gb);
    let free = given_cells(puzzle).union(guessed(ga));
    lemma_same_free(puzzle, sa, sb, ga, n);
    assert forall|z: int| 0 <= z < 81 implies sa[z] == sb[z] by {
        lemma_all_derived(puzzle, sa, ga, z);
        lemma_derivable_sound(sa, sb, free, z);
    }
    assert(sa =~= sb);
}

/// What `solve` ensures determines its result for every puzzle that it
/// solves: two results for one puzzle have the same grid and the same
/// number of search fills.
pub proof fn solve_is_determined(puzzle: Seq<char>, one: Solution, other: Solution)
    requires
        Solver::is_outcome(puzzle, Ok(one)),
        Solver::is_outcome(puzzle, Ok(other)),
    ensures
        one@ == other@,
        one.fills() == other.fills(),
{
    let ga = choose|guesses: Seq<int>|
        guesses.len() == one.fills() && #[trigger] is_search_of(puzzle, one@, guesses);
    let gb = choose|guesses: Seq<int>|
        guesses.len() == other.fills() && #[trigger] is_search_of(puzzle, other@, guesses);
    search_is_determined(puzzle, one@, ga, other@, gb);
}

/// A puzzle that gives one digit twice, for two cells of one unit, and
/// nothing else, fails before any search with the conflict of the first
/// unit (row, column, square) that the two cells share: a digit twice in a
/// row is a row conflict.
pub proof fn twice_given_digit_is_a_conflict(
    puzzle: Seq<char>,
    a: int,
    b: int,
    res: Result<Solution, SolveError>,
)
    requires
        gives_twice(puzzle, a, b),
        are_peers(a / 9, a % 9, b / 9, b % 9),
        Solver::is_outcome(puzzle, res),
    ensures
        res matches Err(e) && e == shared_conflict(a, b),
{
    let v = given_digit(puzzle[a]);
    assert(is_well_formed(puzzle)) by {
        assert forall|i: int| 0 <= i < 81 implies is_given(#[trigger] puzzle[i]) || puzzle[i]
            == BLANK by {}
    }
    assert forall|s: Seq<u8>| !is_solution_of(s, puzzle) by {
        if is_solution_of(s, puzzle) {
            assert(is_given(puzzle[a]) && is_given(puzzle[b]));
            assert(s[a] == v && s[b] == v);
            lemma_peer_digit(s, a / 9, a % 9, b / 9, b % 9);
            assert(digit_at(s, a / 9, a % 9) == s[a] && digit_at(s, b / 9, b % 9) == s[b]);
        }
    }
    assert(!is_solvable(puzzle));
    let e = res->Err_0;
    assert(res is Err && !(e is MalformedInput));
    if e == SolveError::Unsolvable {
        let loaded = choose|loaded: Solver| #[trigger]
            Solver::is_loaded(puzzle, 81, loaded) && loaded.unfilled() > 0 && loaded.hopeless();
        reveal(Solver::is_loaded);
        let trail = choose|trail: Seq<Solver>| #[trigger]
            Solver::is_loading(puzzle, 81, trail) && trail[81] == loaded;
        lemma_trail_of_two(puzzle, a, b, 81, trail);
        lemma_second_conflict(trail[b], a, b, v);
        assert(trail[b + 1].is_next_loaded(&trail[b], puzzle, b + 1 - 1));
        reveal(Solver::is_filled_from);
    } else if e == SolveError::AlreadyFilled || e.is_conflict() {
        let (n, prior) = choose|n: int, prior: Solver|
            0 <= n < 81 && is_given(puzzle[n]) && #[trigger] Solver::is_loaded(puzzle, n, prior)
                && prior.fill_fails_with(n / 9, n % 9, given_digit(puzzle[n]), e);
        reveal(Solver::is_loaded);
        let trail = choose|trail: Seq<Solver>| #[trigger]
            Solver::is_loading(puzzle, n, trail) && trail[n] == prior;
        lemma_trail_of_two(puzzle, a, b, n, trail);
        if n == a {
            let s = lemma_valid_grid_with(a / 9, a % 9, v);
            lemma_blank_admits(prior, s);
        } else {
            assert(n == b) by {
                if n != b {
                    assert(puzzle[n] == BLANK);
                }
            }
            lemma_second_conflict(prior, a, b, v);
        }
    }
}

/// A fill of one cell of the empty grid fills that cell and no other: one
/// digit forces no single.
pub proof fn first_fill_fills_one_cell(blank: Solver, next: Solver, r: int, c: int, v: int)
    requires
        blank.is_blank(),
        next.is_filled_from(&blank, r, c, v),
        0 <= r < 9,
        0 <= c < 9,
        1 <= v <= 9,
    ensures
        next.at_rest(),
        next.cell(r, c).holds(v),
        forall|i: int, j: int|
            0 <= i < 9 && 0 <= j < 9 && (i != r || j != c) ==> (#[trigger] next.cell(i, j)).is_open(),
        forall|g: int| 0 <= g < 27 ==> (#[trigger] next.placed(g, v) <==> in_unit(g, r, c)),
{
    lemma_one_given(blank, next, r, c, v);
    assert(next.at_rest()) by {
        reveal(Solver::is_filled_from);
    }
    assert forall|g: int|
        0 <= g < 27 implies (#[trigger] next.placed(g, v) <==> in_unit(g, r, c)) by {
        lemma_only_holder(next, r, c, v, g);
    }
}

} // verus!
