//! Accounting for the filled cells: propagation fills what singles force, no
//! more and no less.
use vstd::prelude::*;
use crate::board::{
    col_unit, digit_at, in_unit, lemma_cell_slot, lemma_slot_cell, row_unit, slot_of, square_unit,
    unit_col, unit_row,
};
use crate::cell::{has_candidate, lemma_no_other_candidate};
use crate::counts::{
    differ_only_at, holders, lemma_holder_counts, lemma_holder_witness, lemma_live_bounds,
    lemma_live_none, lemma_live_one, lemma_none_open, live, open_upto, slot_cell,
};
use crate::puzzle::is_solution_of;
use crate::chains::{lemma_cut, lemma_filled_kept, lemma_same_options, lemma_single_kept};
use crate::search::choices;
use crate::singles::{
    agree_before, are_peers, filled_before, given_cells, guessed, guessed_before, is_branch,
    is_chain, is_derivable, is_shown, options,
    is_derivation_with, is_derived_with, is_hidden_single, is_last_place, is_naked_single,
    seen_before,
};
use crate::state::Solver;
use crate::tally::{bit, lemma_tally_two};

verus! {

/// An account of the filled cells stays one while the same cells are filled
/// with the same digits.
pub(crate) proof fn lemma_account_kept(a: Solver, b: Solver, log: Seq<int>, free: Set<int>)
    requires
        a.certifies(log, free),
        forall|r: int, c: int|
            0 <= r < 9 && 0 <= c < 9 ==> (#[trigger] b.cells[r][c]).is_open()
                == a.cells[r][c].is_open(),
        forall|r: int, c: int|
            0 <= r < 9 && 0 <= c < 9 && !(#[trigger] a.cells[r][c]).is_open() ==> b.cells[r][c]
                == a.cells[r][c],
    ensures
        b.certifies(log, free),
{
    let s = a.digits();
    let t = b.digits();
    assert forall|j: int| 0 <= j < log.len() implies #[trigger] t[log[j]] == s[log[j]] by {
        assert(!a.cells[log[j] / 9][log[j] % 9].is_open());
        assert(b.cells[log[j] / 9][log[j] % 9] == a.cells[log[j] / 9][log[j] % 9]);
    }
    assert forall|i: int| 0 <= i < log.len() implies 0 <= #[trigger] log[i] < 81 && !b.cells[log[i]
        / 9][log[i] % 9].is_open() by {
        assert(b.cells[log[i] / 9][log[i] % 9].is_open() == a.cells[log[i] / 9][log[i]
            % 9].is_open());
    }
    assert forall|r: int, c: int|
        0 <= r < 9 && 0 <= c < 9 && !(#[trigger] b.cells[r][c]).is_open() implies filled_before(
        log,
        log.len() as int,
        r,
        c,
    ) by {
        assert(!a.cells[r][c].is_open());
    }
    assert forall|i: int| 0 <= i < log.len() implies free.contains(#[trigger] log[i])
        || is_naked_single(t, log, i) || is_hidden_single(t, log, i) by {
        lemma_single_kept(s, log, t, log, i);
    }
}

/// Filling a cell extends an account of the filled cells by that cell: as a
/// free cell, or as a single where the cells before it force it.
#[verifier::rlimit(30)]
pub(crate) proof fn lemma_account_placed(
    a: Solver,
    b: Solver,
    r: int,
    c: int,
    log: Seq<int>,
    free: Set<int>,
)
    requires
        a.certifies(log, free),
        0 <= r < 9,
        0 <= c < 9,
        differ_only_at(a.cells, b.cells, r, c),
        a.cells[r][c].is_open(),
        !b.cells[r][c].is_open(),
    ensures
        b.certifies(log.push(9 * r + c), free.insert(9 * r + c)),
        is_naked_single(b.digits(), log.push(9 * r + c), log.len() as int) || is_hidden_single(
            b.digits(),
            log.push(9 * r + c),
            log.len() as int,
        ) ==> b.certifies(log.push(9 * r + c), free),
{
    let x = 9 * r + c;
    let longer = log.push(x);
    let s = a.digits();
    let t = b.digits();
    let n = log.len() as int;
    assert(x / 9 == r && x % 9 == c);
    assert forall|j: int| 0 <= j < n implies #[trigger] t[log[j]] == s[log[j]] && longer[j]
        == log[j] && log[j] != x by {
        assert(!a.cells[log[j] / 9][log[j] % 9].is_open());
        assert(b.cells[log[j] / 9][log[j] % 9] == a.cells[log[j] / 9][log[j] % 9]);
    }
    assert forall|i: int| 0 <= i < longer.len() implies 0 <= #[trigger] longer[i] < 81
        && !b.cells[longer[i] / 9][longer[i] % 9].is_open() by {
        if i < n {
            assert(longer[i] == log[i]);
            assert(!a.cells[log[i] / 9][log[i] % 9].is_open());
            assert(b.cells[log[i] / 9][log[i] % 9] == a.cells[log[i] / 9][log[i] % 9]);
        }
    }
    assert forall|i: int, j: int|
        0 <= i < 9 && 0 <= j < 9 && !(#[trigger] b.cells[i][j]).is_open() implies filled_before(
        longer,
        longer.len() as int,
        i,
        j,
    ) by {
        if i == r && j == c {
            assert(longer[n] == 9 * i + j);
        } else {
            assert(b.cells[i][j] == a.cells[i][j]);
            assert(filled_before(log, n, i, j));
            lemma_filled_kept(log, longer, n, i, j);
        }
    }
    assert forall|i: int| 0 <= i < n implies free.contains(#[trigger] longer[i])
        || is_naked_single(t, longer, i) || is_hidden_single(t, longer, i) by {
        assert(longer[i] == log[i]);
        assert(free.contains(log[i]) || is_naked_single(s, log, i) || is_hidden_single(s, log, i));
        lemma_single_kept(s, log, t, longer, i);
    }
    assert(longer[n] == x);
}

/// A digit that the filled cells force into a cell makes the cell a single
/// of every account of the filled cells.
#[verifier::rlimit(30)]
pub(crate) proof fn lemma_forced_single(
    a: Solver,
    b: Solver,
    r: int,
    c: int,
    v: int,
    log: Seq<int>,
    free: Set<int>,
)
    requires
        a.wf(),
        a.certifies(log, free),
        0 <= r < 9,
        0 <= c < 9,
        1 <= v <= 9,
        differ_only_at(a.cells, b.cells, r, c),
        a.cells[r][c].is_open(),
        b.cells[r][c].holds(v),
        a.forces(r, c, v),
    ensures
        is_naked_single(b.digits(), log.push(9 * r + c), log.len() as int) || is_hidden_single(
            b.digits(),
            log.push(9 * r + c),
            log.len() as int,
        ),
{
    let x = 9 * r + c;
    let longer = log.push(x);
    let t = b.digits();
    let n = log.len() as int;
    assert(x / 9 == r && x % 9 == c);
    assert(longer[n] == x);
    assert(t[x] == v);
    if forall|e: int| 1 <= e <= 9 && e != v ==> !#[trigger] a.cells[r][c].lists(e) {
        assert forall|e: int| 1 <= e <= 9 && e != t[longer[n]] implies #[trigger] seen_before(
            t,
            longer,
            n,
            longer[n] / 9,
            longer[n] % 9,
            e,
        ) by {
            assert(!a.cells[r][c].lists(e));
            lemma_struck_seen(a, b, r, c, r, c, e, log);
        }
    } else {
        let g = choose|g: int|
            0 <= g < 27 && in_unit(g, r, c) && #[trigger] a.only_place(g, r, c, v);
        assert forall|k: int|
            0 <= k < 9 && 9 * unit_row(g, k) + unit_col(g, k) != longer[n] implies #[trigger] filled_before(
            longer,
            n,
            unit_row(g, k),
            unit_col(g, k),
        ) || seen_before(t, longer, n, unit_row(g, k), unit_col(g, k), t[longer[n]] as int) by {
            lemma_slot_cell(g, k);
            let zr = unit_row(g, k);
            let zc = unit_col(g, k);
            assert(!slot_cell(a.cells, g, k).lists(v));
            if a.cells[zr][zc].is_open() {
                lemma_struck_seen(a, b, r, c, zr, zc, v, log);
            } else {
                assert(filled_before(log, n, zr, zc));
                lemma_filled_kept(log, longer, n, zr, zc);
            }
        }
        assert(is_last_place(t, longer, n, g));
    }
}

/// An unfilled cell that does not list a digit is shown the digit by a cell
/// of every account of the filled cells.
proof fn lemma_struck_seen(
    a: Solver,
    b: Solver,
    r: int,
    c: int,
    zr: int,
    zc: int,
    e: int,
    log: Seq<int>,
)
    requires
        a.wf(),
        forall|i: int|
            0 <= i < log.len() ==> 0 <= #[trigger] log[i] < 81 && !a.cells[log[i] / 9][log[i]
                % 9].is_open(),
        forall|i: int, j: int|
            0 <= i < 9 && 0 <= j < 9 && !(#[trigger] a.cells[i][j]).is_open() ==> filled_before(
                log,
                log.len() as int,
                i,
                j,
            ),
        0 <= r < 9,
        0 <= c < 9,
        0 <= zr < 9,
        0 <= zc < 9,
        1 <= e <= 9,
        differ_only_at(a.cells, b.cells, r, c),
        a.cells[r][c].is_open(),
        a.cells[zr][zc].is_open(),
        !a.cells[zr][zc].lists(e),
    ensures
        seen_before(b.digits(), log.push(9 * r + c), log.len() as int, zr, zc, e),
{
    assert(a.cells[zr][zc].lists(e) || a.struck(zr, zc, e));
    let g = if a.placed(row_unit(zr), e) {
        row_unit(zr)
    } else if a.placed(col_unit(zc), e) {
        col_unit(zc)
    } else {
        square_unit(zr, zc)
    };
    assert(a.placed(g, e));
    assert(holders(a.cells, g, e) == bit(a.placed(g, e)));
    let k = lemma_holder_witness(a.cells, g, e);
    lemma_slot_cell(g, k);
    let pr = unit_row(g, k);
    let pc = unit_col(g, k);
    assert(a.cells[pr][pc].holds(e));
    assert(are_peers(pr, pc, zr, zc));
    assert(filled_before(log, log.len() as int, pr, pc));
    let j = choose|j: int| 0 <= j < log.len() && #[trigger] log[j] == 9 * pr + pc;
    let longer = log.push(9 * r + c);
    assert(longer[j] == log[j]);
    assert(log[j] / 9 == pr && log[j] % 9 == pc);
    assert(b.cells[pr][pc] == a.cells[pr][pc]);
    assert(b.digits()[longer[j]] == e);
}

/// Filling a cell keeps the filled cells accounted for, with the cell free,
/// or with the same cells free where the filled cells force the digit.
pub(crate) proof fn lemma_certified_placed(a: Solver, b: Solver, r: int, c: int, v: int)
    requires
        a.wf(),
        0 <= r < 9,
        0 <= c < 9,
        1 <= v <= 9,
        differ_only_at(a.cells, b.cells, r, c),
        a.cells[r][c].is_open(),
        b.cells[r][c].holds(v),
    ensures
        forall|free: Set<int>| #[trigger] a.certified(free) ==> b.certified(free.insert(9 * r + c)),
        a.forces(r, c, v) ==> b.certified_as(&a),
{
    assert forall|free: Set<int>| #[trigger] a.certified(free) implies b.certified(
        free.insert(9 * r + c),
    ) && (a.forces(r, c, v) ==> b.certified(free)) by {
        let log = choose|log: Seq<int>| a.certifies(log, free);
        lemma_account_placed(a, b, r, c, log, free);
        assert(b.certifies(log.push(9 * r + c), free.insert(9 * r + c)));
        if a.forces(r, c, v) {
            lemma_forced_single(a, b, r, c, v, log, free);
            assert(b.certifies(log.push(9 * r + c), free));
        }
    }
}

/// While the same cells are filled with the same digits, the filled cells
/// stay accounted for.
pub(crate) proof fn lemma_certified_kept(a: Solver, b: Solver)
    requires
        forall|r: int, c: int|
            0 <= r < 9 && 0 <= c < 9 ==> (#[trigger] b.cells[r][c]).is_open()
                == a.cells[r][c].is_open(),
        forall|r: int, c: int|
            0 <= r < 9 && 0 <= c < 9 && !(#[trigger] a.cells[r][c]).is_open() ==> b.cells[r][c]
                == a.cells[r][c],
    ensures
        b.certified_as(&a),
{
    assert forall|free: Set<int>| #[trigger] a.certified(free) implies b.certified(free) by {
        let log = choose|log: Seq<int>| a.certifies(log, free);
        lemma_account_kept(a, b, log, free);
    }
}

/// Filled cells that are accounted for stay so with one more cell free.
pub(crate) proof fn lemma_certified_more(a: Solver, free: Set<int>, x: int)
    requires
        a.certified(free),
    ensures
        a.certified(free.insert(x)),
{
    let log = choose|log: Seq<int>| a.certifies(log, free);
    assert(a.certifies(log, free.insert(x)));
}

/// A unit with live count 1 for a digit that a cell lists has no other place
/// for the digit.
pub(crate) proof fn lemma_only_place(grid: Solver, g: int, r: int, c: int, d: int)
    requires
        0 <= g < 27,
        0 <= r < 9,
        0 <= c < 9,
        in_unit(g, r, c),
        grid.cells[r][c].lists(d),
        live(grid.cells, g, d) == 1,
    ensures
        grid.only_place(g, r, c, d),
{
    lemma_cell_slot(g, r, c);
    let k0 = slot_of(g, r, c);
    assert forall|k: int|
        0 <= k < 9 && (unit_row(g, k) != r || unit_col(g, k) != c) implies !(#[trigger] slot_cell(
        grid.cells,
        g,
        k,
    )).lists(d) by {
        if slot_cell(grid.cells, g, k).lists(d) {
            reveal(live);
            lemma_tally_two(|j: int| slot_cell(grid.cells, g, j).lists(d), k, k0);
        }
    }
}

/// An account of a complete grid in which the given cells and some guessed
/// cells are free is a derivation of the grid from the puzzle and those
/// guessed cells.
pub(crate) proof fn lemma_derived(grid: Solver, puzzle: Seq<char>, guessed: Set<int>)
    requires
        grid.unfilled_cells == 0,
        grid.unfilled_cells == open_upto(grid.cells, 81),
        grid.certified(given_cells(puzzle).union(guessed)),
        is_solution_of(grid.digits(), puzzle),
    ensures
        is_derived_with(puzzle, grid.digits(), guessed),
{
    let free = given_cells(puzzle).union(guessed);
    let order = choose|log: Seq<int>| grid.certifies(log, free);
    assert forall|r: int, c: int| 0 <= r < 9 && 0 <= c < 9 implies #[trigger] filled_before(
        order,
        order.len() as int,
        r,
        c,
    ) by {
        lemma_none_open(grid.cells, r, c);
    }
    assert(is_derivation_with(puzzle, grid.digits(), order, guessed));
}

/// In a grid at rest a cell does not list a digit that a peer holds.
pub(crate) proof fn lemma_shown_not_listed(grid: Solver, r: int, c: int, pr: int, pc: int, e: int)
    requires
        grid.at_rest(),
        0 <= r < 9,
        0 <= c < 9,
        0 <= pr < 9,
        0 <= pc < 9,
        1 <= e <= 9,
        are_peers(pr, pc, r, c),
        grid.cells[pr][pc].holds(e),
    ensures
        !grid.cells[r][c].lists(e),
{
    let g = if pr == r {
        row_unit(r)
    } else if pc == c {
        col_unit(c)
    } else {
        square_unit(r, c)
    };
    lemma_holder_counts(grid.cells, g, pr, pc, e);
    assert(holders(grid.cells, g, e) == bit(grid.placed(g, e)));
    assert(grid.debt(g, e) == 0);
    assert(grid.debt(g, e) >= grid.need(g, e));
    lemma_live_bounds(grid.cells, g, e);
    lemma_live_none(grid.cells, g, r, c, e);
}

/// A grid at rest has filled a cell that the filled cells before it in a
/// chain leave no other digit.
#[verifier::rlimit(30)]
proof fn lemma_naked_filled(grid: Solver, s: Seq<u8>, order: Seq<int>, i: int)
    requires
        grid.at_rest(),
        grid.admits(s),
        0 <= i < order.len(),
        forall|j: int| 0 <= j <= i ==> 0 <= #[trigger] order[j] < 81,
        forall|j: int| 0 <= j < i ==> !grid.cells[#[trigger] order[j] / 9][order[j] % 9].is_open(),
        is_naked_single(s, order, i),
    ensures
        !grid.cells[order[i] / 9][order[i] % 9].is_open(),
{
    let x = order[i];
    let r = x / 9;
    let c = x % 9;
    let d = s[x] as int;
    assert(digit_at(s, r, c) == d);
    if grid.cells[r][c].is_open() {
        let cs = grid.cells[r][c]->Candidates_0;
        assert forall|e: int| 1 <= e <= 9 && e != d implies !#[trigger] has_candidate(cs, e) by {
            assert(seen_before(s, order, i, r, c, e));
            let j = choose|j: int|
                0 <= j < i && #[trigger] s[order[j]] == e && are_peers(
                    order[j] / 9,
                    order[j] % 9,
                    r,
                    c,
                );
            lemma_seen_holds(grid, s, order, j);
            lemma_shown_not_listed(grid, r, c, order[j] / 9, order[j] % 9, e);
        }
        lemma_no_other_candidate(cs, d);
        assert(grid.cells[r][c].wf());
        assert(!grid.bare(r, c));
    }
}

/// A grid at rest has filled a cell whose digit the filled cells before it
/// in a chain leave no other place in a unit.
#[verifier::rlimit(30)]
proof fn lemma_hidden_filled(grid: Solver, s: Seq<u8>, order: Seq<int>, i: int)
    requires
        grid.at_rest(),
        grid.admits(s),
        0 <= i < order.len(),
        forall|j: int| 0 <= j <= i ==> 0 <= #[trigger] order[j] < 81,
        forall|j: int| 0 <= j < i ==> !grid.cells[#[trigger] order[j] / 9][order[j] % 9].is_open(),
        is_hidden_single(s, order, i),
    ensures
        !grid.cells[order[i] / 9][order[i] % 9].is_open(),
{
    let x = order[i];
    let r = x / 9;
    let c = x % 9;
    let d = s[x] as int;
    assert(digit_at(s, r, c) == d);
    assert(1 <= s[x] <= 9);
    if grid.cells[r][c].is_open() {
        assert(grid.cells[r][c].admits(digit_at(s, r, c)));
        let g = choose|g: int|
            0 <= g < 27 && in_unit(g, order[i] / 9, order[i] % 9) && #[trigger] is_last_place(
                s,
                order,
                i,
                g,
            );
        lemma_cell_slot(g, r, c);
        let k0 = slot_of(g, r, c);
        assert forall|k: int| 0 <= k < 9 && k != k0 implies !(#[trigger] slot_cell(
            grid.cells,
            g,
            k,
        )).lists(d) by {
            lemma_slot_cell(g, k);
            let zr = unit_row(g, k);
            let zc = unit_col(g, k);
            assert(9 * zr + zc != order[i]);
            assert(filled_before(order, i, zr, zc) || seen_before(s, order, i, zr, zc, d));
            if filled_before(order, i, zr, zc) {
                let j = choose|j: int| 0 <= j < i && #[trigger] order[j] == 9 * zr + zc;
                assert(order[j] / 9 == zr && order[j] % 9 == zc);
            } else {
                let j = choose|j: int|
                    0 <= j < i && #[trigger] s[order[j]] == d && are_peers(
                        order[j] / 9,
                        order[j] % 9,
                        zr,
                        zc,
                    );
                lemma_seen_holds(grid, s, order, j);
                lemma_shown_not_listed(grid, zr, zc, order[j] / 9, order[j] % 9, d);
            }
        }
        lemma_live_one(grid.cells, g, k0, d);
        assert(grid.debt(g, d) == 0);
        assert(!grid.lone(g, d));
    }
}

/// A grid at rest that is compatible with a grid `s` has filled every cell
/// of a chain of singles of `s` from cells that it has filled.
pub(crate) proof fn lemma_chain_filled(
    grid: Solver,
    s: Seq<u8>,
    order: Seq<int>,
    free: Set<int>,
    n: int,
)
    requires
        grid.at_rest(),
        grid.admits(s),
        is_chain(s, order, free),
        forall|x: int| #[trigger] free.contains(x) ==> grid.filled().contains(x),
        0 <= n <= order.len(),
    ensures
        forall|i: int| 0 <= i < n ==> !grid.cells[#[trigger] order[i] / 9][order[i] % 9].is_open(),
    decreases n,
{
    if n > 0 {
        lemma_chain_filled(grid, s, order, free, n - 1);
        let i = n - 1;
        let x = order[i];
        if free.contains(x) {
            assert(grid.filled().contains(x));
        } else if is_naked_single(s, order, i) {
            lemma_naked_filled(grid, s, order, i);
        } else {
            lemma_hidden_filled(grid, s, order, i);
        }
    }
}

/// A filled cell of a grid holds the digit of every compatible grid.
proof fn lemma_seen_holds(grid: Solver, s: Seq<u8>, order: Seq<int>, j: int)
    requires
        grid.admits(s),
        0 <= j < order.len(),
        0 <= order[j] < 81,
        !grid.cells[order[j] / 9][order[j] % 9].is_open(),
    ensures
        grid.cells[order[j] / 9][order[j] % 9].holds(s[order[j]] as int),
        0 <= order[j] / 9 < 9,
        0 <= order[j] % 9 < 9,
        1 <= s[order[j]] <= 9,
{
    let x = order[j];
    assert(digit_at(s, x / 9, x % 9) == s[x]);
    assert(grid.cells[x / 9][x % 9].admits(digit_at(s, x / 9, x % 9)));
}

/// In a grid at rest that is compatible with a grid `s`, singles do not
/// derive an unfilled cell from cells that are filled.
pub(crate) proof fn lemma_stuck(grid: Solver, s: Seq<u8>, free: Set<int>, x: int)
    requires
        grid.at_rest(),
        grid.admits(s),
        forall|y: int| #[trigger] free.contains(y) ==> grid.filled().contains(y),
        0 <= x < 81,
        grid.cells[x / 9][x % 9].is_open(),
    ensures
        !is_derivable(s, free, x),
{
    if is_derivable(s, free, x) {
        let (order, i) = choose|order: Seq<int>, i: int|
            is_chain(s, order, free) && 0 <= i < order.len() && #[trigger] order[i] == x;
        lemma_chain_filled(grid, s, order, free, i + 1);
    }
}

/// What singles derive from some cells, they derive from more cells.
pub(crate) proof fn lemma_derivable_more(s: Seq<u8>, fewer: Set<int>, more: Set<int>, x: int)
    requires
        forall|y: int| #[trigger] fewer.contains(y) ==> more.contains(y),
        is_derivable(s, fewer, x),
    ensures
        is_derivable(s, more, x),
{
    let (order, i) = choose|order: Seq<int>, i: int|
        is_chain(s, order, fewer) && 0 <= i < order.len() && #[trigger] order[i] == x;
    assert(is_chain(s, order, more));
}

/// A fill of an unfilled cell of a grid at rest that completes the grid is
/// one guess, and a needed one.
pub(crate) proof fn lemma_guess_one(prior: Solver, solved: Solver, x: int)
    requires
        0 <= x < 81,
        prior.at_rest(),
        prior.cells[x / 9][x % 9].is_open(),
        prior.admits(solved.digits()),
        forall|free: Set<int>| #[trigger] prior.certified(free) ==> solved.certified(free.insert(x)),
        forall|other: Seq<u8>| #[trigger] prior.admits(other) ==> solved.digits()[x] <= other[x],
        is_branch(solved.digits(), prior.filled(), x),
    ensures
        solved.guessed_from(&prior, seq![x]),
{
    reveal(is_branch);
    reveal(Solver::guessed_from);
    let guesses = seq![x];
    assert(guesses[0] == x);
    assert(prior.filled().union(guessed_before(guesses, 0)) =~= prior.filled());
    assert forall|free: Set<int>| #[trigger] prior.certified(free) implies solved.certified(
        free.union(guessed(guesses)),
    ) by {
        assert(free.union(guessed(guesses)) =~= free.insert(x));
    }
    assert forall|k: int| 0 <= k < guesses.len() implies !is_derivable(
        solved.digits(),
        prior.filled().union(guessed_before(guesses, k)),
        #[trigger] guesses[k],
    ) by {
        assert(prior.filled().union(guessed_before(guesses, 0)) =~= prior.filled());
        lemma_stuck(prior, solved.digits(), prior.filled(), x);
    }
}

/// A guess at an unfilled cell of a grid at rest, followed by the guesses
/// that complete the grid, makes one guess more, all of them needed.
#[verifier::rlimit(30)]
pub(crate) proof fn lemma_guess_more(
    prior: Solver,
    branch: Solver,
    solved: Solver,
    x: int,
    later: Seq<int>,
)
    requires
        0 <= x < 81,
        prior.at_rest(),
        prior.cells[x / 9][x % 9].is_open(),
        !branch.cells[x / 9][x % 9].is_open(),
        branch.cells_keep(&prior),
        prior.admits(solved.digits()),
        forall|free: Set<int>| #[trigger] prior.certified(free) ==> branch.certified(free.insert(x)),
        forall|other: Seq<u8>| #[trigger] prior.admits(other) ==> solved.digits()[x] <= other[x],
        forall|other: Seq<u8>|
            #[trigger] prior.admits(other) && other[x] == solved.digits()[x] ==> branch.admits(
                other,
            ),
        is_branch(solved.digits(), prior.filled(), x),
        branch.is_closure_of(prior.filled().insert(x)),
        branch.admits(solved.digits()),
        solved.guessed_from(&branch, later),
    ensures
        solved.guessed_from(&prior, seq![x] + later),
{
    reveal(is_branch);
    reveal(Solver::guessed_from);
    let guesses = seq![x] + later;
    let s = solved.digits();
    assert(guesses[0] == x);
    assert forall|k: int| 0 <= k < guesses.len() implies is_branch(
        s,
        prior.filled().union(guessed_before(guesses, k)),
        #[trigger] guesses[k],
    ) by {
        if k == 0 {
            assert(prior.filled().union(guessed_before(guesses, 0)) =~= prior.filled());
        } else {
            let rest = guessed_before(later, k - 1);
            let base = prior.filled().insert(x);
            assert forall|y: int| guessed_before(guesses, k).contains(y) implies y == x
                || rest.contains(y) by {
                let j = choose|j: int| 0 <= j < k && #[trigger] guesses[j] == y;
                if j > 0 {
                    assert(later[j - 1] == y);
                }
            }
            assert forall|y: int| rest.contains(y) implies guessed_before(guesses, k).contains(
                y,
            ) by {
                let j = choose|j: int| 0 <= j < k - 1 && #[trigger] later[j] == y;
                assert(guesses[j + 1] == y);
            }
            assert(prior.filled().union(guessed_before(guesses, k)) =~= base.union(rest));
            assert(guesses[k] == later[k - 1]);
            lemma_closed_branch(branch, s, base, rest, later[k - 1]);
        }
    }
    assert forall|j: int| 0 <= j < later.len() implies #[trigger] guesses[j + 1] == later[j] by {}
    assert forall|k: int, other: Seq<u8>|
        0 <= k < guesses.len() && prior.admits(other) && #[trigger] agree_before(
            other,
            s,
            guesses,
            k,
        ) implies s[guesses[k]] <= other[guesses[k]] by {
        if k > 0 {
            assert(other[guesses[0]] == s[guesses[0]]);
            assert(branch.admits(other));
            assert forall|j: int|
                0 <= j < k - 1 implies other[#[trigger] later[j]] == s[later[j]] by {
                assert(guesses[j + 1] == later[j]);
            }
            assert(agree_before(other, s, later, k - 1));
            assert(guesses[k] == later[k - 1]);
        }
    }
    assert forall|free: Set<int>| #[trigger] prior.certified(free) implies solved.certified(
        free.union(guessed(guesses)),
    ) by {
        assert(branch.certified(free.insert(x)));
        assert forall|y: int| guessed(guesses).contains(y) implies y == x || guessed(
            later,
        ).contains(y) by {
            let j = choose|j: int| 0 <= j < guesses.len() && #[trigger] guesses[j] == y;
            if j > 0 {
                assert(later[j - 1] == y);
            }
        }
        assert forall|y: int| guessed(later).contains(y) implies guessed(guesses).contains(y) by {
            let j = choose|j: int| 0 <= j < later.len() && #[trigger] later[j] == y;
            assert(guesses[j + 1] == y);
        }
        assert(free.union(guessed(guesses)) =~= free.insert(x).union(guessed(later)));
    }
    assert forall|k: int| 0 <= k < guesses.len() implies !is_derivable(
        s,
        prior.filled().union(guessed_before(guesses, k)),
        #[trigger] guesses[k],
    ) by {
        if k == 0 {
            assert(prior.filled().union(guessed_before(guesses, 0)) =~= prior.filled());
            lemma_stuck(prior, s, prior.filled(), x);
        } else {
            let fewer = prior.filled().union(guessed_before(guesses, k));
            let more = branch.filled().union(guessed_before(later, k - 1));
            assert(guesses[k] == later[k - 1]);
            assert(!is_derivable(s, more, later[k - 1]));
            assert forall|y: int| #[trigger] fewer.contains(y) implies more.contains(y) by {
                if prior.filled().contains(y) {
                    assert(!prior.cells[y / 9][y % 9].is_open());
                    assert(branch.cells[y / 9][y % 9] == prior.cells[y / 9][y % 9]);
                } else {
                    let j = choose|j: int| 0 <= j < k && #[trigger] guesses[j] == y;
                    if j > 0 {
                        assert(later[j - 1] == y);
                    }
                }
            }
            if is_derivable(s, fewer, guesses[k]) {
                lemma_derivable_more(s, fewer, more, guesses[k]);
            }
        }
    }
}

/// The filled cells among the first `n` cells, in row-major order.
pub open(crate) spec fn filled_upto(grid: Solver, n: int) -> Seq<int>
    decreases n,
{
    if n <= 0 {
        Seq::<int>::empty()
    } else if grid.cells[(n - 1) / 9][(n - 1) % 9].is_open() {
        filled_upto(grid, n - 1)
    } else {
        filled_upto(grid, n - 1).push(n - 1)
    }
}

/// The filled cells in row-major order are just the filled cells.
proof fn lemma_filled_upto(grid: Solver, n: int)
    requires
        0 <= n <= 81,
    ensures
        forall|i: int|
            0 <= i < filled_upto(grid, n).len() ==> 0 <= #[trigger] filled_upto(grid, n)[i] < n
                && grid.filled().contains(filled_upto(grid, n)[i]),
        forall|r: int, c: int|
            0 <= r < 9 && 0 <= c < 9 && 9 * r + c < n && !(#[trigger] grid.cells[r][c]).is_open()
                ==> filled_before(filled_upto(grid, n), filled_upto(grid, n).len() as int, r, c),
    decreases n,
{
    if n > 0 {
        lemma_filled_upto(grid, n - 1);
        let before = filled_upto(grid, n - 1);
        let now = filled_upto(grid, n);
        assert forall|r: int, c: int|
            0 <= r < 9 && 0 <= c < 9 && 9 * r + c < n && !(#[trigger] grid.cells[r][c]).is_open() implies filled_before(
            now,
            now.len() as int,
            r,
            c,
        ) by {
            if 9 * r + c < n - 1 {
                lemma_filled_kept(before, now, before.len() as int, r, c);
            } else {
                assert((n - 1) / 9 == r && (n - 1) % 9 == c);
                assert(now[now.len() - 1] == 9 * r + c);
            }
        }
    }
}

/// The filled cells are accounted for where all of them are free.
pub(crate) proof fn lemma_certified_filled(grid: Solver)
    ensures
        grid.certified(grid.filled()),
{
    lemma_filled_upto(grid, 81);
    assert(grid.certifies(filled_upto(grid, 81), grid.filled()));
}

/// A cell that is filled in a grid whose filled cells are accounted for is
/// derived by singles from the free cells, in every compatible grid.
pub(crate) proof fn lemma_filled_derivable(grid: Solver, s: Seq<u8>, free: Set<int>, x: int)
    requires
        grid.certified(free),
        grid.admits(s),
        0 <= x < 81,
        !grid.cells[x / 9][x % 9].is_open(),
    ensures
        is_derivable(s, free, x),
{
    let log = choose|log: Seq<int>| grid.certifies(log, free);
    let t = grid.digits();
    assert forall|j: int| 0 <= j < log.len() implies #[trigger] s[log[j]] == t[log[j]] by {
        let y = log[j];
        assert(digit_at(s, y / 9, y % 9) == s[y]);
        assert(grid.cells[y / 9][y % 9].admits(digit_at(s, y / 9, y % 9)));
    }
    assert forall|i: int| 0 <= i < log.len() implies free.contains(#[trigger] log[i])
        || is_naked_single(s, log, i) || is_hidden_single(s, log, i) by {
        lemma_single_kept(t, log, s, log, i);
    }
    assert(is_chain(s, log, free));
    assert((9 * (x / 9) + x % 9) == x);
    assert(filled_before(log, log.len() as int, x / 9, x % 9));
    let i = choose|i: int| 0 <= i < log.len() && #[trigger] log[i] == 9 * (x / 9) + x % 9;
    assert(log[i] == x);
}

/// A grid at rest whose filled cells are accounted for by cells that it
/// has filled is the closure of those cells under singles.
pub(crate) proof fn lemma_closure(grid: Solver, free: Set<int>)
    requires
        grid.at_rest(),
        grid.certified(free),
        forall|y: int| #[trigger] free.contains(y) ==> grid.filled().contains(y),
    ensures
        grid.is_closure_of(free),
{
    reveal(Solver::is_closure_of);
    assert forall|s: Seq<u8>, x: int|
        #![trigger grid.admits(s), grid.filled().contains(x)]
        grid.admits(s) && 0 <= x < 81 implies (grid.filled().contains(x) <==> is_derivable(
        s,
        free,
        x,
    )) by {
        if grid.filled().contains(x) {
            lemma_filled_derivable(grid, s, free, x);
        } else {
            lemma_stuck(grid, s, free, x);
        }
    }
}

/// Guessing from the filled cells of a grid that is the closure of some
/// cells is guessing from those cells: the cell to guess at is the same.
#[verifier::rlimit(30)]
pub(crate) proof fn lemma_closed_branch(
    grid: Solver,
    s: Seq<u8>,
    base: Set<int>,
    extra: Set<int>,
    x: int,
)
    requires
        grid.admits(s),
        grid.is_closure_of(base),
        forall|y: int| #[trigger] base.contains(y) ==> grid.filled().contains(y),
        is_branch(s, grid.filled().union(extra), x),
    ensures
        is_branch(s, base.union(extra), x),
{
    reveal(is_branch);
    reveal(Solver::is_closure_of);
    let closed = grid.filled();
    assert forall|y: int| #[trigger] closed.contains(y) implies is_derivable(s, base, y) by {
        assert(grid.admits(s) && grid.filled().contains(y));
    }
    assert forall|z: int| #[trigger]
        is_derivable(s, closed.union(extra), z) <==> is_derivable(s, base.union(extra), z) by {
        if is_derivable(s, closed.union(extra), z) {
            lemma_cut(s, closed, base, extra, z);
        }
        if is_derivable(s, base.union(extra), z) {
            lemma_derivable_more(s, base.union(extra), closed.union(extra), z);
        }
    }
    assert forall|y: int| 0 <= y < 81 && !#[trigger] is_derivable(
        s,
        base.union(extra),
        y,
    ) implies options(s, base.union(extra), y) >= options(s, base.union(extra), x) && (y < x
        ==> options(s, base.union(extra), y) > options(s, base.union(extra), x)) by {
        lemma_same_options(s, closed.union(extra), base.union(extra), y);
        lemma_same_options(s, closed.union(extra), base.union(extra), x);
        assert(!is_derivable(s, closed.union(extra), y));
    }
}

/// A digit that an unfilled cell does not list is held by a peer of it.
proof fn lemma_struck_peer(grid: Solver, r: int, c: int, d: int) -> (at: (int, int))
    requires
        grid.wf(),
        0 <= r < 9,
        0 <= c < 9,
        1 <= d <= 9,
        grid.cells[r][c].is_open(),
        !grid.cells[r][c].lists(d),
    ensures
        0 <= at.0 < 9,
        0 <= at.1 < 9,
        are_peers(at.0, at.1, r, c),
        grid.cells[at.0][at.1].holds(d),
{
    assert(grid.cells[r][c].lists(d) || grid.struck(r, c, d));
    let g = if grid.placed(row_unit(r), d) {
        row_unit(r)
    } else if grid.placed(col_unit(c), d) {
        col_unit(c)
    } else {
        square_unit(r, c)
    };
    assert(grid.placed(g, d));
    assert(holders(grid.cells, g, d) == bit(grid.placed(g, d)));
    let k = lemma_holder_witness(grid.cells, g, d);
    lemma_slot_cell(g, k);
    (unit_row(g, k), unit_col(g, k))
}

/// In a grid at rest that is the closure of some cells, a digit is a
/// candidate of an unfilled cell exactly where no cell that singles derive
/// shows it to the cell.
proof fn lemma_candidate_shown(grid: Solver, s: Seq<u8>, free: Set<int>, r: int, c: int, d: int)
    requires
        grid.at_rest(),
        grid.admits(s),
        grid.is_closure_of(free),
        0 <= r < 9,
        0 <= c < 9,
        1 <= d <= 9,
        grid.cells[r][c].is_open(),
    ensures
        grid.cells[r][c].lists(d) <==> !is_shown(s, free, 9 * r + c, d),
{
    reveal(Solver::is_closure_of);
    let y = 9 * r + c;
    assert(y / 9 == r && y % 9 == c);
    if is_shown(s, free, y, d) {
        let z = choose|z: int|
            0 <= z < 81 && are_peers(z / 9, z % 9, y / 9, y % 9) && #[trigger] is_derivable(
                s,
                free,
                z,
            ) && s[z] == d;
        assert(grid.admits(s) && grid.filled().contains(z));
        assert(digit_at(s, z / 9, z % 9) == s[z]);
        assert(grid.cells[z / 9][z % 9].admits(digit_at(s, z / 9, z % 9)));
        lemma_shown_not_listed(grid, r, c, z / 9, z % 9, d);
    }
    if !grid.cells[r][c].lists(d) {
        let at = lemma_struck_peer(grid, r, c, d);
        let z = 9 * at.0 + at.1;
        assert(z / 9 == at.0 && z % 9 == at.1);
        assert(grid.filled().contains(z));
        assert(grid.admits(s) && grid.filled().contains(z));
        assert(is_derivable(s, free, z));
        assert(digit_at(s, at.0, at.1) == s[z]);
        assert(grid.cells[at.0][at.1].admits(digit_at(s, at.0, at.1)));
    }
}

/// In a grid at rest that is the closure of some cells, an unfilled cell
/// has as many candidates as the cells that singles derive leave it digits.
proof fn lemma_options(grid: Solver, s: Seq<u8>, free: Set<int>, r: int, c: int)
    requires
        grid.at_rest(),
        grid.admits(s),
        grid.is_closure_of(free),
        0 <= r < 9,
        0 <= c < 9,
        grid.cells[r][c].is_open(),
    ensures
        options(s, free, 9 * r + c) == choices(grid.cells, r, c),
{
    lemma_candidate_shown(grid, s, free, r, c, 1);
    lemma_candidate_shown(grid, s, free, r, c, 2);
    lemma_candidate_shown(grid, s, free, r, c, 3);
    lemma_candidate_shown(grid, s, free, r, c, 4);
    lemma_candidate_shown(grid, s, free, r, c, 5);
    lemma_candidate_shown(grid, s, free, r, c, 6);
    lemma_candidate_shown(grid, s, free, r, c, 7);
    lemma_candidate_shown(grid, s, free, r, c, 8);
    lemma_candidate_shown(grid, s, free, r, c, 9);
}

/// The cell that the search branches on in a grid at rest that is the
/// closure of some cells is the cell to guess at, given those cells.
pub(crate) proof fn lemma_branch(grid: Solver, s: Seq<u8>, free: Set<int>, row: int, col: int)
    requires
        grid.at_rest(),
        grid.admits(s),
        grid.is_closure_of(free),
        grid.is_branch_cell(row, col),
    ensures
        is_branch(s, free, 9 * row + col),
{
    reveal(is_branch);
    reveal(Solver::is_closure_of);
    let x = 9 * row + col;
    assert(x / 9 == row && x % 9 == col);
    assert(grid.admits(s) && !grid.filled().contains(x));
    lemma_options(grid, s, free, row, col);
    assert forall|y: int| 0 <= y < 81 && !#[trigger] is_derivable(s, free, y) implies options(
        s,
        free,
        y,
    ) >= options(s, free, x) && (y < x ==> options(s, free, y) > options(s, free, x)) by {
        let r = y / 9;
        let c = y % 9;
        assert(grid.admits(s) && !grid.filled().contains(y));
        lemma_options(grid, s, free, r, c);
        assert(choices(grid.cells, r, c) >= choices(grid.cells, row, col));
        if y < x {
            assert(9 * r + c < 9 * row + col);
            assert(choices(grid.cells, r, c) > choices(grid.cells, row, col));
        }
    }
}

/// A grid with the cells of a closure is a closure of the same cells.
pub(crate) proof fn lemma_closure_kept(a: Solver, b: Solver, free: Set<int>)
    requires
        b.cells == a.cells,
        a.is_closure_of(free),
    ensures
        b.is_closure_of(free),
{
    reveal(Solver::is_closure_of);
    assert(b.filled() =~= a.filled());
    assert forall|s: Seq<u8>, x: int|
        #![trigger b.admits(s), b.filled().contains(x)]
        b.admits(s) && 0 <= x < 81 implies (b.filled().contains(x) <==> is_derivable(
        s,
        free,
        x,
    )) by {
        assert(a.admits(s) && (a.filled().contains(x) <==> b.filled().contains(x)));
    }
}

} // verus!
