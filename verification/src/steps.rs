//! The steps of propagation and what each of them keeps of the invariant.
use vstd::prelude::*;
use crate::board::{
    col_unit, digit_at, in_unit, is_valid_grid, lemma_cell_slot, lemma_digit_has_slot,
    lemma_peers_differ, lemma_pigeonhole, lemma_slot_cell, occurrences, row_unit, slot_of,
    square_unit, unit_col, unit_row,
};
use crate::cell::{candidate_count, has_candidate, Candidates, Cell};
use crate::counts::{
    differ_only_at, holders, lemma_holder_counts, lemma_holder_witness, lemma_holders_change,
    lemma_live_bounds, lemma_live_change, lemma_live_counts, lemma_none_open, lemma_open_change,
    live, open_upto, slot_cell,
};
use crate::occurrences::Group;
use crate::state::Solver;
use crate::tally::{bit, lemma_tally_same, lemma_tally_two};

verus! {

/// Placing a digit in an unfilled cell whose units do not have it yet keeps
/// the invariant.  The units of the cell now owe one decrement for every
/// digit that the cell listed.
#[verifier::rlimit(30)]
pub(crate) proof fn lemma_place(
    pre: Solver,
    post: Solver,
    r: int,
    c: int,
    v: int,
    former: Candidates,
)
    requires
        pre.wf(),
        0 <= r < 9,
        0 <= c < 9,
        1 <= v <= 9,
        pre.cells[r][c] == Cell::Candidates(former),
        !pre.struck(r, c, v),
        differ_only_at(pre.cells, post.cells, r, c),
        post.cells[r][c] == Cell::Value(v as u8),
        forall|g: int, d: int|
            0 <= g < 27 && 1 <= d <= 9 ==> #[trigger] post.placed(g, d) == (pre.placed(g, d) || (
            in_unit(g, r, c) && d == v)),
        forall|g: int, d: int|
            0 <= g < 27 && 1 <= d <= 9 ==> #[trigger] post.counter(g, d) == pre.counter(g, d),
        post.unfilled_cells == pre.unfilled_cells - 1,
        post.brute_force_fills == pre.brute_force_fills,
    ensures
        post.wf(),
        post.keeps(&pre),
        post.no_new_lone(&pre),
        post.no_new_bare(&pre),
        has_candidate(former, v),
        forall|g: int, d: int|
            0 <= g < 27 && 1 <= d <= 9 ==> #[trigger] post.debt(g, d) == pre.debt(g, d) + bit(
                in_unit(g, r, c) && has_candidate(former, d),
            ),
        forall|g: int, d: int|
            0 <= g < 27 && 1 <= d <= 9 ==> #[trigger] post.debt(g, d) >= post.need(g, d) + bit(
                in_unit(g, r, c) && has_candidate(former, d) && d != v,
            ),
        forall|g: int, d: int|
            0 <= g < 27 && 1 <= d <= 9 && !(in_unit(g, r, c) && d == v) ==> #[trigger] post.need(
                g,
                d,
            ) <= pre.need(g, d),
        forall|s: Seq<u8>| #[trigger] pre.admits(s) && digit_at(s, r, c) == v ==> post.admits(s),
{
    assert(pre.cells[r][c].is_open());
    assert(pre.cells[r][c].lists(v) || pre.struck(r, c, v));
    lemma_open_change(pre.cells, post.cells, r, c, 81);
    assert forall|i: int, j: int|
        0 <= i < 9 && 0 <= j < 9 implies (#[trigger] post.cells[i][j]).wf() by {
        assert(pre.cells[i][j].wf());
    }
    assert forall|g: int, d: int| 0 <= g < 27 && 1 <= d <= 9 implies {
        &&& holders(post.cells, g, d) == bit(#[trigger] post.placed(g, d))
        &&& live(post.cells, g, d) == live(pre.cells, g, d) - bit(
            in_unit(g, r, c) && has_candidate(former, d),
        )
    } by {
        lemma_holders_change(pre.cells, post.cells, r, c, g, d);
        lemma_live_change(pre.cells, post.cells, r, c, g, d);
        assert(holders(pre.cells, g, d) == bit(pre.placed(g, d)));
    }
    assert forall|g: int, d: int| 0 <= g < 27 && 1 <= d <= 9 implies {
        &&& #[trigger] post.debt(g, d) == pre.debt(g, d) + bit(
            in_unit(g, r, c) && has_candidate(former, d),
        )
        &&& post.debt(g, d) >= post.need(g, d) + bit(
            in_unit(g, r, c) && has_candidate(former, d) && d != v,
        )
        &&& (!(in_unit(g, r, c) && d == v) ==> post.need(g, d) <= pre.need(g, d))
    } by {
        assert(post.placed(g, d) == (pre.placed(g, d) || (in_unit(g, r, c) && d == v)));
        assert(post.counter(g, d) == pre.counter(g, d));
        assert(pre.debt(g, d) >= pre.need(g, d));
        lemma_live_bounds(post.cells, g, d);
    }
    assert forall|i: int, j: int, d: int|
        0 <= i < 9 && 0 <= j < 9 && 1 <= d <= 9 && post.cells[i][j].is_open() && !(
        #[trigger] post.cells[i][j].lists(d)) implies post.struck(i, j, d) by {
        assert(post.cells[i][j] == pre.cells[i][j]);
        assert(pre.cells[i][j].lists(d) || pre.struck(i, j, d));
        assert(post.placed(row_unit(i), d) == (pre.placed(row_unit(i), d) || (in_unit(
            row_unit(i),
            r,
            c,
        ) && d == v)));
        assert(post.placed(col_unit(j), d) == (pre.placed(col_unit(j), d) || (in_unit(
            col_unit(j),
            r,
            c,
        ) && d == v)));
        assert(post.placed(square_unit(i, j), d) == (pre.placed(square_unit(i, j), d) || (in_unit(
            square_unit(i, j),
            r,
            c,
        ) && d == v)));
    }
    assert forall|s: Seq<u8>|
        #[trigger] pre.admits(s) && digit_at(s, r, c) == v implies post.admits(
        s,
    ) by {
        assert forall|i: int, j: int| 0 <= i < 9 && 0 <= j < 9 implies (
        #[trigger] post.cells[i][j]).admits(digit_at(s, i, j)) by {
            assert(pre.cells[i][j].admits(digit_at(s, i, j)));
        }
    }
    assert forall|g: int, d: int| 0 <= g < 27 && 1 <= d <= 9 && #[trigger] post.lone(
        g,
        d,
    ) implies pre.lone(g, d) by {
        assert(post.counter(g, d) == pre.counter(g, d));
        assert(post.debt(g, d) == pre.debt(g, d) + bit(
            in_unit(g, r, c) && has_candidate(former, d),
        ));
    }
    assert forall|i: int, j: int| 0 <= i < 9 && 0 <= j < 9 && #[trigger] post.bare(
        i,
        j,
    ) implies pre.bare(i, j) by {
        assert(post.cells[i][j] == pre.cells[i][j]);
    }
}

/// Striking a digit from an unfilled cell, where one of the cell's units has
/// the digit, keeps the invariant.  The units of the cell now owe one
/// decrement for the digit.
#[verifier::rlimit(30)]
pub(crate) proof fn lemma_strike(
    pre: Solver,
    post: Solver,
    r: int,
    c: int,
    d: int,
    cs: Candidates,
    rest: Candidates,
)
    requires
        pre.wf(),
        0 <= r < 9,
        0 <= c < 9,
        1 <= d <= 9,
        pre.cells[r][c] == Cell::Candidates(cs),
        has_candidate(cs, d),
        pre.struck(r, c, d),
        forall|e: int| #[trigger] has_candidate(rest, e) == (has_candidate(cs, e) && e != d),
        crate::cell::candidate_count(rest) >= 1,
        differ_only_at(pre.cells, post.cells, r, c),
        post.cells[r][c] == Cell::Candidates(rest),
        post.value_occurrences == pre.value_occurrences,
        post.candidate_occurrences == pre.candidate_occurrences,
        post.unfilled_cells == pre.unfilled_cells,
        post.brute_force_fills == pre.brute_force_fills,
    ensures
        post.wf(),
        post.keeps(&pre),
        post.settles(&pre),
        post.no_new_lone(&pre),
        forall|i: int, j: int|
            0 <= i < 9 && 0 <= j < 9 && (i != r || j != c) && #[trigger] post.bare(i, j)
                ==> pre.bare(i, j),
        post.admits_all_of(&pre),
        forall|g: int, e: int|
            0 <= g < 27 && 1 <= e <= 9 ==> #[trigger] post.debt(g, e) == pre.debt(g, e) + bit(
                in_unit(g, r, c) && e == d,
            ),
        forall|g: int|
            0 <= g < 27 && in_unit(g, r, c) ==> #[trigger] post.debt(g, d) >= post.need(g, d) + 1,
{
    assert forall|g: int, e: int| 0 <= g < 27 && 1 <= e <= 9 && #[trigger] post.lone(
        g,
        e,
    ) implies pre.lone(g, e) by {
        lemma_live_change(pre.cells, post.cells, r, c, g, e);
        assert(has_candidate(rest, e) == (has_candidate(cs, e) && e != d));
    }
    assert forall|i: int, j: int|
        0 <= i < 9 && 0 <= j < 9 && (i != r || j != c) && #[trigger] post.bare(i, j) implies pre.bare(
        i,
        j,
    ) by {
        assert(post.cells[i][j] == pre.cells[i][j]);
    }
    lemma_open_change(pre.cells, post.cells, r, c, 81);
    assert forall|i: int, j: int|
        0 <= i < 9 && 0 <= j < 9 implies (#[trigger] post.cells[i][j]).wf() by {
        assert(pre.cells[i][j].wf());
    }
    assert forall|g: int, e: int| 0 <= g < 27 && 1 <= e <= 9 implies {
        &&& holders(post.cells, g, e) == holders(pre.cells, g, e)
        &&& live(post.cells, g, e) == live(pre.cells, g, e) - bit(in_unit(g, r, c) && e == d)
    } by {
        lemma_holders_change(pre.cells, post.cells, r, c, g, e);
        lemma_live_change(pre.cells, post.cells, r, c, g, e);
        assert(has_candidate(rest, e) == (has_candidate(cs, e) && e != d));
    }
    assert forall|g: int, e: int| 0 <= g < 27 && 1 <= e <= 9 implies {
        &&& holders(post.cells, g, e) == bit(#[trigger] post.placed(g, e))
    } by {
        assert(holders(pre.cells, g, e) == bit(pre.placed(g, e)));
    }
    assert forall|g: int, e: int| 0 <= g < 27 && 1 <= e <= 9 implies {
        &&& #[trigger] post.debt(g, e) == pre.debt(g, e) + bit(in_unit(g, r, c) && e == d)
        &&& post.need(g, e) <= pre.need(g, e)
        &&& post.debt(g, e) >= post.need(g, e) + bit(in_unit(g, r, c) && e == d)
    } by {
        assert(pre.debt(g, e) >= pre.need(g, e));
    }
    assert forall|g: int, e: int| 0 <= g < 27 && 1 <= e <= 9 implies #[trigger] post.need(g, e)
        <= pre.need(g, e) by {
        assert(post.debt(g, e) == pre.debt(g, e) + bit(in_unit(g, r, c) && e == d));
    }
    assert forall|g: int| 0 <= g < 27 && in_unit(g, r, c) implies #[trigger] post.debt(g, d)
        >= post.need(g, d) + 1 by {
        assert(post.debt(g, d) == pre.debt(g, d) + bit(in_unit(g, r, c) && d == d));
    }
    assert forall|i: int, j: int, e: int|
        0 <= i < 9 && 0 <= j < 9 && 1 <= e <= 9 && post.cells[i][j].is_open() && !(
        #[trigger] post.cells[i][j].lists(e)) implies post.struck(i, j, e) by {
        if i == r && j == c {
            assert(has_candidate(rest, e) == (has_candidate(cs, e) && e != d));
            assert(pre.cells[i][j].lists(e) || pre.struck(i, j, e));
        } else {
            assert(post.cells[i][j] == pre.cells[i][j]);
            assert(pre.cells[i][j].lists(e) || pre.struck(i, j, e));
        }
    }
    assert forall|i: int, j: int, e: int|
        0 <= i < 9 && 0 <= j < 9 && 1 <= e <= 9 && #[trigger] post.cells[i][j].lists(e) implies pre.cells[i][j].lists(
        e,
    ) by {
        if i == r && j == c {
            assert(has_candidate(rest, e) == (has_candidate(cs, e) && e != d));
        } else {
            assert(post.cells[i][j] == pre.cells[i][j]);
        }
    }
    assert forall|s: Seq<u8>| #[trigger] pre.admits(s) implies post.admits(s) by {
        lemma_struck_digit(pre, r, c, d, s);
        assert forall|i: int, j: int| 0 <= i < 9 && 0 <= j < 9 implies (
        #[trigger] post.cells[i][j]).admits(digit_at(s, i, j)) by {
            assert(pre.cells[i][j].admits(digit_at(s, i, j)));
            if i == r && j == c {
                assert(has_candidate(rest, digit_at(s, i, j)) == (has_candidate(
                    cs,
                    digit_at(s, i, j),
                ) && digit_at(s, i, j) != d));
            }
        }
    }
}

/// A digit that has been placed in a unit of an unfilled cell is not the
/// cell's digit in any compatible grid.
pub(crate) proof fn lemma_struck_digit(pre: Solver, r: int, c: int, d: int, s: Seq<u8>)
    requires
        pre.wf(),
        0 <= r < 9,
        0 <= c < 9,
        1 <= d <= 9,
        pre.cells[r][c].is_open(),
        pre.struck(r, c, d),
        pre.admits(s),
    ensures
        digit_at(s, r, c) != d,
{
    let g = if pre.placed(row_unit(r), d) {
        row_unit(r)
    } else if pre.placed(col_unit(c), d) {
        col_unit(c)
    } else {
        square_unit(r, c)
    };
    assert(pre.placed(g, d));
    assert(holders(pre.cells, g, d) == bit(pre.placed(g, d)));
    let k = lemma_holder_witness(pre.cells, g, d);
    lemma_slot_cell(g, k);
    let hr = unit_row(g, k);
    let hc = unit_col(g, k);
    assert(pre.cells[hr][hc].admits(digit_at(s, hr, hc)));
    lemma_peers_differ(s, g, hr, hc, r, c);
}

/// Decrementing the counters of a cell's units for a digit, where each of
/// them owes a decrement, keeps the invariant.
#[verifier::rlimit(30)]
pub(crate) proof fn lemma_pay(pre: Solver, post: Solver, r: int, c: int, d: int)
    requires
        pre.wf(),
        0 <= r < 9,
        0 <= c < 9,
        1 <= d <= 9,
        forall|g: int|
            0 <= g < 27 && in_unit(g, r, c) ==> #[trigger] pre.debt(g, d) >= pre.need(g, d) + 1,
        post.cells == pre.cells,
        post.value_occurrences == pre.value_occurrences,
        post.unfilled_cells == pre.unfilled_cells,
        post.brute_force_fills == pre.brute_force_fills,
        forall|g: int, e: int|
            0 <= g < 27 && 1 <= e <= 9 ==> #[trigger] post.counter(g, e) == pre.counter(g, e) - bit(
                in_unit(g, r, c) && e == d,
            ),
    ensures
        post.wf(),
        post.keeps(&pre),
        post.settles(&pre),
        post.no_new_bare(&pre),
        forall|g: int, e: int|
            0 <= g < 27 && 1 <= e <= 9 && !(in_unit(g, r, c) && e == d) && #[trigger] post.lone(
                g,
                e,
            ) ==> pre.lone(g, e),
        post.admits_all_of(&pre),
        forall|g: int, e: int|
            0 <= g < 27 && 1 <= e <= 9 ==> #[trigger] post.debt(g, e) == pre.debt(g, e) - bit(
                in_unit(g, r, c) && e == d,
            ),
{
    assert forall|g: int, e: int|
        0 <= g < 27 && 1 <= e <= 9 && !(in_unit(g, r, c) && e == d) && #[trigger] post.lone(
            g,
            e,
        ) implies pre.lone(g, e) by {
        assert(post.counter(g, e) == pre.counter(g, e) - bit(in_unit(g, r, c) && e == d));
    }
    assert forall|g: int, e: int| 0 <= g < 27 && 1 <= e <= 9 implies {
        &&& #[trigger] post.debt(g, e) == pre.debt(g, e) - bit(in_unit(g, r, c) && e == d)
        &&& post.need(g, e) == pre.need(g, e)
        &&& post.debt(g, e) >= post.need(g, e)
        &&& post.placed(g, e) == pre.placed(g, e)
    } by {
        assert(post.counter(g, e) == pre.counter(g, e) - bit(in_unit(g, r, c) && e == d));
        assert(pre.debt(g, e) >= pre.need(g, e));
        if in_unit(g, r, c) && e == d {
            assert(pre.debt(g, d) >= pre.need(g, d) + 1);
        }
    }
    assert forall|g: int, e: int| 0 <= g < 27 && 1 <= e <= 9 implies #[trigger] post.need(g, e)
        <= pre.need(g, e) by {
        assert(post.debt(g, e) == pre.debt(g, e) - bit(in_unit(g, r, c) && e == d));
    }
    assert forall|g: int, e: int| 0 <= g < 27 && 1 <= e <= 9 implies holders(post.cells, g, e)
        == bit(#[trigger] post.placed(g, e)) by {
        assert(holders(pre.cells, g, e) == bit(pre.placed(g, e)));
    }
    assert forall|i: int, j: int, e: int|
        0 <= i < 9 && 0 <= j < 9 && 1 <= e <= 9 && post.cells[i][j].is_open() && !(
        #[trigger] post.cells[i][j].lists(e)) implies post.struck(i, j, e) by {
        assert(pre.cells[i][j].lists(e) || pre.struck(i, j, e));
    }
    assert forall|s: Seq<u8>| #[trigger] pre.admits(s) implies post.admits(s) by {
        assert forall|i: int, j: int| 0 <= i < 9 && 0 <= j < 9 implies (
        #[trigger] post.cells[i][j]).admits(digit_at(s, i, j)) by {
            assert(pre.cells[i][j].admits(digit_at(s, i, j)));
        }
    }
}

/// Where the counter of a unit for a digit is 1 and a cell of the unit lists
/// the digit, every compatible grid has the digit in that cell.
pub(crate) proof fn lemma_hidden_single(pre: Solver, g: int, r: int, c: int, d: int, s: Seq<u8>)
    requires
        pre.wf(),
        0 <= g < 27,
        0 <= r < 9,
        0 <= c < 9,
        1 <= d <= 9,
        in_unit(g, r, c),
        pre.cells[r][c].lists(d),
        pre.counter(g, d) == 1,
        pre.admits(s),
    ensures
        digit_at(s, r, c) == d,
{
    lemma_live_counts(pre.cells, g, r, c, d);
    assert(pre.debt(g, d) >= pre.need(g, d));
    assert(live(pre.cells, g, d) == 1);
    assert(!pre.placed(g, d));
    assert(holders(pre.cells, g, d) == bit(pre.placed(g, d)));
    let k = lemma_digit_has_slot(s, g, d);
    lemma_slot_cell(g, k);
    let yr = unit_row(g, k);
    let yc = unit_col(g, k);
    assert(pre.cells[yr][yc].admits(digit_at(s, yr, yc)));
    if pre.cells[yr][yc].holds(d) {
        lemma_holder_counts(pre.cells, g, yr, yc, d);
    }
    if yr != r || yc != c {
        lemma_cell_slot(g, r, c);
        reveal(live);
        lemma_tally_two(|j: int| slot_cell(pre.cells, g, j).lists(d), k, slot_of(g, r, c));
    }
}

/// A cell that lists a single digit has that digit in every compatible grid.
pub(crate) proof fn lemma_naked_single(pre: Solver, r: int, c: int, d: int, s: Seq<u8>)
    requires
        0 <= r < 9,
        0 <= c < 9,
        pre.admits(s),
        pre.cells[r][c].is_open(),
        forall|e: int| 1 <= e <= 9 && #[trigger] pre.cells[r][c].lists(e) ==> e == d,
    ensures
        digit_at(s, r, c) == d,
{
    assert(pre.cells[r][c].admits(digit_at(s, r, c)));
    assert(1 <= s[9 * r + c] <= 9);
}

/// A digit that a cell does not list is not listed later either.
pub(crate) proof fn lemma_stays_unlisted(a: Solver, b: Solver, r: int, c: int, d: int)
    requires
        b.keeps(&a),
        0 <= r < 9,
        0 <= c < 9,
        1 <= d <= 9,
        !a.cells[r][c].lists(d),
    ensures
        !b.cells[r][c].lists(d),
{
    if b.cells[r][c].lists(d) {
        assert(a.cells[r][c].lists(d));
    }
}

/// Where every cell is filled, the digits of the cells make a valid grid.
pub(crate) proof fn lemma_complete(grid: Solver, s: Seq<u8>)
    requires
        grid.wf(),
        grid.unfilled_cells == 0,
        s.len() == 81,
        forall|r: int, c: int|
            0 <= r < 9 && 0 <= c < 9 ==> (#[trigger] grid.cells[r][c]).holds(digit_at(s, r, c)),
    ensures
        is_valid_grid(s),
{
    assert forall|i: int| 0 <= i < 81 implies 1 <= #[trigger] s[i] <= 9 by {
        let r = i / 9;
        let c = i % 9;
        assert(grid.cells[r][c].holds(digit_at(s, r, c)));
        assert(grid.cells[r][c].wf());
    }
    assert forall|g: int, d: int| 0 <= g < 27 && 1 <= d <= 9 implies #[trigger] occurrences(
        s,
        g,
        d,
    ) <= 1 by {
        reveal(holders);
        let f = |k: int| slot_cell(grid.cells, g, k).holds(d);
        let h = |k: int| digit_at(s, unit_row(g, k), unit_col(g, k)) == d;
        assert forall|k: int| 0 <= k < 9 implies #[trigger] f(k) == h(k) by {
            lemma_slot_cell(g, k);
            assert(grid.cells[unit_row(g, k)][unit_col(g, k)].holds(
                digit_at(s, unit_row(g, k), unit_col(g, k)),
            ));
        }
        lemma_tally_same(f, h);
        assert(holders(grid.cells, g, d) == bit(grid.placed(g, d)));
    }
    assert forall|g: int, d: int| 0 <= g < 27 && 1 <= d <= 9 implies #[trigger] occurrences(
        s,
        g,
        d,
    ) == 1 by {
        lemma_pigeonhole(s, g);
    }
}

/// A grid that was completed from a state is a valid grid that is
/// compatible with that state.
#[verifier::rlimit(30)]
pub(crate) proof fn lemma_completed(prior: Solver, done: Solver)
    requires
        prior.wf(),
        done.wf(),
        done.unfilled_cells == 0,
        done.cells_keep(&prior),
    ensures
        is_valid_grid(done.digits()),
        prior.admits(done.digits()),
        done.admits(done.digits()),
{
    let s = done.digits();
    assert forall|r: int, c: int|
        0 <= r < 9 && 0 <= c < 9 implies (#[trigger] done.cells[r][c]).holds(
        digit_at(s, r, c),
    ) by {
        lemma_none_open(done.cells, r, c);
        assert((9 * r + c) / 9 == r && (9 * r + c) % 9 == c);
    }
    lemma_complete(done, s);
    assert forall|r: int, c: int|
        0 <= r < 9 && 0 <= c < 9 implies (#[trigger] prior.cells[r][c]).admits(
        digit_at(s, r, c),
    ) by {
        let d = digit_at(s, r, c);
        assert(done.cells[r][c].holds(d));
        assert(done.cells[r][c].wf());
        if prior.cells[r][c].is_open() {
            if !prior.cells[r][c].lists(d) {
                assert(prior.struck(r, c, d));
                let g = if prior.placed(row_unit(r), d) {
                    row_unit(r)
                } else if prior.placed(col_unit(c), d) {
                    col_unit(c)
                } else {
                    square_unit(r, c)
                };
                assert(prior.placed(g, d));
                assert(holders(prior.cells, g, d) == bit(prior.placed(g, d)));
                let k = lemma_holder_witness(prior.cells, g, d);
                lemma_slot_cell(g, k);
                let hr = unit_row(g, k);
                let hc = unit_col(g, k);
                assert(!prior.cells[hr][hc].is_open());
                assert(done.cells[hr][hc] == prior.cells[hr][hc]);
                assert(done.cells[hr][hc].holds(digit_at(s, hr, hc)));
                lemma_peers_differ(s, g, hr, hc, r, c);
            }
        } else {
            assert(done.cells[r][c] == prior.cells[r][c]);
        }
    }
}

/// Cells that keep others have no more unfilled cells than those.
pub(crate) proof fn lemma_open_monotone(a: Solver, b: Solver, n: int)
    requires
        b.cells_keep(&a),
        0 <= n <= 81,
    ensures
        open_upto(b.cells, n) <= open_upto(a.cells, n),
    decreases n,
{
    if n > 0 {
        lemma_open_monotone(a, b, n - 1);
        let r = (n - 1) / 9;
        let c = (n - 1) % 9;
        if !a.cells[r][c].is_open() {
            assert(b.cells[r][c] == a.cells[r][c]);
        }
    }
}

/// The invariant, the debts and the compatible grids do not depend on the
/// number of fills that the search has made.
pub(crate) proof fn lemma_fills_are_free(a: Solver, b: Solver)
    requires
        b.cells == a.cells,
        b.value_occurrences == a.value_occurrences,
        b.candidate_occurrences == a.candidate_occurrences,
        b.unfilled_cells == a.unfilled_cells,
    ensures
        a.wf() ==> b.wf(),
        a.settled() ==> b.settled(),
        a.calm() ==> b.calm(),
        b.cells_keep(&a),
        forall|s: Seq<u8>| #[trigger] a.admits(s) ==> b.admits(s),
{
    if a.wf() {
        assert forall|g: int, d: int| 0 <= g < 27 && 1 <= d <= 9 implies holders(b.cells, g, d)
            == bit(#[trigger] b.placed(g, d)) by {
            assert(holders(a.cells, g, d) == bit(a.placed(g, d)));
        }
        assert forall|g: int, d: int| 0 <= g < 27 && 1 <= d <= 9 implies #[trigger] b.debt(g, d)
            >= b.need(g, d) by {
            assert(a.debt(g, d) >= a.need(g, d));
        }
        assert forall|i: int, j: int, e: int|
            0 <= i < 9 && 0 <= j < 9 && 1 <= e <= 9 && b.cells[i][j].is_open() && !(
            #[trigger] b.cells[i][j].lists(e)) implies b.struck(i, j, e) by {
            assert(a.cells[i][j].lists(e) || a.struck(i, j, e));
        }
    }
    if a.settled() {
        assert forall|g: int, d: int| 0 <= g < 27 && 1 <= d <= 9 implies #[trigger] b.debt(g, d)
            == 0 by {
            assert(a.debt(g, d) == 0);
        }
    }
    if a.calm() {
        assert forall|g: int, d: int| 0 <= g < 27 && 1 <= d <= 9 implies !#[trigger] b.lone(
            g,
            d,
        ) by {
            assert(!a.lone(g, d));
        }
        assert forall|i: int, j: int| 0 <= i < 9 && 0 <= j < 9 implies !#[trigger] b.bare(
            i,
            j,
        ) by {
            assert(!a.bare(i, j));
        }
    }
}

/// What comes from a state that extends another extends it too.
pub(crate) proof fn lemma_extends_trans(a: Solver, b: Solver, c: Solver)
    requires
        b.extends(&a),
        c.extends(&b),
    ensures
        c.extends(&a),
{
    lemma_keeps_trans(a, b, c);
    lemma_settles_trans(a, b, c);
    lemma_no_new_lone_trans(a, b, c);
    assert forall|i: int, j: int|
        0 <= i < 9 && 0 <= j < 9 && #[trigger] c.bare(i, j) implies a.bare(
        i,
        j,
    ) by {
        assert(b.bare(i, j));
    }
}

/// Where nothing is newly needed in two steps, nothing is in both together.
pub(crate) proof fn lemma_settles_trans(a: Solver, b: Solver, c: Solver)
    requires
        b.settles(&a),
        c.settles(&b),
    ensures
        c.settles(&a),
{
    assert forall|g: int, d: int| 0 <= g < 27 && 1 <= d <= 9 implies #[trigger] c.need(g, d)
        <= a.need(g, d) by {
        assert(b.need(g, d) <= a.need(g, d));
    }
}

/// Where no hidden single is left waiting by either of two steps, none is
/// by both together.
pub(crate) proof fn lemma_no_new_lone_trans(a: Solver, b: Solver, c: Solver)
    requires
        b.no_new_lone(&a),
        c.no_new_lone(&b),
    ensures
        c.no_new_lone(&a),
{
    assert forall|g: int, d: int|
        0 <= g < 27 && 1 <= d <= 9 && #[trigger] c.lone(g, d) implies a.lone(
        g,
        d,
    ) by {
        assert(b.lone(g, d));
    }
}

/// A digit that is placed in a unit stays placed in it.
pub(crate) proof fn lemma_stays_placed(a: Solver, b: Solver, g: int, d: int)
    requires
        a.wf(),
        b.wf(),
        b.keeps(&a),
        0 <= g < 27,
        1 <= d <= 9,
        a.placed(g, d),
    ensures
        b.placed(g, d),
{
    assert(holders(a.cells, g, d) == bit(a.placed(g, d)));
    let k = lemma_holder_witness(a.cells, g, d);
    lemma_slot_cell(g, k);
    let r = unit_row(g, k);
    let c = unit_col(g, k);
    assert(!a.cells[r][c].is_open());
    assert(b.cells[r][c] == a.cells[r][c]);
    lemma_holder_counts(b.cells, g, r, c, d);
    assert(holders(b.cells, g, d) == bit(b.placed(g, d)));
}

/// A unit that has a digit placed has no hidden single waiting for it.
pub(crate) proof fn lemma_placed_not_lone(a: Solver, g: int, d: int)
    requires
        a.wf(),
        0 <= g < 27,
        1 <= d <= 9,
        a.placed(g, d),
    ensures
        !a.lone(g, d),
{
    assert(a.debt(g, d) >= a.need(g, d));
}

/// Skipping a check that may be skipped may still be skipped later.
pub(crate) proof fn lemma_may_still_ignore(
    a: Solver,
    b: Solver,
    r: int,
    c: int,
    d: int,
    ignore: Group,
)
    requires
        a.wf(),
        b.wf(),
        b.keeps(&a),
        0 <= r < 9,
        0 <= c < 9,
        1 <= d <= 9,
        a.may_ignore(r, c, d, ignore),
    ensures
        b.may_ignore(r, c, d, ignore),
{
    if a.placed(row_unit(r), d) {
        lemma_stays_placed(a, b, row_unit(r), d);
    }
    if a.placed(col_unit(c), d) {
        lemma_stays_placed(a, b, col_unit(c), d);
    }
    if a.placed(square_unit(r, c), d) {
        lemma_stays_placed(a, b, square_unit(r, c), d);
    }
}

/// What comes from a state that keeps another keeps it too.
pub(crate) proof fn lemma_keeps_trans(a: Solver, b: Solver, c: Solver)
    requires
        b.keeps(&a),
        c.keeps(&b),
    ensures
        c.keeps(&a),
{
    lemma_cells_keep_trans(a, b, c);
}

/// Cells that keep cells that keep others keep those too.
pub(crate) proof fn lemma_cells_keep_trans(a: Solver, b: Solver, c: Solver)
    requires
        b.cells_keep(&a),
        c.cells_keep(&b),
    ensures
        c.cells_keep(&a),
{
    assert forall|i: int, j: int|
        0 <= i < 9 && 0 <= j < 9 && !(#[trigger] a.cells[i][j]).is_open() implies c.cells[i][j]
        == a.cells[i][j] by {
        assert(b.cells[i][j] == a.cells[i][j]);
        assert(!b.cells[i][j].is_open());
    }
    assert forall|i: int, j: int, d: int|
        0 <= i < 9 && 0 <= j < 9 && 1 <= d <= 9 && #[trigger] c.cells[i][j].lists(d) implies a.cells[i][j].lists(
        d,
    ) by {
        assert(b.cells[i][j].lists(d));
    }
}


/// A unit whose counter for a digit is 1 has one cell at most that lists
/// the digit.
pub(crate) proof fn lemma_one_host(grid: Solver, g: int, j: int, k: int, d: int)
    requires
        grid.wf(),
        0 <= g < 27,
        1 <= d <= 9,
        0 <= j < 9,
        0 <= k < 9,
        grid.counter(g, d) == 1,
        slot_cell(grid.cells, g, j).lists(d),
        slot_cell(grid.cells, g, k).lists(d),
    ensures
        j == k,
{
    assert(grid.debt(g, d) >= grid.need(g, d));
    if j != k {
        reveal(live);
        lemma_tally_two(|i: int| slot_cell(grid.cells, g, i).lists(d), j, k);
    }
}

/// Cells that hold a digit hold it in every state that keeps them.
pub(crate) proof fn lemma_hosts_kept(a: Solver, b: Solver, c: Solver, g: int, d: int)
    requires
        0 <= g < 27,
        b.hosts_hold(&a, g, d),
        c.keeps(&b),
    ensures
        c.hosts_hold(&a, g, d),
{
    assert forall|i: int, j: int|
        0 <= i < 9 && 0 <= j < 9 && in_unit(g, i, j) && a.cell(i, j).lists(
            d,
        ) implies #[trigger] c.cell(i, j).holds(d) by {
        assert(b.cell(i, j).holds(d));
        assert(!b.cells[i][j].is_open());
    }
}

/// Where every slot of a unit that listed a digit holds it, every cell of
/// the unit that listed it does.
pub(crate) proof fn lemma_hosts_by_slot(a: Solver, b: Solver, g: int, d: int)
    requires
        0 <= g < 27,
        forall|k: int|
            0 <= k < 9 && (#[trigger] slot_cell(a.cells, g, k)).lists(d) ==> slot_cell(
                b.cells,
                g,
                k,
            ).holds(d),
    ensures
        b.hosts_hold(&a, g, d),
{
    assert forall|i: int, j: int|
        0 <= i < 9 && 0 <= j < 9 && in_unit(g, i, j) && a.cell(i, j).lists(
            d,
        ) implies #[trigger] b.cell(i, j).holds(d) by {
        lemma_cell_slot(g, i, j);
        assert(slot_cell(a.cells, g, slot_of(g, i, j)).lists(d));
    }
}

/// Loading one cell more leaves a loaded state.
pub(crate) proof fn lemma_loaded_next(puzzle: Seq<char>, n: int, prior: Solver, state: Solver)
    requires
        0 <= n,
        Solver::is_loaded(puzzle, n, prior),
        state.is_next_loaded(&prior, puzzle, n),
    ensures
        Solver::is_loaded(puzzle, n + 1, state),
{
    reveal(Solver::is_loaded);
    let trail = choose|trail: Seq<Solver>| #[trigger]
        Solver::is_loading(puzzle, n, trail) && trail[n] == prior;
    let longer = trail.push(state);
    assert forall|i: int| 1 <= i <= n + 1 implies (#[trigger] longer[i]).is_next_loaded(
        &longer[i - 1],
        puzzle,
        i - 1,
    ) by {
        if i <= n {
            assert(longer[i] == trail[i] && longer[i - 1] == trail[i - 1]);
            assert(trail[i].is_next_loaded(&trail[i - 1], puzzle, i - 1));
        }
    }
    assert(Solver::is_loading(puzzle, n + 1, longer) && longer[n + 1] == state);
}

/// The empty grid is what loading nothing leaves.
pub(crate) proof fn lemma_loaded_blank(puzzle: Seq<char>, state: Solver)
    requires
        state.is_blank(),
    ensures
        Solver::is_loaded(puzzle, 0, state),
{
    reveal(Solver::is_loaded);
    let trail = seq![state];
    assert(Solver::is_loading(puzzle, 0, trail) && trail[0] == state);
}

/// What a fill that succeeds ensures makes its result a state that the
/// fill may leave.
pub(crate) proof fn lemma_filled_from(prior: Solver, next: Solver, r: int, c: int, v: int)
    requires
        prior.cell(r, c).holds(v) || (prior.cell(r, c).is_open() && prior.conflict(r, c, v)
            is None),
        prior.cell(r, c).holds(v) ==> next == prior,
        next.wf(),
        next.tidy(),
        next.keeps(&prior),
        next.cell(r, c).holds(v),
        prior.at_rest() ==> next.at_rest() && next.is_closure_of(prior.filled().insert(9 * r + c)),
        forall|free: Set<int>| #[trigger] prior.certified(free) ==> next.certified(
            free.insert(9 * r + c),
        ),
        forall|s: Seq<u8>| #[trigger] prior.admits(s) && digit_at(s, r, c) == v ==> next.admits(s),
        prior.cell(r, c).is_open() ==> next.unfilled() < prior.unfilled(),
    ensures
        next.is_filled_from(&prior, r, c, v),
{
    reveal(Solver::is_filled_from);
}

} // verus!
