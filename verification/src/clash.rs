//! Loading a puzzle that gives a digit twice in one unit.
use vstd::prelude::*;
use crate::board::{
    col_unit, digit_at, in_unit, is_valid_grid, lemma_cell_slot, lemma_peers_differ,
    lemma_slot_cell, row_unit, slot_of, square_unit, unit_col, unit_row,
};
use crate::counts::{holders, lemma_holder_counts, lemma_holder_witness};
use crate::pattern::lemma_valid_grid_with;
use crate::error::SolveError;
use crate::puzzle::{given_digit, is_given, BLANK};
use crate::singles::{
    are_peers, filled_before, is_chain, is_derivable, is_hidden_single, is_last_place,
    is_naked_single, seen_before,
};
use crate::state::Solver;
use crate::tally::bit;

verus! {

/// A number in `0..3` other than `x % 3`, or where `second` is set, the
/// other one.
pub open spec fn other_third(x: int, second: bool) -> int {
    if x % 3 == 0 {
        if second {
            2
        } else {
            1
        }
    } else if x % 3 == 1 {
        if second {
            0
        } else {
            2
        }
    } else {
        if second {
            1
        } else {
            0
        }
    }
}

/// A row that does not contain a cell has, beside any one cell, a cell that
/// is no peer of it.
proof fn lemma_stranger_in_row(g: int, ar: int, ac: int, yc: int) -> (k: int)
    requires
        0 <= g < 9,
        0 <= ar < 9,
        0 <= ac < 9,
        g != ar,
    ensures
        0 <= k < 9,
        k != yc,
        k != ac,
        !are_peers(ar, ac, g, k),
{
    let j = 3 * other_third(ac / 3, false);
    assert(j / 3 != ac / 3 && (j + 1) / 3 != ac / 3);
    if yc == j {
        j + 1
    } else {
        j
    }
}

/// A column that does not contain a cell has, beside any one cell, a cell
/// that is no peer of it.
proof fn lemma_stranger_in_column(c: int, ar: int, ac: int, yr: int) -> (k: int)
    requires
        0 <= c < 9,
        0 <= ar < 9,
        0 <= ac < 9,
        c != ac,
    ensures
        0 <= k < 9,
        k != yr,
        k != ar,
        !are_peers(ar, ac, k, c),
{
    let i = 3 * other_third(ar / 3, false);
    assert(i / 3 != ar / 3 && (i + 1) / 3 != ar / 3);
    if yr == i {
        i + 1
    } else {
        i
    }
}

/// A square that does not contain a cell has, beside any one cell, a cell
/// that is no peer of it.
proof fn lemma_stranger_in_square(q: int, ar: int, ac: int, yr: int) -> (k: int)
    requires
        0 <= q < 9,
        0 <= ar < 9,
        0 <= ac < 9,
        q != 3 * (ar / 3) + ac / 3,
    ensures
        0 <= k < 9,
        3 * (q / 3) + k / 3 != yr,
        3 * (q / 3) + k / 3 != ar,
        3 * (q % 3) + k % 3 != ac,
        !are_peers(ar, ac, 3 * (q / 3) + k / 3, 3 * (q % 3) + k % 3),
{
    let j = other_third(ac, false);
    let first = 3 * other_third(ar, false) + j;
    let second = 3 * other_third(ar, true) + j;
    assert(first / 3 == other_third(ar, false) && first % 3 == j);
    assert(second / 3 == other_third(ar, true) && second % 3 == j);
    let k = if 3 * (q / 3) + first / 3 == yr {
        second
    } else {
        first
    };
    let r = 3 * (q / 3) + k / 3;
    let c = 3 * (q % 3) + k % 3;
    assert(r % 3 == k / 3 && c % 3 == k % 3);
    assert(r / 3 == q / 3 && c / 3 == q % 3);
    k
}

/// A unit that does not contain a cell has, beside any one cell, a cell that
/// is no peer of it.
proof fn lemma_stranger(g: int, ar: int, ac: int, yr: int, yc: int) -> (k: int)
    requires
        0 <= g < 27,
        0 <= ar < 9,
        0 <= ac < 9,
        0 <= yr < 9,
        0 <= yc < 9,
        !in_unit(g, ar, ac),
    ensures
        0 <= k < 9,
        unit_row(g, k) != yr || unit_col(g, k) != yc,
        unit_row(g, k) != ar || unit_col(g, k) != ac,
        !are_peers(ar, ac, unit_row(g, k), unit_col(g, k)),
{
    if g < 9 {
        lemma_stranger_in_row(g, ar, ac, yc)
    } else if g < 18 {
        lemma_stranger_in_column(g - 9, ar, ac, yr)
    } else {
        lemma_stranger_in_square(g - 18, ar, ac, yr)
    }
}

/// A naked single of cells that are all one cell can only be that cell.
proof fn lemma_lone_naked(s: Seq<u8>, order: Seq<int>, a: int, i: int)
    requires
        0 <= i < order.len(),
        forall|j: int| 0 <= j < i ==> #[trigger] order[j] == a,
        is_naked_single(s, order, i),
    ensures
        order[i] == a,
{
    let x = order[i];
    let d = s[x] as int;
    let e1 = if d == 1 {
        2int
    } else {
        1int
    };
    let e2 = if d == 3 {
        4int
    } else {
        3int
    };
    assert(seen_before(s, order, i, x / 9, x % 9, e1));
    let j1 = choose|j: int|
        0 <= j < i && #[trigger] s[order[j]] == e1 && are_peers(
            order[j] / 9,
            order[j] % 9,
            x / 9,
            x % 9,
        );
    assert(order[j1] == a);
    assert(seen_before(s, order, i, x / 9, x % 9, e2));
    let j2 = choose|j: int|
        0 <= j < i && #[trigger] s[order[j]] == e2 && are_peers(
            order[j] / 9,
            order[j] % 9,
            x / 9,
            x % 9,
        );
    assert(order[j2] == a);
}

/// A hidden single, in a valid grid, of cells that are all one cell can only
/// be that cell.
proof fn lemma_lone_hidden(s: Seq<u8>, order: Seq<int>, a: int, i: int)
    requires
        is_valid_grid(s),
        0 <= a < 81,
        0 <= i < order.len(),
        0 <= order[i] < 81,
        forall|j: int| 0 <= j < i ==> #[trigger] order[j] == a,
        is_hidden_single(s, order, i),
    ensures
        order[i] == a,
{
    let x = order[i];
    let r = x / 9;
    let c = x % 9;
    let ar = a / 9;
    let ac = a % 9;
    let g = choose|g: int|
        0 <= g < 27 && in_unit(g, order[i] / 9, order[i] % 9) && #[trigger] is_last_place(
            s,
            order,
            i,
            g,
        );
    if x == a {
    } else if in_unit(g, ar, ac) {
        lemma_cell_slot(g, ar, ac);
        lemma_cell_slot(g, r, c);
        let ka = slot_of(g, ar, ac);
        let ky = slot_of(g, r, c);
        let k = if ka != 0 && ky != 0 {
            0int
        } else if ka != 1 && ky != 1 {
            1int
        } else {
            2int
        };
        lemma_slot_cell(g, k);
        lemma_other_cell(s, order, a, i, g, k);
        lemma_peers_differ(s, g, ar, ac, r, c);
    } else {
        let k = lemma_stranger(g, ar, ac, r, c);
        lemma_slot_cell(g, k);
        lemma_other_cell(s, order, a, i, g, k);
    }
}

/// A chain of singles from a single cell of a valid grid never leaves the
/// cell: one filled cell forces no other.
proof fn lemma_lone_chain(s: Seq<u8>, order: Seq<int>, a: int, n: int)
    requires
        is_valid_grid(s),
        0 <= a < 81,
        is_chain(s, order, Set::<int>::empty().insert(a)),
        0 <= n <= order.len(),
    ensures
        forall|i: int| 0 <= i < n ==> #[trigger] order[i] == a,
    decreases n,
{
    if n > 0 {
        lemma_lone_chain(s, order, a, n - 1);
        let i = n - 1;
        if order[i] != a {
            assert(!Set::<int>::empty().insert(a).contains(order[i]));
            if is_naked_single(s, order, i) {
                lemma_lone_naked(s, order, a, i);
            } else {
                lemma_lone_hidden(s, order, a, i);
            }
        }
    }
}

/// Where all cells before a hidden single in a chain are one cell, that cell
/// has the digit of the single and is a peer of every other cell of the
/// unit.
proof fn lemma_other_cell(s: Seq<u8>, order: Seq<int>, a: int, i: int, g: int, k: int)
    requires
        0 <= a < 81,
        0 <= i < order.len(),
        0 <= order[i] < 81,
        forall|j: int| 0 <= j < i ==> #[trigger] order[j] == a,
        0 <= g < 27,
        0 <= k < 9,
        is_last_place(s, order, i, g),
        9 * unit_row(g, k) + unit_col(g, k) != order[i],
        9 * unit_row(g, k) + unit_col(g, k) != a,
    ensures
        s[a] == s[order[i]],
        are_peers(a / 9, a % 9, unit_row(g, k), unit_col(g, k)),
{
    let zr = unit_row(g, k);
    let zc = unit_col(g, k);
    let d = s[order[i]] as int;
    assert(filled_before(order, i, zr, zc) || seen_before(s, order, i, zr, zc, d));
    if filled_before(order, i, zr, zc) {
        let j = choose|j: int| 0 <= j < i && #[trigger] order[j] == 9 * zr + zc;
        assert(order[j] == a);
    } else {
        let j = choose|j: int|
            0 <= j < i && #[trigger] s[order[j]] == d && are_peers(
                order[j] / 9,
                order[j] % 9,
                zr,
                zc,
            );
        assert(order[j] == a);
    }
}

/// While a puzzle gives no digit, loading leaves the state as it is.
pub(crate) proof fn lemma_trail_rests(
    puzzle: Seq<char>,
    n: int,
    trail: Seq<Solver>,
    lo: int,
    hi: int,
)
    requires
        Solver::is_loading(puzzle, n, trail),
        0 <= lo <= hi <= n,
        forall|i: int| lo <= i < hi ==> !is_given(#[trigger] puzzle[i]),
    ensures
        trail[hi] == trail[lo],
    decreases hi - lo,
{
    if lo < hi {
        lemma_trail_rests(puzzle, n, trail, lo, hi - 1);
        assert(trail[hi].is_next_loaded(&trail[hi - 1], puzzle, hi - 1));
        assert(!is_given(puzzle[hi - 1]));
    }
}

/// The fill of one cell of the empty grid fills no other cell.
pub(crate) proof fn lemma_one_given(blank: Solver, next: Solver, r: int, c: int, v: int)
    requires
        blank.is_blank(),
        next.is_filled_from(&blank, r, c, v),
        0 <= r < 9,
        0 <= c < 9,
        1 <= v <= 9,
    ensures
        next.wf(),
        next.cell(r, c).holds(v),
        forall|i: int, j: int|
            0 <= i < 9 && 0 <= j < 9 && (i != r || j != c) ==> (#[trigger] next.cell(i, j)).is_open(),
{
    reveal(Solver::is_filled_from);
    reveal(Solver::is_closure_of);
    let a = 9 * r + c;
    let s = lemma_valid_grid_with(r, c, v);
    assert(blank.admits(s)) by {
        assert forall|i: int, j: int| 0 <= i < 9 && 0 <= j < 9 implies (
        #[trigger] blank.cells[i][j]).admits(digit_at(s, i, j)) by {
            assert(1 <= s[9 * i + j] <= 9);
            assert(blank.cell(i, j).lists(digit_at(s, i, j)));
        }
    }
    assert(next.admits(s));
    let free = blank.filled().insert(a);
    assert(free =~= Set::<int>::empty().insert(a)) by {
        assert forall|x: int| !blank.filled().contains(x) by {
            if 0 <= x < 81 {
                assert(blank.cell(x / 9, x % 9).lists(1));
            }
        }
    }
    assert forall|i: int, j: int| 0 <= i < 9 && 0 <= j < 9 && (i != r || j != c) implies (
    #[trigger] next.cell(i, j)).is_open() by {
        let x = 9 * i + j;
        assert(x / 9 == i && x % 9 == j);
        if !next.cell(i, j).is_open() {
            assert(next.admits(s) && next.filled().contains(x));
            assert(is_derivable(s, free, x));
            let (order, k) = choose|order: Seq<int>, k: int|
                is_chain(s, order, free) && 0 <= k < order.len() && #[trigger] order[k] == x;
            lemma_lone_chain(s, order, a, order.len() as int);
        }
    }
}

/// In a grid with a single filled cell, the digit of the cell is placed in
/// the units of the cell and in no others.
pub(crate) proof fn lemma_only_holder(grid: Solver, r: int, c: int, v: int, g: int)
    requires
        grid.wf(),
        0 <= r < 9,
        0 <= c < 9,
        1 <= v <= 9,
        0 <= g < 27,
        grid.cell(r, c).holds(v),
        forall|i: int, j: int|
            0 <= i < 9 && 0 <= j < 9 && (i != r || j != c) ==> (#[trigger] grid.cell(i, j)).is_open(),
    ensures
        grid.placed(g, v) <==> in_unit(g, r, c),
{
    assert(holders(grid.cells, g, v) == bit(grid.placed(g, v)));
    if in_unit(g, r, c) {
        lemma_holder_counts(grid.cells, g, r, c, v);
    }
    if grid.placed(g, v) {
        let k = lemma_holder_witness(grid.cells, g, v);
        lemma_slot_cell(g, k);
        assert(!grid.cell(unit_row(g, k), unit_col(g, k)).is_open());
    }
}

/// Whether `puzzle` gives one digit for the two cells `a` and `b`, and
/// nothing else.
pub open spec fn gives_twice(puzzle: Seq<char>, a: int, b: int) -> bool {
    &&& puzzle.len() == 81
    &&& 0 <= a < b < 81
    &&& is_given(puzzle[a])
    &&& puzzle[b] == puzzle[a]
    &&& forall|i: int| 0 <= i < 81 && i != a && i != b ==> #[trigger] puzzle[i] == BLANK
}

/// The conflict of the first unit (row, column, square) that two cells
/// share.
pub open spec fn shared_conflict(a: int, b: int) -> SolveError {
    if a / 9 == b / 9 {
        SolveError::RowConflict
    } else if a % 9 == b % 9 {
        SolveError::ColumnConflict
    } else {
        SolveError::SquareConflict
    }
}

/// The empty grid is compatible with every valid grid.
pub(crate) proof fn lemma_blank_admits(blank: Solver, s: Seq<u8>)
    requires
        blank.is_blank(),
        is_valid_grid(s),
    ensures
        blank.admits(s),
{
    assert forall|i: int, j: int|
        0 <= i < 9 && 0 <= j < 9 implies (#[trigger] blank.cells[i][j]).admits(
        digit_at(s, i, j),
    ) by {
        assert(1 <= s[9 * i + j] <= 9);
        assert(blank.cell(i, j).lists(digit_at(s, i, j)));
    }
}

/// Loading a puzzle that gives a digit twice leaves, before the first of
/// the two cells, the empty grid, and before the second, the grid with the
/// first cell filled and no other.
pub(crate) proof fn lemma_trail_of_two(
    puzzle: Seq<char>,
    a: int,
    b: int,
    n: int,
    trail: Seq<Solver>,
)
    requires
        gives_twice(puzzle, a, b),
        Solver::is_loading(puzzle, n, trail),
        n <= 81,
    ensures
        a <= n ==> trail[a].is_blank(),
        b <= n ==> {
            &&& trail[b].wf()
            &&& trail[b].cell(a / 9, a % 9).holds(given_digit(puzzle[a]))
            &&& forall|i: int, j: int|
                0 <= i < 9 && 0 <= j < 9 && (i != a / 9 || j != a % 9) ==> (#[trigger] trail[b].cell(
                    i,
                    j,
                )).is_open()
        },
{
    if a <= n {
        assert forall|i: int| 0 <= i < a implies !is_given(#[trigger] puzzle[i]) by {
            assert(puzzle[i] == BLANK);
        }
        lemma_trail_rests(puzzle, n, trail, 0, a);
    }
    if b <= n {
        assert(trail[a + 1].is_next_loaded(&trail[a], puzzle, a + 1 - 1));
        lemma_one_given(trail[a], trail[a + 1], a / 9, a % 9, given_digit(puzzle[a]));
        assert forall|i: int| a + 1 <= i < b implies !is_given(#[trigger] puzzle[i]) by {
            assert(puzzle[i] == BLANK);
        }
        lemma_trail_rests(puzzle, n, trail, a + 1, b);
    }
}

/// In the grid with one cell filled, a second fill of the cell's digit in a
/// peer of the cell meets the conflict of the first unit that the two share.
pub(crate) proof fn lemma_second_conflict(grid: Solver, a: int, b: int, v: int)
    requires
        0 <= a < 81,
        0 <= b < 81,
        1 <= v <= 9,
        are_peers(a / 9, a % 9, b / 9, b % 9),
        grid.wf(),
        grid.cell(a / 9, a % 9).holds(v),
        forall|i: int, j: int|
            0 <= i < 9 && 0 <= j < 9 && (i != a / 9 || j != a % 9) ==> (#[trigger] grid.cell(
                i,
                j,
            )).is_open(),
    ensures
        grid.cell(b / 9, b % 9).is_open(),
        grid.conflict(b / 9, b % 9, v) == Some(shared_conflict(a, b)),
{
    lemma_only_holder(grid, a / 9, a % 9, v, row_unit(b / 9));
    lemma_only_holder(grid, a / 9, a % 9, v, col_unit(b % 9));
    lemma_only_holder(grid, a / 9, a % 9, v, square_unit(b / 9, b % 9));
    assert(grid.cell(b / 9, b % 9).is_open());
}

} // verus!
