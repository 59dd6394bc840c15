//! Chains of singles: how they combine.
use vstd::prelude::*;
use crate::board::{
    col_unit, digit_at, in_unit, is_valid_grid, lemma_digit_has_slot, lemma_peers_differ,
    lemma_slot_cell, row_unit, square_unit, unit_col, unit_row,
};
use crate::singles::{
    are_peers, filled_before, is_branch, is_chain, is_derivable, is_hidden_single,
    is_last_place, is_naked_single, is_shown, options, seen_before, stands_before,
};

verus! {

/// Whether the first `n` cells of `order` are the first `n` cells of `longer`
/// and have in `t` the digits that they have in `s`.
pub open spec fn same_start(
    s: Seq<u8>,
    order: Seq<int>,
    t: Seq<u8>,
    longer: Seq<int>,
    n: int,
) -> bool {
    &&& n <= order.len() <= longer.len()
    &&& forall|j: int| 0 <= j < n ==> #[trigger] longer[j] == order[j]
    &&& forall|j: int| 0 <= j < n ==> #[trigger] t[order[j]] == s[order[j]]
}

/// A cell that the cells before it show a digit is shown it in every order
/// that starts with those cells.
pub(crate) proof fn lemma_seen_kept(
    s: Seq<u8>,
    order: Seq<int>,
    t: Seq<u8>,
    longer: Seq<int>,
    i: int,
    r: int,
    c: int,
    e: int,
)
    requires
        same_start(s, order, t, longer, i),
        seen_before(s, order, i, r, c, e),
    ensures
        seen_before(t, longer, i, r, c, e),
{
    let j = choose|j: int|
        0 <= j < i && #[trigger] s[order[j]] == e && are_peers(order[j] / 9, order[j] % 9, r, c);
    assert(longer[j] == order[j]);
    assert(t[order[j]] == s[order[j]]);
    assert(t[longer[j]] == e);
}

/// A cell that stands before a position stands before it in every order
/// that starts with the same cells.
pub(crate) proof fn lemma_filled_kept(order: Seq<int>, longer: Seq<int>, i: int, r: int, c: int)
    requires
        i <= order.len() <= longer.len(),
        forall|j: int| 0 <= j < i ==> #[trigger] longer[j] == order[j],
        filled_before(order, i, r, c),
    ensures
        filled_before(longer, i, r, c),
{
    let j = choose|j: int| 0 <= j < i && #[trigger] order[j] == 9 * r + c;
    assert(longer[j] == order[j]);
}

/// A single stays a single in every order that starts with the same cells,
/// with the same digits.
#[verifier::rlimit(30)]
pub(crate) proof fn lemma_single_kept(
    s: Seq<u8>,
    order: Seq<int>,
    t: Seq<u8>,
    longer: Seq<int>,
    i: int,
)
    requires
        0 <= i < order.len(),
        same_start(s, order, t, longer, i + 1),
    ensures
        is_naked_single(s, order, i) ==> is_naked_single(t, longer, i),
        is_hidden_single(s, order, i) ==> is_hidden_single(t, longer, i),
{
    assert(longer[i] == order[i]);
    assert(t[order[i]] == s[order[i]]);
    if is_naked_single(s, order, i) {
        assert forall|e: int| 1 <= e <= 9 && e != t[longer[i]] implies #[trigger] seen_before(
            t,
            longer,
            i,
            longer[i] / 9,
            longer[i] % 9,
            e,
        ) by {
            assert(seen_before(s, order, i, order[i] / 9, order[i] % 9, e));
            lemma_seen_kept(s, order, t, longer, i, order[i] / 9, order[i] % 9, e);
        }
    }
    if is_hidden_single(s, order, i) {
        let g = choose|g: int|
            0 <= g < 27 && in_unit(g, order[i] / 9, order[i] % 9) && #[trigger] is_last_place(
                s,
                order,
                i,
                g,
            );
        assert forall|k: int|
            0 <= k < 9 && 9 * unit_row(g, k) + unit_col(g, k) != longer[i] implies #[trigger] filled_before(
            longer,
            i,
            unit_row(g, k),
            unit_col(g, k),
        ) || seen_before(t, longer, i, unit_row(g, k), unit_col(g, k), t[longer[i]] as int) by {
            let zr = unit_row(g, k);
            let zc = unit_col(g, k);
            assert(filled_before(order, i, zr, zc) || seen_before(
                s,
                order,
                i,
                zr,
                zc,
                s[order[i]] as int,
            ));
            if filled_before(order, i, zr, zc) {
                lemma_filled_kept(order, longer, i, zr, zc);
            } else {
                lemma_seen_kept(s, order, t, longer, i, zr, zc, s[order[i]] as int);
            }
        }
        assert(is_last_place(t, longer, i, g));
    }
}

/// A single of the cells before it in one order is a single in every order
/// in which all of those cells stand before it.
#[verifier::rlimit(30)]
pub(crate) proof fn lemma_single_embedded(
    s: Seq<u8>,
    b: Seq<int>,
    i: int,
    c: Seq<int>,
    m: int,
)
    requires
        0 <= i < b.len(),
        0 <= m < c.len(),
        c[m] == b[i],
        forall|j: int| 0 <= j < i ==> stands_before(c, m, #[trigger] b[j]),
    ensures
        is_naked_single(s, b, i) ==> is_naked_single(s, c, m),
        is_hidden_single(s, b, i) ==> is_hidden_single(s, c, m),
{
    if is_naked_single(s, b, i) {
        assert forall|e: int| 1 <= e <= 9 && e != s[c[m]] implies #[trigger] seen_before(
            s,
            c,
            m,
            c[m] / 9,
            c[m] % 9,
            e,
        ) by {
            assert(seen_before(s, b, i, b[i] / 9, b[i] % 9, e));
            lemma_seen_embedded(s, b, i, c, m, b[i] / 9, b[i] % 9, e);
        }
    }
    if is_hidden_single(s, b, i) {
        let g = choose|g: int|
            0 <= g < 27 && in_unit(g, b[i] / 9, b[i] % 9) && #[trigger] is_last_place(s, b, i, g);
        assert forall|k: int|
            0 <= k < 9 && 9 * unit_row(g, k) + unit_col(g, k) != c[m] implies #[trigger] filled_before(
            c,
            m,
            unit_row(g, k),
            unit_col(g, k),
        ) || seen_before(s, c, m, unit_row(g, k), unit_col(g, k), s[c[m]] as int) by {
            let zr = unit_row(g, k);
            let zc = unit_col(g, k);
            assert(filled_before(b, i, zr, zc) || seen_before(s, b, i, zr, zc, s[b[i]] as int));
            if filled_before(b, i, zr, zc) {
                let j = choose|j: int| 0 <= j < i && #[trigger] b[j] == 9 * zr + zc;
                assert(stands_before(c, m, b[j]));
                let j2 = choose|j2: int| 0 <= j2 < m && #[trigger] c[j2] == b[j];
                assert(c[j2] == 9 * zr + zc);
            } else {
                lemma_seen_embedded(s, b, i, c, m, zr, zc, s[b[i]] as int);
            }
        }
        assert(is_last_place(s, c, m, g));
    }
}

/// A cell that is shown a digit by the cells before a position is shown it
/// in every order in which those cells stand before the position.
proof fn lemma_seen_embedded(
    s: Seq<u8>,
    b: Seq<int>,
    i: int,
    c: Seq<int>,
    m: int,
    r: int,
    col: int,
    e: int,
)
    requires
        0 <= i <= b.len(),
        0 <= m <= c.len(),
        forall|j: int| 0 <= j < i ==> stands_before(c, m, #[trigger] b[j]),
        seen_before(s, b, i, r, col, e),
    ensures
        seen_before(s, c, m, r, col, e),
{
    let j = choose|j: int|
        0 <= j < i && #[trigger] s[b[j]] == e && are_peers(b[j] / 9, b[j] % 9, r, col);
    assert(stands_before(c, m, b[j]));
    let j2 = choose|j2: int| 0 <= j2 < m && #[trigger] c[j2] == b[j];
    assert(s[c[j2]] == e);
}

/// A chain of singles followed by another is a chain of singles.
pub(crate) proof fn lemma_chain_append(s: Seq<u8>, a: Seq<int>, b: Seq<int>, free: Set<int>)
    requires
        is_chain(s, a, free),
        is_chain(s, b, free),
    ensures
        is_chain(s, a + b, free),
{
    let c = a + b;
    assert forall|i: int| 0 <= i < c.len() implies 0 <= #[trigger] c[i] < 81 && (free.contains(
        c[i],
    ) || is_naked_single(s, c, i) || is_hidden_single(s, c, i)) by {
        if i < a.len() {
            assert(c[i] == a[i]);
            assert forall|j: int| 0 <= j < i implies stands_before(c, i, #[trigger] a[j]) by {
                assert(c[j] == a[j]);
            }
            lemma_single_embedded(s, a, i, c, i);
        } else {
            let k = i - a.len();
            assert(c[i] == b[k]);
            assert forall|j: int| 0 <= j < k implies stands_before(c, i, #[trigger] b[j]) by {
                assert(c[a.len() + j] == b[j]);
            }
            lemma_single_embedded(s, b, k, c, i);
        }
    }
}

/// A chain of singles from some cells is a chain of singles from more cells.
pub(crate) proof fn lemma_chain_more(s: Seq<u8>, order: Seq<int>, fewer: Set<int>, more: Set<int>)
    requires
        forall|y: int| #[trigger] fewer.contains(y) ==> more.contains(y),
        is_chain(s, order, fewer),
    ensures
        is_chain(s, order, more),
{
}

/// Rebuilds the first `n` cells of a chain of singles from the cells in
/// `closed` and `extra` as a chain from the cells in `base` and `extra`,
/// where singles derive every cell in `closed` from those in `base`.
#[verifier::rlimit(30)]
proof fn lemma_rebuild(
    s: Seq<u8>,
    b: Seq<int>,
    closed: Set<int>,
    base: Set<int>,
    extra: Set<int>,
    n: int,
) -> (c: Seq<int>)
    requires
        is_chain(s, b, closed.union(extra)),
        forall|y: int| #[trigger] closed.contains(y) ==> is_derivable(s, base, y),
        0 <= n <= b.len(),
    ensures
        is_chain(s, c, base.union(extra)),
        forall|j: int| 0 <= j < n ==> stands_before(c, c.len() as int, #[trigger] b[j]),
    decreases n,
{
    let free = base.union(extra);
    if n == 0 {
        Seq::<int>::empty()
    } else {
        let c0 = lemma_rebuild(s, b, closed, base, extra, n - 1);
        let x = b[n - 1];
        if closed.contains(x) && !extra.contains(x) {
            let (d, i) = choose|d: Seq<int>, i: int|
                is_chain(s, d, base) && 0 <= i < d.len() && #[trigger] d[i] == x;
            lemma_chain_more(s, d, base, free);
            lemma_chain_append(s, c0, d, free);
            let c = c0 + d;
            assert forall|j: int| 0 <= j < n implies stands_before(
                c,
                c.len() as int,
                #[trigger] b[j],
            ) by {
                if j < n - 1 {
                    let j2 = choose|j2: int| 0 <= j2 < c0.len() && #[trigger] c0[j2] == b[j];
                    assert(c[j2] == b[j]);
                } else {
                    assert(c[c0.len() + i] == x);
                }
            }
            c
        } else {
            let c = c0.push(x);
            let m = c0.len() as int;
            assert(c[m] == x);
            assert forall|j: int| 0 <= j < n implies stands_before(
                c,
                c.len() as int,
                #[trigger] b[j],
            ) by {
                if j < n - 1 {
                    let j2 = choose|j2: int| 0 <= j2 < c0.len() && #[trigger] c0[j2] == b[j];
                    assert(c[j2] == b[j]);
                } else {
                    assert(c[m] == b[j]);
                }
            }
            assert forall|i: int| 0 <= i < c.len() implies 0 <= #[trigger] c[i] < 81 && (
            free.contains(c[i]) || is_naked_single(s, c, i) || is_hidden_single(s, c, i)) by {
                if i < m {
                    assert(c[i] == c0[i]);
                    assert forall|j: int|
                        0 <= j < i implies stands_before(c, i, #[trigger] c0[j]) by {
                        assert(c[j] == c0[j]);
                    }
                    lemma_single_embedded(s, c0, i, c, i);
                } else {
                    if !extra.contains(x) {
                        assert(!closed.union(extra).contains(x));
                        assert forall|j: int| 0 <= j < n - 1 implies stands_before(
                            c,
                            m,
                            #[trigger] b[j],
                        ) by {
                            let j2 = choose|j2: int|
                                0 <= j2 < c0.len() && #[trigger] c0[j2] == b[j];
                            assert(c[j2] == b[j]);
                        }
                        lemma_single_embedded(s, b, n - 1, c, m);
                    }
                }
            }
            c
        }
    }
}

/// What singles derive from cells that they derive from others, they derive
/// from those others.
pub(crate) proof fn lemma_cut(
    s: Seq<u8>,
    closed: Set<int>,
    base: Set<int>,
    extra: Set<int>,
    z: int,
)
    requires
        forall|y: int| #[trigger] closed.contains(y) ==> is_derivable(s, base, y),
        is_derivable(s, closed.union(extra), z),
    ensures
        is_derivable(s, base.union(extra), z),
{
    let (b, i) = choose|b: Seq<int>, i: int|
        is_chain(s, b, closed.union(extra)) && 0 <= i < b.len() && #[trigger] b[i] == z;
    let c = lemma_rebuild(s, b, closed, base, extra, i + 1);
    assert(stands_before(c, c.len() as int, b[i]));
    let j = choose|j: int| 0 <= j < c.len() && #[trigger] c[j] == b[i];
    assert(c[j] == z);
}

/// Cells from which singles derive the same cells leave every cell the same
/// options.
pub(crate) proof fn lemma_same_options(s: Seq<u8>, one: Set<int>, other: Set<int>, y: int)
    requires
        forall|z: int| #[trigger] is_derivable(s, one, z) <==> is_derivable(s, other, z),
    ensures
        options(s, one, y) == options(s, other, y),
{
    assert forall|d: int| is_shown(s, one, y, d) <==> is_shown(s, other, y, d) by {
        if is_shown(s, one, y, d) {
            let z = choose|z: int|
                0 <= z < 81 && are_peers(z / 9, z % 9, y / 9, y % 9) && #[trigger] is_derivable(
                    s,
                    one,
                    z,
                ) && s[z] == d;
            assert(is_derivable(s, other, z));
        }
        if is_shown(s, other, y, d) {
            let z = choose|z: int|
                0 <= z < 81 && are_peers(z / 9, z % 9, y / 9, y % 9) && #[trigger] is_derivable(
                    s,
                    other,
                    z,
                ) && s[z] == d;
            assert(is_derivable(s, one, z));
        }
    }
}

/// The unit that two peers share.
pub open spec fn shared_unit(r1: int, c1: int, r2: int, c2: int) -> int {
    if r1 == r2 {
        row_unit(r1)
    } else if c1 == c2 {
        col_unit(c1)
    } else {
        square_unit(r1, c1)
    }
}

/// In a valid grid a cell does not have a digit that a peer has.
pub(crate) proof fn lemma_peer_digit(t: Seq<u8>, pr: int, pc: int, r: int, c: int)
    requires
        is_valid_grid(t),
        0 <= pr < 9,
        0 <= pc < 9,
        0 <= r < 9,
        0 <= c < 9,
        are_peers(pr, pc, r, c),
    ensures
        digit_at(t, pr, pc) != digit_at(t, r, c),
{
    lemma_peers_differ(t, shared_unit(pr, pc, r, c), pr, pc, r, c);
}

/// Singles are forced: two valid grids that have the same digits in the
/// cells of `free` have the same digits along a chain of singles from them.
#[verifier::rlimit(30)]
pub(crate) proof fn lemma_chain_sound(
    s: Seq<u8>,
    t: Seq<u8>,
    order: Seq<int>,
    free: Set<int>,
    n: int,
)
    requires
        is_valid_grid(s),
        is_valid_grid(t),
        is_chain(s, order, free),
        forall|y: int| 0 <= y < 81 && #[trigger] free.contains(y) ==> t[y] == s[y],
        0 <= n <= order.len(),
    ensures
        forall|i: int| 0 <= i < n ==> t[#[trigger] order[i]] == s[order[i]],
    decreases n,
{
    if n > 0 {
        lemma_chain_sound(s, t, order, free, n - 1);
        let i = n - 1;
        let x = order[i];
        let r = x / 9;
        let c = x % 9;
        let d = s[x] as int;
        assert(0 <= x < 81);
        assert(9 * r + c == x);
        assert(1 <= s[x] <= 9 && 1 <= t[x] <= 9);
        if free.contains(x) {
        } else if is_naked_single(s, order, i) {
            if t[x] != d {
                let e = t[x] as int;
                assert(seen_before(s, order, i, r, c, e));
                let j = choose|j: int|
                    0 <= j < i && #[trigger] s[order[j]] == e && are_peers(
                        order[j] / 9,
                        order[j] % 9,
                        r,
                        c,
                    );
                let p = order[j];
                assert(0 <= p < 81 && 9 * (p / 9) + p % 9 == p);
                assert(t[p] == s[p]);
                lemma_peer_digit(t, p / 9, p % 9, r, c);
            }
        } else {
            assert(is_hidden_single(s, order, i));
            let g = choose|g: int|
                0 <= g < 27 && in_unit(g, order[i] / 9, order[i] % 9) && #[trigger] is_last_place(
                    s,
                    order,
                    i,
                    g,
                );
            let k = lemma_digit_has_slot(t, g, d);
            lemma_slot_cell(g, k);
            let zr = unit_row(g, k);
            let zc = unit_col(g, k);
            if 9 * zr + zc != x {
                assert(filled_before(order, i, zr, zc) || seen_before(s, order, i, zr, zc, d));
                if filled_before(order, i, zr, zc) {
                    let j = choose|j: int| 0 <= j < i && #[trigger] order[j] == 9 * zr + zc;
                    assert(t[order[j]] == s[order[j]]);
                    lemma_peers_differ(s, g, zr, zc, r, c);
                } else {
                    let j = choose|j: int|
                        0 <= j < i && #[trigger] s[order[j]] == d && are_peers(
                            order[j] / 9,
                            order[j] % 9,
                            zr,
                            zc,
                        );
                    let p = order[j];
                    assert(0 <= p < 81 && 9 * (p / 9) + p % 9 == p);
                    assert(t[p] == s[p]);
                    lemma_peer_digit(t, p / 9, p % 9, zr, zc);
                }
            }
        }
    }
}

/// What singles derive in one valid grid, they derive in every valid grid
/// that has the same digits in the free cells, with the same digit.
pub(crate) proof fn lemma_derivable_sound(s: Seq<u8>, t: Seq<u8>, free: Set<int>, z: int)
    requires
        is_valid_grid(s),
        is_valid_grid(t),
        forall|y: int| 0 <= y < 81 && #[trigger] free.contains(y) ==> t[y] == s[y],
        is_derivable(s, free, z),
    ensures
        is_derivable(t, free, z),
        t[z] == s[z],
{
    let (order, i) = choose|order: Seq<int>, i: int|
        is_chain(s, order, free) && 0 <= i < order.len() && #[trigger] order[i] == z;
    lemma_chain_sound(s, t, order, free, order.len() as int);
    assert forall|k: int| 0 <= k < order.len() implies free.contains(#[trigger] order[k])
        || is_naked_single(t, order, k) || is_hidden_single(t, order, k) by {
        lemma_single_kept(s, order, t, order, k);
    }
    assert(is_chain(t, order, free));
}

/// Valid grids that have the same digits in the free cells leave every cell
/// the same options, and have the same cell to guess at.
pub(crate) proof fn lemma_branch_sound(s: Seq<u8>, t: Seq<u8>, free: Set<int>, x: int)
    requires
        is_valid_grid(s),
        is_valid_grid(t),
        forall|y: int| 0 <= y < 81 && #[trigger] free.contains(y) ==> t[y] == s[y],
        is_branch(s, free, x),
    ensures
        is_branch(t, free, x),
{
    reveal(is_branch);
    if is_derivable(t, free, x) {
        lemma_derivable_sound(t, s, free, x);
    }
    lemma_options_sound(s, t, free, x);
    assert forall|y: int| 0 <= y < 81 && !#[trigger] is_derivable(t, free, y) implies options(
        t,
        free,
        y,
    ) >= options(t, free, x) && (y < x ==> options(t, free, y) > options(t, free, x)) by {
        if is_derivable(s, free, y) {
            lemma_derivable_sound(s, t, free, y);
        }
        lemma_options_sound(s, t, free, y);
    }
}

/// Valid grids that have the same digits in the free cells leave a cell the
/// same options.
proof fn lemma_options_sound(s: Seq<u8>, t: Seq<u8>, free: Set<int>, y: int)
    requires
        is_valid_grid(s),
        is_valid_grid(t),
        forall|z: int| 0 <= z < 81 && #[trigger] free.contains(z) ==> t[z] == s[z],
    ensures
        options(s, free, y) == options(t, free, y),
{
    assert forall|d: int| is_shown(s, free, y, d) <==> is_shown(t, free, y, d) by {
        if is_shown(s, free, y, d) {
            let z = choose|z: int|
                0 <= z < 81 && are_peers(z / 9, z % 9, y / 9, y % 9) && #[trigger] is_derivable(
                    s,
                    free,
                    z,
                ) && s[z] == d;
            lemma_derivable_sound(s, t, free, z);
        }
        if is_shown(t, free, y, d) {
            let z = choose|z: int|
                0 <= z < 81 && are_peers(z / 9, z % 9, y / 9, y % 9) && #[trigger] is_derivable(
                    t,
                    free,
                    z,
                ) && t[z] == d;
            lemma_derivable_sound(t, s, free, z);
        }
    }
}

/// There is one cell to guess at.
pub(crate) proof fn lemma_branch_unique(s: Seq<u8>, free: Set<int>, x: int, y: int)
    requires
        is_branch(s, free, x),
        is_branch(s, free, y),
    ensures
        x == y,
{
    reveal(is_branch);
}

} // verus!
