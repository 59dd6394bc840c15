//! Counting over the nine slots of a unit.
use vstd::prelude::*;

verus! {

/// 1 for `true`, 0 for `false`.
pub open spec fn bit(b: bool) -> int {
    if b {
        1
    } else {
        0
    }
}

/// The number of slots `k` in `0..9` for which `f(k)` holds.
pub open spec fn tally(f: spec_fn(int) -> bool) -> int {
    bit(f(0)) + bit(f(1)) + bit(f(2)) + bit(f(3)) + bit(f(4)) + bit(f(5)) + bit(f(6)) + bit(f(7))
        + bit(f(8))
}

/// A tally lies between 0 and 9.
pub(crate) proof fn lemma_tally_bounds(f: spec_fn(int) -> bool)
    ensures
        0 <= tally(f) <= 9,
{
}

/// Predicates that agree on every slot have the same tally.
pub(crate) proof fn lemma_tally_same(f: spec_fn(int) -> bool, h: spec_fn(int) -> bool)
    requires
        forall|k: int| 0 <= k < 9 ==> #[trigger] f(k) == h(k),
    ensures
        tally(h) == tally(f),
{
}

/// Predicates that agree on every slot but `k0` differ in their tallies by
/// what slot `k0` contributes.
pub(crate) proof fn lemma_tally_change(f: spec_fn(int) -> bool, h: spec_fn(int) -> bool, k0: int)
    requires
        0 <= k0 < 9,
        forall|k: int| 0 <= k < 9 && k != k0 ==> #[trigger] f(k) == h(k),
    ensures
        tally(h) == tally(f) - bit(f(k0)) + bit(h(k0)),
{
    if k0 == 0 {
    } else if k0 == 1 {
    } else if k0 == 2 {
    } else if k0 == 3 {
    } else if k0 == 4 {
    } else if k0 == 5 {
    } else if k0 == 6 {
    } else if k0 == 7 {
    } else {
    }
}

/// Where a predicate implies another slot by slot, its tally is no larger.
pub(crate) proof fn lemma_tally_monotone(f: spec_fn(int) -> bool, h: spec_fn(int) -> bool)
    requires
        forall|k: int| 0 <= k < 9 && #[trigger] f(k) ==> h(k),
    ensures
        tally(f) <= tally(h),
{
}

/// A slot that satisfies the predicate counts.
pub(crate) proof fn lemma_tally_counts(f: spec_fn(int) -> bool, k: int)
    requires
        0 <= k < 9,
        f(k),
    ensures
        tally(f) >= 1,
{
    let h = |i: int| i != k && f(i);
    lemma_tally_change(h, f, k);
    lemma_tally_bounds(h);
}

/// Two different slots that satisfy the predicate count twice.
pub(crate) proof fn lemma_tally_two(f: spec_fn(int) -> bool, j: int, k: int)
    requires
        0 <= j < 9,
        0 <= k < 9,
        j != k,
        f(j),
        f(k),
    ensures
        tally(f) >= 2,
{
    let h = |i: int| i != j && f(i);
    lemma_tally_change(h, f, j);
    lemma_tally_counts(h, k);
}

/// A positive tally has a slot that satisfies the predicate.
pub(crate) proof fn lemma_tally_witness(f: spec_fn(int) -> bool) -> (k: int)
    requires
        tally(f) >= 1,
    ensures
        0 <= k < 9,
        f(k),
{
    if f(0) {
        0
    } else if f(1) {
        1
    } else if f(2) {
        2
    } else if f(3) {
        3
    } else if f(4) {
        4
    } else if f(5) {
        5
    } else if f(6) {
        6
    } else if f(7) {
        7
    } else {
        8
    }
}

} // verus!
