//! A single cell of the grid: a placed digit, or the digits still possible.
use vstd::prelude::*;

verus! {

/// The digits that are still possible for a cell: entry `d - 1` tells
/// whether digit `d` is a candidate.
///
/// A table rather than a hash set: the search copies the grid for every
/// branch, and has to know that the copy is equal.  A table is copied as
/// plain data; of the copy of a hash set nothing is known to the verifier.
pub type Candidates = [bool; 9];

/// State of one cell.
#[derive(Clone, Copy, Debug)]
pub enum Cell {
    /// The cell holds this digit, in `1..=9`.
    Value(u8),
    /// The cell is unfilled and may still take any of these digits.
    Candidates(Candidates),
}

/// Whether digit `d` is a candidate in `cs`.
pub open spec fn has_candidate(cs: Candidates, d: int) -> bool {
    1 <= d <= 9 && cs[d - 1]
}

/// 1 where digit `d` is a candidate, else 0.
pub open spec fn candidate_bit(cs: Candidates, d: int) -> int {
    if has_candidate(cs, d) {
        1
    } else {
        0
    }
}

/// The number of candidates in `cs`.
pub open spec fn candidate_count(cs: Candidates) -> int {
    candidate_bit(cs, 1) + candidate_bit(cs, 2) + candidate_bit(cs, 3) + candidate_bit(cs, 4)
        + candidate_bit(cs, 5) + candidate_bit(cs, 6) + candidate_bit(cs, 7) + candidate_bit(cs, 8)
        + candidate_bit(cs, 9)
}

/// The number of candidates among the digits `1..=n`.
pub open spec fn candidates_upto(cs: Candidates, n: int) -> int
    decreases n,
{
    if n <= 0 {
        0
    } else {
        candidates_upto(cs, n - 1) + candidate_bit(cs, n)
    }
}

/// Counting digit by digit gives the number of candidates.
pub(crate) proof fn lemma_candidates_upto_nine(cs: Candidates)
    ensures
        candidates_upto(cs, 9) == candidate_count(cs),
{
    reveal_with_fuel(candidates_upto, 10);
}

/// Striking a candidate leaves one candidate less.
pub(crate) proof fn lemma_struck_count(cs: Candidates, rest: Candidates, d: int)
    requires
        has_candidate(cs, d),
        forall|e: int| #[trigger] has_candidate(rest, e) == (has_candidate(cs, e) && e != d),
    ensures
        candidate_count(rest) == candidate_count(cs) - 1,
{
    assert(has_candidate(rest, 1) == (has_candidate(cs, 1) && 1 != d));
    assert(has_candidate(rest, 2) == (has_candidate(cs, 2) && 2 != d));
    assert(has_candidate(rest, 3) == (has_candidate(cs, 3) && 3 != d));
    assert(has_candidate(rest, 4) == (has_candidate(cs, 4) && 4 != d));
    assert(has_candidate(rest, 5) == (has_candidate(cs, 5) && 5 != d));
    assert(has_candidate(rest, 6) == (has_candidate(cs, 6) && 6 != d));
    assert(has_candidate(rest, 7) == (has_candidate(cs, 7) && 7 != d));
    assert(has_candidate(rest, 8) == (has_candidate(cs, 8) && 8 != d));
    assert(has_candidate(rest, 9) == (has_candidate(cs, 9) && 9 != d));
}

/// Candidates that include no digit but `d` are one candidate at most.
pub(crate) proof fn lemma_no_other_candidate(cs: Candidates, d: int)
    requires
        forall|e: int| 1 <= e <= 9 && e != d ==> !#[trigger] has_candidate(cs, e),
    ensures
        candidate_count(cs) <= 1,
{
    assert(1 != d ==> !has_candidate(cs, 1));
    assert(2 != d ==> !has_candidate(cs, 2));
    assert(3 != d ==> !has_candidate(cs, 3));
    assert(4 != d ==> !has_candidate(cs, 4));
    assert(5 != d ==> !has_candidate(cs, 5));
    assert(6 != d ==> !has_candidate(cs, 6));
    assert(7 != d ==> !has_candidate(cs, 7));
    assert(8 != d ==> !has_candidate(cs, 8));
    assert(9 != d ==> !has_candidate(cs, 9));
}

impl Cell {
    /// Whether the cell is unfilled.
    pub open spec fn is_open(self) -> bool {
        self is Candidates
    }

    /// Whether the cell is unfilled and lists digit `d` as a candidate.
    pub open spec fn lists(self, d: int) -> bool {
        match self {
            Cell::Value(_) => false,
            Cell::Candidates(cs) => has_candidate(cs, d),
        }
    }

    /// Whether the cell is unfilled and lists digit `d` and digit `e`, and
    /// no other.
    pub open spec fn is_last_but(self, d: int, e: int) -> bool {
        match self {
            Cell::Value(_) => false,
            Cell::Candidates(cs) => has_candidate(cs, d) && has_candidate(cs, e) && e != d
                && candidate_count(cs) == 2,
        }
    }

    /// Whether the cell holds digit `d`.
    pub open spec fn holds(self, d: int) -> bool {
        match self {
            Cell::Value(v) => v == d,
            Cell::Candidates(_) => false,
        }
    }

    /// Whether digit `d` is compatible with the cell: the digit it holds, or
    /// one of its candidates.
    pub open spec fn admits(self, d: int) -> bool {
        self.holds(d) || self.lists(d)
    }

    /// A placed digit is in `1..=9`, and an unfilled cell has a candidate left.
    pub open spec fn wf(self) -> bool {
        match self {
            Cell::Value(v) => 1 <= v <= 9,
            Cell::Candidates(cs) => candidate_count(cs) >= 1,
        }
    }
}

impl Default for Cell {
    /// An unfilled cell for which every digit is still possible.
    fn default() -> (cell: Self)
        ensures
            cell.is_open(),
            forall|d: int| 1 <= d <= 9 ==> cell.lists(d),
            cell matches Cell::Candidates(cs) && candidate_count(cs) == 9,
    {
        let cs: Candidates = [true; 9];
        assert(cs[0] && cs[1] && cs[2] && cs[3] && cs[4] && cs[5] && cs[6] && cs[7] && cs[8]);
        Cell::Candidates(cs)
    }
}

/// Counts the candidates of an unfilled cell.
pub fn count_candidates(cs: &Candidates) -> (n: u8)
    ensures
        n == candidate_count(*cs),
        n <= 9,
{
    let mut n: u8 = 0;
    let mut d: usize = 0;
    while d < 9
        invariant
            d <= 9,
            n == candidates_upto(*cs, d as int),
            n <= d,
        decreases 9 - d,
    {
        if cs[d] {
            n += 1;
        }
        d += 1;
    }
    proof {
        lemma_candidates_upto_nine(*cs);
    }
    n
}

/// The smallest candidate of a cell that has one.
pub fn first_candidate(cs: &Candidates) -> (digit: u8)
    requires
        candidate_count(*cs) >= 1,
    ensures
        1 <= digit <= 9,
        has_candidate(*cs, digit as int),
        forall|d: int| 1 <= d < digit ==> !#[trigger] has_candidate(*cs, d),
        candidate_count(*cs) == 1 ==> forall|d: int|
            #[trigger] has_candidate(*cs, d) ==> d == digit,
{
    let mut d: u8 = 1;
    while d < 9 && !cs[(d - 1) as usize]
        invariant
            1 <= d <= 9,
            forall|e: int| 1 <= e < d ==> !#[trigger] has_candidate(*cs, e),
        decreases 9 - d,
    {
        d += 1;
    }
    d
}

} // verus!
