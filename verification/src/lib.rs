//! A verified solver for standard 9x9 sudoku puzzles.
//!
//! A puzzle is a sequence of 81 characters in row-major order, each a digit
//! `1`-`9` or the blank marker `.`.  [`Solver::solve`] loads the given digits,
//! propagates their consequences (naked and hidden singles) and, where that
//! does not finish the grid, searches the remaining cells depth first.
//!
//! What is proved of it:
//!
//! - a well-formed puzzle is solved exactly where it has a solution, and the
//!   result is a complete grid with every given digit in which each row,
//!   column and 3x3 square has each digit once;
//! - propagation fills exactly the cells that naked and hidden singles
//!   derive, and leaves the grid a fixed point: the counters are exact and
//!   no single waits to be filled;
//! - the search is used exactly where singles do not suffice; every search
//!   fill is counted, was needed, was made at the first of the cells with
//!   the fewest digits left, and is the least digit that leads to a
//!   solution, so that the solution and the count are determined;
//! - no arithmetic overflows, no index is out of bounds and every recursion
//!   ends.
//!
//! The modules, from the ground up: [`tally`] counts over the nine slots of a
//! unit; [`board`] has the geometry of the grid and the model of a filled
//! grid; [`cell`], [`occurrences`] and [`state`] hold the solver's data and
//! its invariant, [`counts`] the counting over cells; [`puzzle`] reads the
//! input; [`singles`] says what naked and hidden singles derive, and
//! [`chains`] how derivations combine; [`steps`] and [`account`] prove what
//! the steps of propagation keep; [`propagate`] and [`search`] are the
//! engine, [`solve`] the entry point and [`solution`] its result;
//! [`pattern`] has a valid grid for every cell and digit, [`clash`] the
//! loading of a digit that is given twice; [`laws`] states what holds of
//! every run.
pub mod tally;
pub mod board;
pub mod cell;
pub mod error;
pub mod occurrences;
pub mod counts;
pub mod puzzle;
pub mod singles;
pub mod chains;
pub mod state;
pub mod steps;
pub mod account;
pub mod propagate;
pub mod search;
pub mod solution;
pub mod solve;
pub mod pattern;
pub mod clash;
pub mod laws;

pub use board::{cell_to_square, index_to_3x3_coords};
pub use cell::Cell;
pub use error::SolveError;
pub use solution::Solution;
pub use state::Solver;
