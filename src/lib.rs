//! A word-search puzzle generator: a grid whose leftover cells spell a hidden
//! phrase, with every other cell covered by dictionary words.
use vstd::prelude::*;

pub mod board;
pub mod controller;
pub mod dictionary;
pub mod direction;
mod random;
pub mod solution;
pub mod text;
pub mod trie;
pub mod wfc;
pub mod word;

verus! {

/// Shortest dictionary word, and shortest ray worth a dictionary query.
pub const MIN_LEN: usize = 3;

/// Smallest number of rows and of columns a grid may have.
pub const MIN_DIM: usize = 4;

/// The ways a session can fail.
#[derive(Clone, Copy, Debug, PartialEq, Eq, Structural)]
pub enum PuzzleError {
    /// The grid has fewer than `MIN_DIM` rows or columns.
    BoardTooSmall,
    /// The phrase has no letter left after normalization.
    EmptySolution,
    /// The normalized phrase is longer than half the cells.
    SolutionTooLong,
    /// A dictionary word is shorter than `MIN_LEN`.
    TooShort,
    /// No layout of the phrase's letters met the spacing rule.
    SolutionInfeasible,
    /// Backtracking ran out of choices before the grid was full.
    FillInfeasible,
}

} // verus!
