//! Solver for letter-grouping word-chain puzzles.
//!
//! A puzzle consists of an ordered set of distinct letters partitioned into
//! contiguous groups of a fixed side length.  A dictionary word is *legal*
//! when all of its letters belong to the puzzle and no two adjacent letters
//! fall in the same group.  The solver searches for the shortest chain of
//! legal words, linked end-to-start, whose letters together cover every
//! letter of the puzzle.

pub mod puzzle;
pub mod solver;
