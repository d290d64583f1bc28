//! Solver for the Quartiles word puzzle.
//!
//! Twenty fragments lie on a grid of four columns by five rows. A word is
//! spelled by one to four fragments, none of them used twice. The solver
//! finds every way to spell a word of a dictionary, and says whether five
//! words of four fragments each cover the grid.
//!
//! * [`path`] holds the candidate words, as paths over the grid, and the
//!   moves of the search from one path to the next.
//! * [`enumeration`] orders the paths and proves that the moves visit each
//!   of them once.
//! * [`text`] gives contracts to the fixed-capacity strings that hold
//!   fragments and words.
//! * [`dictionary`] holds the words, in a prefix tree, and turns a
//!   dictionary into bytes and back.
//! * [`search`] states what the search does, step by step, and proves that
//!   it finds every answer once.
//! * [`solver`] runs the search in slices of time.
//! * [`clock`] is the wall clock that bounds a slice.
//! * [`board`] moves a cursor over the grid and a pick through a list of
//!   words.

pub mod board;
pub mod clock;
pub mod dictionary;
pub mod enumeration;
pub mod path;
pub mod search;
pub mod solver;
pub mod text;
