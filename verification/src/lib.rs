//! A 9x9 Sudoku library: a constraint board that tracks the digits used in
//! every row, column and box, a backtracking solver with a uniqueness test,
//! and a difficulty grader.
//!
//! Every executable function carries a contract over a mathematical model of
//! its data: a `BitSet` is a set of integers, a `Board` is a `Grid` of cells
//! with the digit sets of its rows, columns and boxes.

pub mod bitset;
pub mod board;
pub mod error;
pub mod grade;
pub mod grid;
pub mod search;
pub mod solution;
pub mod solver;
pub mod text;
