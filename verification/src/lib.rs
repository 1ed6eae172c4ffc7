//! A 9×9 sudoku board with constraint checks and an exhaustive backtracking
//! solver, with every operation specified over a mathematical model of the
//! grid.
//!
//! - [`grid`] is the model: a grid of cells, and what it means for one to be
//!   full and to hold no number twice in a row, column or box.
//! - [`board`] is the board itself, with access to its cells and the checks.
//! - [`solver`] says what a solution is and which one the search finds, and
//!   holds the search.
//! - [`text`] reads a board from text and writes one out.

pub mod board;
pub mod grid;
pub mod solver;
pub mod text;

pub use board::SudokuBoard;
pub use text::{num_fmt, ParseError};
