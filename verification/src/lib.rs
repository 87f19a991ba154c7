//! A constraint-propagation engine for 9x9 Sudoku.
//!
//! Every cell tracks the numerals that are still consistent with the values
//! placed in its row, its column and its 3x3 block. Deduction rules place
//! values or prune candidates; nothing is ever guessed.
//!
//! - [`square`], [`collection`] and [`board`] hold the cells, the rows and
//!   the board with its rules and passes.
//! - [`grid`] and [`rules`] are the mathematical model: what a placement and
//!   each rule do to a grid of cells.
//! - [`soundness`] and [`solvable`] prove that the rules lose no solution,
//!   and that naked singles solve whatever naked singles can solve.
//! - [`sdk`] reads and writes the text form of a puzzle, [`display`] renders
//!   the board for a terminal.

pub mod board;
pub mod collection;
pub mod display;
pub mod grid;
pub mod helper_functions;
pub mod rules;
pub mod sdk;
pub mod solvable;
pub mod soundness;
pub mod square;
