//! A 9x9 Sudoku solver based on iterative constraint propagation over
//! bitmask-encoded candidate sets.
//!
//! Each of the 81 cells of a board holds a 9-bit mask over the digits 1-9;
//! an elimination pass narrows the candidates of every unresolved cell from
//! the digits already placed among its row, column and box peers, and the
//! solver repeats such passes until the board stops changing.

pub mod sudoku_board;

pub use sudoku_board::SudokuBoard;
pub use sudoku_board::SudokuError;
