//! A Sudoku solver that searches by backtracking over an explicit stack.
//!
//! A [`SudokuRaw`] is built from the nine text rows of a puzzle. [`solve`]
//! completes it, or reports that it cannot be completed and leaves it as it
//! was. The search is a machine that can also be driven one transition at a
//! time: a [`SearchState`] is stepped over the board until it has ended.
//!
//! The contracts are stated over a board as a sequence of eighty-one digits
//! (`board`) and over the search as a transition function on plain values
//! (`search`). That every transition keeps the invariant of the search and
//! brings it closer to its end is proved in `progress`; `laws` holds what
//! follows for boards, texts and solutions.

pub mod board;
pub mod grid;
pub mod laws;
pub mod progress;
pub mod render;
pub mod rules;
pub mod search;
pub mod solver;

pub use grid::{Sudoku, SudokuError, SudokuRaw};
pub use rules::{can_place, is_consistent};
pub use search::Phase;
pub use solver::{solve, Outcome, SearchState};
