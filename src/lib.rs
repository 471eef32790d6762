//! Word-puzzle solver: a letter trie over a word list and a constrained
//! backtracking search that enumerates the words consistent with a board.

mod board;
mod letters;
mod loader;
mod search;
mod solve_app;
mod trie;

pub use board::{extract_constraints, find_words, Board, BoardElem, SolverArgs, BOARD_COLS, BOARD_ROWS};
pub use loader::{LoadError, WordSizeConstraint};
pub use search::{search, Constraints, Requirement};
pub use solve_app::SolveApp;
pub use trie::{Dictionary, Slot, WordId};
