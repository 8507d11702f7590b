//! Tic-tac-toe on a 3x3 board, with a computer opponent that searches the
//! game tree (minimax) or plays at random, depending on its difficulty.

pub mod ai;
pub mod board;

pub use ai::{Ai, Difficulty};
pub use board::{Board, Field};
