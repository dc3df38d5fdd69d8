//! A Connect-Four engine on a 6 x 9 board: a board state machine with
//! insertion, legality and win detection, and a Monte Carlo move evaluator.

pub mod grid;
pub mod mcts;
