//! Monte-Carlo graph search over interned game states, with Tic-Tac-Toe and
//! Connect-4 as the two rule sets.
pub mod board;
pub mod game;
pub mod games;
pub mod mcts;
