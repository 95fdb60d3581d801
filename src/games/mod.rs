//! The two rule sets.
pub mod connect4;
pub mod tictactoe;
