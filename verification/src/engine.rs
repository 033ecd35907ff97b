//! The game engine: rounds of the 2048 board and the board's history.
pub mod board;
pub mod round;
