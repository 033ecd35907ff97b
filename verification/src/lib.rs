//! A terminal 2048 game: the game engine (board, rounds, tile sliding) and the
//! geometry, drawing and animation logic of its text user interface.
pub mod board_text;
pub mod engine;
pub mod error;
pub mod random;
pub mod round;
pub mod tui;
pub mod tui48;
