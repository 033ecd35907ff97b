//! Text user interface: geometry, tuxels and the buffers drawn on a canvas.
pub mod canvas;
pub mod colors;
pub mod error;
pub mod events;
pub mod geometry;
pub mod tuxel;
pub mod drawbuffer;
pub mod textbuffer;
