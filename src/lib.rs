//! Conway's Game of Life on a fixed square grid, with no wraparound at the
//! edges.
//!
//! - `cell`: the state of one position and its fixed flat index.
//! - `geometry`: which flat indices neighbor a given one.
//! - `grid`: a generation of cells, row-major, with its side length.
//! - `engine`: the Life rule, applied to a whole generation at once.
//! - `board`: owns the live generation and advances it tick by tick.
//! - `seed`: random initial generations.
//! - `render`: text for a row of cells.
pub mod cell;
pub mod geometry;
pub mod grid;
pub mod engine;
pub mod board;
pub mod seed;
pub mod render;
