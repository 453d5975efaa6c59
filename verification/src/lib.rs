//! The core of a 2048-style sliding-tile puzzle on a fixed square grid: a
//! board of numbered tiles keyed by cell, a move resolver that slides and
//! merges tiles toward one of the four edges, and a spawner that places a
//! low-value tile on a random free cell after a successful move. Rendering,
//! input and animation live outside the library and only read the board.

use vstd::prelude::*;

pub mod board;
pub mod direction;
pub mod line;
pub mod moves;
mod rng;
pub mod tile;

pub use board::Board;
pub use direction::Direction;
pub use tile::Tile;
pub use tile::color_index;

verus! {

/// Number of rows and of columns in the square grid.
pub const GRID_SIZE: usize = 4;

} // verus!
