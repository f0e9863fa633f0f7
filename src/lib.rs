//! A sliding-tile puzzle on a four-by-four grid: the rules for sliding and
//! merging a line of tiles, the board that applies them in each direction,
//! the end-of-game test and the placement of new tiles.

pub mod board;
mod chance;
pub mod line;

pub use board::{Direction, Game, SIZE};
pub use line::{compact_tiles, merge_tiles, slide_line};
