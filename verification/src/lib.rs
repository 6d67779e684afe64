//! The board engine of a sliding-tile merging puzzle: tiles of equal value
//! that collide during a move merge into one tile of double value.
//!
//! `game` holds the session and its moves, `grid`, `tile`, `direction` and
//! `traversal` the data that a move works on. The contracts speak of the
//! mathematical model in `board` (cells, empty cells, new tiles), `slide`
//! (what a move does to every lane of the board) and `tally` (sums of tile
//! values); `laws` holds what follows from them for every move.

pub mod board;
pub mod direction;
pub mod game;
pub mod grid;
pub mod laws;
mod pass;
mod random;
pub mod slide;
pub mod tally;
pub mod tile;
pub mod traversal;

pub use crate::direction::Direction;
pub use crate::game::GameManager;
pub use crate::grid::Grid;
pub use crate::tile::Tile;
pub use crate::traversal::Traversal;
