//! Minesweeper game logic: mine-field generation, adjacency counting and the
//! reveal / flag state machine of a board.
pub mod coordinates;
pub mod tile;
pub mod tile_map;
pub mod board;

pub use coordinates::Coordinates;
pub use tile::Tile;
pub use tile_map::{MapError, TileMap};
pub use board::{Board, RevealOutcome};
