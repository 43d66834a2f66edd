//! Rules of a two-grid Battleship game: ship placement without touching,
//! shots and their outcomes, sinking of whole ships, and defeat.
pub mod conversions;
pub mod field;
pub mod fleet;
pub mod game_constants;
pub mod grid;
pub mod player;
pub mod protocol;
pub mod ship;
pub mod shot;
pub mod text;
