//! Rules engine of a Minesweeper game.
//!
//! A board is a flat, row-major sequence of tiles. The library builds boards
//! from a set of mine positions, reveals tiles (cascading through regions
//! without adjacent mines) and derives the outcome of the game after every
//! move. Every function carries a contract that Verus proves.

pub mod board;
pub mod cascade;
pub mod error;
pub mod game;
pub mod grid;
pub mod laws;
pub mod moves;
pub mod random;
pub mod render;
pub mod tile;

pub use error::GameError;
pub use game::{FinishedGame, Game, GameState, GameStateView, GameView};
pub use moves::RevealError;
pub use render::{render_board, render_tile};
pub use tile::Tile;
