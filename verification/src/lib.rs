//! Rule engine for a sliding-tile merge puzzle on a square grid.
//!
//! The crate is organised leaves-first:
//! - [`grid_coord`] holds the coordinate value type;
//! - [`errors`] holds the error values every operation reports;
//! - [`grid`] holds the board: a square matrix of optional tiles with
//!   bounds-checked reads, tile placement, relocation and merging;
//! - [`moves`] resolves one directional move (shift plus merge) against a
//!   board;
//! - [`game`] composes a board, a score and a turn counter into one
//!   session with win/loss detection and random tile spawning.

pub mod errors;
pub mod game;
pub mod grid;
pub mod grid_coord;
pub mod moves;

pub use errors::GameError;
pub use game::Game;
pub use game::GameState;
pub use grid::Grid;
pub use grid::Tile;
pub use grid_coord::GridCoord;
pub use moves::MoveDirection;
pub use moves::MoveEngine;
pub use moves::MoveResult;
