//! Rules engine and move search for Kalah-style mancala: a ring of fourteen pits, two rows
//! of six and one store per player.

pub mod board;
pub mod engine;
pub mod search;

pub use board::{MancalaBoard, Player, Well};
pub use engine::InvalidMoveError;
pub use search::{MAX_DEPTH, NO_MOVE};
