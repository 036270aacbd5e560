//! A falling-block puzzle engine on a fixed 10x20 board: piece geometry,
//! placement and line clearing, exhaustive enumeration of resting positions,
//! game simulation driven by a pluggable scoring bot, and a generational
//! evolution step over populations of such bots.

pub mod board;
mod chance;
pub mod genetic;
pub mod heuristics;
pub mod piece;
pub mod protocol;
pub mod search;
pub mod simulator;
pub mod state;

pub use crate::board::Board;
pub use crate::piece::{Mino, MinoShape};
pub use crate::state::State;
