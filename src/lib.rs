//! Sliding-tile puzzles: boards, moves of the hole, and an A* solver.

mod counting;
mod frontier;
pub mod game;
pub mod motion;
pub mod parity;
pub mod search;
pub mod text;
