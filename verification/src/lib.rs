//! A two-player abstract game on a 4x4 grid of marker piles.
//!
//! A move lifts an entire pile, appends the mover's new stone, and drops the
//! lifted stones one per step along a chosen path.  The library enumerates
//! every legal path and move, applies moves to boards, and detects a winner
//! from the topmost stone of each pile.

pub mod avec;
pub mod board;
pub mod game_state;
pub mod path;
pub mod position;
pub mod stone;
pub mod stone_pile;
