//! The markers ("stones") that sit in piles on the board.

use vstd::prelude::*;

verus! {

/// A single marker.  Neutral stones seed the starting board; the player
/// stones are introduced one per move.
#[derive(PartialEq, Eq, Structural, Copy, Clone, Debug, Hash, Default)]
pub enum Stone {
    #[default]
    Neutral,
    Red,
    White,
}

} // verus!
