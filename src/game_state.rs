//! The referee's state and the moves that players submit.
use vstd::prelude::*;
use crate::world::{Coordinate, Spaces};

verus! {

/// A player's order to send every unit on `from` towards `to`.
#[derive(Clone, Copy, Debug, PartialEq, Eq, Structural)]
pub struct Move {
    pub owner: usize,
    pub units: usize,
    pub from: Coordinate,
    pub to: Coordinate,
}

/// The board and the number of turns played so far.
#[derive(Clone, Copy, Debug)]
pub struct GameState {
    pub spaces: Spaces,
    pub turn: usize,
}

} // verus!
