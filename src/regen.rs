//! Growth of garrisons at the end of each turn.
use vstd::prelude::*;
use crate::world::{BOARD_SIZE, Coordinate, Space, Spaces, at, in_bounds, tile, put_tile};
use crate::game_state::GameState;

verus! {

/// A player town grows on every turn that is a multiple of this.
pub const TOWN_PERIOD: usize = 2;

/// Open land held by a player grows on every turn that is a multiple of this.
pub const LAND_PERIOD: usize = 25;

/// The tile after the growth of turn `turn`.
pub open spec fn regenerated(t: Space, turn: int) -> Space {
    match t {
        Space::PlayerCapital { owner, units } => Space::PlayerCapital { owner, units: (units + 1) as usize },
        Space::PlayerTown { owner, units } => if turn % (TOWN_PERIOD as int) == 0 {
            Space::PlayerTown { owner, units: (units + 1) as usize }
        } else {
            t
        },
        Space::PlayerEmpty { owner, units } => if turn % (LAND_PERIOD as int) == 0 {
            Space::PlayerEmpty { owner, units: (units + 1) as usize }
        } else {
            t
        },
        _ => t,
    }
}

/// No garrison that could grow is at the largest value a `usize` holds.
pub open spec fn can_grow(b: Spaces) -> bool {
    forall|c: Coordinate|
        in_bounds(c) && (#[trigger] at(b, c)).spec_owner() is Some ==> at(b, c).spec_units() < usize::MAX
}

fn grown(t: Space, turn: usize) -> (r: Space)
    requires
        t.spec_owner() is Some ==> t.spec_units() < usize::MAX,
    ensures
        r == regenerated(t, turn as int),
{
    match t {
        Space::PlayerCapital { owner, units } => Space::PlayerCapital { owner, units: units + 1 },
        Space::PlayerTown { owner, units } => if turn % TOWN_PERIOD == 0 {
            Space::PlayerTown { owner, units: units + 1 }
        } else {
            t
        },
        Space::PlayerEmpty { owner, units } => if turn % LAND_PERIOD == 0 {
            Space::PlayerEmpty { owner, units: units + 1 }
        } else {
            t
        },
        _ => t,
    }
}

impl GameState {
    /// Grows the garrisons for the turn being concluded: a capital every
    /// turn, a player town every other turn, open land every 25th turn.
    pub fn populate_spaces(&mut self)
        requires
            can_grow(old(self).spaces),
        ensures
            final(self).turn == old(self).turn,
            forall|c: Coordinate|
                in_bounds(c) ==> at(final(self).spaces, c) == regenerated(
                    at(old(self).spaces, c),
                    old(self).turn as int,
                ),
    {
        let ghost b = self.spaces;
        let mut x: usize = 0;
        while x < BOARD_SIZE
            invariant
                x <= BOARD_SIZE,
                can_grow(b),
                self.turn == old(self).turn,
                forall|c: Coordinate|
                    in_bounds(c) ==> #[trigger] at(self.spaces, c) == if c.x < x {
                        regenerated(at(b, c), self.turn as int)
                    } else {
                        at(b, c)
                    },
            decreases BOARD_SIZE - x,
        {
            let mut y: usize = 0;
            while y < BOARD_SIZE
                invariant
                    x < BOARD_SIZE,
                    y <= BOARD_SIZE,
                    can_grow(b),
                    self.turn == old(self).turn,
                    forall|c: Coordinate|
                        in_bounds(c) ==> #[trigger] at(self.spaces, c) == if c.x < x || (c.x == x && c.y < y) {
                            regenerated(at(b, c), self.turn as int)
                        } else {
                            at(b, c)
                        },
                decreases BOARD_SIZE - y,
            {
                let c = Coordinate { x, y };
                let t = tile(&self.spaces, c);
                assert(t == at(b, c));
                let g = grown(t, self.turn);
                put_tile(&mut self.spaces, c, g);
                y += 1;
            }
            x += 1;
        }
    }
}

} // verus!
