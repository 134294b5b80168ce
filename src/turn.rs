//! One turn of the referee: checking the players' proposals, resolving
//! them, growing the garrisons and advancing the turn counter.
use vstd::prelude::*;
use crate::world::{BOARD_SIZE, Coordinate, Spaces, adjacent, at, in_bounds, tile};
use crate::game_state::{GameState, Move};
use crate::resolve::{
    attackers, attacks, combat, evacuated, merged, reinforced, reinforces, resolved_tile, strongest,
    surviving, valid_batch, valid_move,
};
use crate::regen::regenerated;

verus! {

/// The largest garrison with which a turn can still be played without any
/// count overflowing.
pub const GARRISON_LIMIT: usize = 0x3fff_ffff;

/// A player's proposal to move from `from` to `to` that the referee accepts.
pub open spec fn accepted(b: Spaces, player: usize, from: Coordinate, to: Coordinate) -> bool {
    &&& in_bounds(from)
    &&& in_bounds(to)
    &&& at(b, from).spec_owner() == Some(player)
    &&& !(at(b, to) is Mountain)
    &&& adjacent(from, to)
    &&& at(b, to).spec_units() + at(b, from).spec_units() <= usize::MAX
}

/// The move made of an accepted proposal: every unit on the source goes.
pub open spec fn order(b: Spaces, player: usize, from: Coordinate, to: Coordinate) -> Move {
    Move { owner: player, units: at(b, from).spec_units(), from, to }
}

/// The moves made of the proposals, the proposal at index `p` being player `p`'s.
pub open spec fn batch(b: Spaces, props: Seq<Option<(Coordinate, Coordinate)>>) -> Seq<Move>
    decreases props.len(),
{
    if props.len() == 0 {
        Seq::empty()
    } else {
        let rest = batch(b, props.drop_last());
        let p = (props.len() - 1) as usize;
        match props.last() {
            Some((from, to)) => if accepted(b, p, from, to) {
                rest.push(order(b, p, from, to))
            } else {
                rest
            },
            None => rest,
        }
    }
}

/// Checks player `player`'s proposal against the board and turns it into a
/// move that carries the whole garrison of its source.
pub fn validate_move(spaces: &Spaces, player: usize, from: Coordinate, to: Coordinate) -> (r: Option<Move>)
    ensures
        r == if accepted(*spaces, player, from, to) {
            Some(order(*spaces, player, from, to))
        } else {
            None::<Move>
        },
{
    if from.x >= BOARD_SIZE || from.y >= BOARD_SIZE {
        return None;
    }
    if to.x >= BOARD_SIZE || to.y >= BOARD_SIZE {
        return None;
    }
    let source = tile(spaces, from);
    let target = tile(spaces, to);
    match source.owner() {
        Some(o) => if o != player {
            return None;
        },
        None => return None,
    }
    if target.is_mountain() {
        return None;
    }
    let next_to = (from.x == to.x && (from.y + 1 == to.y || to.y + 1 == from.y)) || (from.y == to.y && (
    from.x + 1 == to.x || to.x + 1 == from.x));
    if !next_to {
        return None;
    }
    let units = source.get_units();
    if target.get_units() > usize::MAX - units {
        return None;
    }
    Some(Move { owner: player, units, from, to })
}

/// The accepted proposals as moves, in player order.
pub fn gather_moves(spaces: &Spaces, proposals: &Vec<Option<(Coordinate, Coordinate)>>) -> (r: Vec<Move>)
    ensures
        r@ == batch(*spaces, proposals@),
        valid_batch(*spaces, r@),
        forall|k: int| 0 <= k < r.len() ==> (#[trigger] r@[k]).units == at(*spaces, r@[k].from).spec_units(),
{
    let ghost b = *spaces;
    let mut moves: Vec<Move> = Vec::new();
    let mut p: usize = 0;
    while p < proposals.len()
        invariant
            b == *spaces,
            p <= proposals.len(),
            moves@ == batch(b, proposals@.take(p as int)),
            forall|k: int| 0 <= k < moves.len() ==> valid_move(b, #[trigger] moves@[k]) && moves@[k].owner < p,
            forall|k: int| 0 <= k < moves.len() ==> (#[trigger] moves@[k]).units == at(b, moves@[k].from).spec_units(),
            forall|k: int, l: int| 0 <= k < l < moves.len() ==> (#[trigger] moves@[k]).owner < (#[trigger] moves@[l]).owner,
        decreases proposals.len() - p,
    {
        assert(proposals@.take(p as int + 1).drop_last() == proposals@.take(p as int));
        match proposals[p] {
            Some((from, to)) => {
                match validate_move(spaces, p, from, to) {
                    Some(m) => {
                        moves.push(m);
                    },
                    None => {},
                }
            },
            None => {},
        }
        p += 1;
    }
    assert(proposals@.take(proposals.len() as int) == proposals@);
    moves
}

proof fn lemma_resolved_bound(b: Spaces, ms: Seq<Move>, c: Coordinate, lim: int)
    requires
        valid_batch(b, ms),
        in_bounds(c),
        forall|d: Coordinate| in_bounds(d) ==> (#[trigger] at(b, d)).spec_units() <= lim,
        forall|i: int| 0 <= i < ms.len() ==> (#[trigger] ms[i]).units <= lim,
    ensures
        resolved_tile(b, ms, c).spec_units() <= 2 * lim,
{
    let e = evacuated(b, ms, c);
    assert(e.spec_units() <= lim);
    let t = merged(b, ms, c);
    if reinforced(b, ms, c) {
        let i = choose|i: int| 0 <= i < ms.len() && reinforces(b, ms, #[trigger] ms[i], c);
        assert(surviving(ms, ms[i]) <= ms[i].units);
    }
    assert(t.spec_units() <= 2 * lim);
    let a = attackers(b, ms, c);
    if let Some((o, u)) = combat(a) {
        let w = choose|w: (usize, usize)| strongest(a, w);
        let i = choose|i: int|
            0 <= i < ms.len() && attacks(b, ms, #[trigger] ms[i], c) && w == (ms[i].owner, surviving(ms, ms[i]));
        assert(surviving(ms, ms[i]) <= ms[i].units);
        assert(u <= w.1);
    }
}

impl GameState {
    /// Plays one turn: the accepted proposals are resolved together, the
    /// garrisons grow for the turn being concluded, and the counter advances.
    ///
    /// The proposal at index `p` is player `p`'s; `None` means the player passes.
    pub fn play_turn(&mut self, proposals: &Vec<Option<(Coordinate, Coordinate)>>)
        requires
            old(self).turn < usize::MAX,
            forall|c: Coordinate| in_bounds(c) ==> (#[trigger] at(old(self).spaces, c)).spec_units() <= GARRISON_LIMIT,
        ensures
            final(self).turn == old(self).turn + 1,
            forall|c: Coordinate|
                in_bounds(c) ==> #[trigger] at(final(self).spaces, c) == regenerated(
                    resolved_tile(old(self).spaces, batch(old(self).spaces, proposals@), c),
                    old(self).turn as int,
                ),
    {
        let ghost b = self.spaces;
        let moves = gather_moves(&self.spaces, proposals);
        let ghost ms = moves@;
        self.handle_moves(moves);
        proof {
            assert forall|i: int| 0 <= i < ms.len() implies (#[trigger] ms[i]).units <= GARRISON_LIMIT by {
                assert(ms[i].units == at(b, ms[i].from).spec_units());
            }
            assert forall|c: Coordinate|
                in_bounds(c) && (#[trigger] at(self.spaces, c)).spec_owner() is Some implies at(self.spaces, c).spec_units()
                < usize::MAX by {
                lemma_resolved_bound(b, ms, c, GARRISON_LIMIT as int);
            }
        }
        self.populate_spaces();
        self.turn = self.turn + 1;
    }
}

} // verus!
