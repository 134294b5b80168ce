//! Random generation of the starting board.
use vstd::prelude::*;
use rand::Rng;
use crate::world::{BOARD_SIZE, Coordinate, Space, Spaces, at, in_bounds, tile, put_tile};
use crate::game_state::GameState;
use crate::connectivity::{connected, is_path, passable, reachable, still_connected};
use crate::tally::{
    lemma_tally_change, lemma_tally_zero, mountain_count, neutral_town_count, one_if_mountain,
    one_if_neutral_town,
};

verus! {

pub const NUM_TOWNS: usize = 10;

pub const NUM_MOUNTAINS: usize = 100;

pub const CAPITAL_STARTING_UNITS: usize = 5;

pub const NEUTRAL_TOWN_STARTING_UNITS: usize = 50;

/// Draws of a random cell made in search of an empty one before giving up.
pub const MAX_DRAWS: usize = 10000;

/// Attempts at placing a mountain before the generation gives up.
pub const MAX_MOUNTAIN_ATTEMPTS: usize = 20000;

/// The generator gave up before the board was complete.
#[derive(Clone, Copy, Debug, PartialEq, Eq, Structural)]
pub struct GenerationInfeasible;

/// A tile that may stand on a fresh board for `n` players.
pub open spec fn starting_tile(t: Space, n: usize) -> bool {
    ||| t is Empty
    ||| t is Mountain
    ||| t == Space::NeutralTown { units: NEUTRAL_TOWN_STARTING_UNITS }
    ||| t matches Space::PlayerCapital { owner, units } && owner < n && units == CAPITAL_STARTING_UNITS
}

pub open spec fn capital_of(t: Space, p: usize) -> bool {
    t matches Space::PlayerCapital { owner, .. } && owner == p
}

pub open spec fn has_capital(b: Spaces, p: usize) -> bool {
    exists|c: Coordinate| in_bounds(c) && #[trigger] capital_of(at(b, c), p)
}

/// Every player below `n` has exactly one capital.
pub open spec fn one_capital_each(b: Spaces, n: usize) -> bool {
    &&& forall|p: usize| p < n ==> #[trigger] has_capital(b, p)
    &&& forall|c1: Coordinate, c2: Coordinate, p: usize|
        in_bounds(c1) && in_bounds(c2) && #[trigger] capital_of(at(b, c1), p) && #[trigger] capital_of(at(b, c2), p)
            ==> c1 == c2
}

/// A complete starting board for `n` players.
pub open spec fn generated(b: Spaces, n: usize) -> bool {
    &&& connected(b)
    &&& forall|c: Coordinate| in_bounds(c) ==> starting_tile(#[trigger] at(b, c), n)
    &&& one_capital_each(b, n)
    &&& neutral_town_count(b) == NUM_TOWNS
    &&& mountain_count(b) == NUM_MOUNTAINS
}

/// Relies on rand's `thread_rng().gen_range(0..bound)`: a number below
/// `bound`, which must not be zero.
#[verifier::external_body]
fn random_below(bound: usize) -> (r: usize)
    requires
        bound > 0,
    ensures
        r < bound,
{
    rand::thread_rng().gen_range(0..bound)
}

/// A randomly drawn empty cell, if one turns up within `MAX_DRAWS` draws.
fn random_empty_space(spaces: &Spaces) -> (r: Option<Coordinate>)
    ensures
        r matches Some(c) ==> in_bounds(c) && at(*spaces, c) is Empty,
{
    let mut draws: usize = 0;
    while draws < MAX_DRAWS
        decreases MAX_DRAWS - draws,
    {
        let c = Coordinate { x: random_below(BOARD_SIZE), y: random_below(BOARD_SIZE) };
        if tile(spaces, c).is_empty() {
            return Some(c);
        }
        draws += 1;
    }
    None
}

proof fn lemma_reachable_same(b1: Spaces, b2: Spaces, s: Coordinate, t: Coordinate)
    requires
        forall|d: Coordinate| in_bounds(d) ==> at(b1, d) == at(b2, d),
        reachable(b1, s, t),
    ensures
        reachable(b2, s, t),
{
    let p = choose|p: Seq<Coordinate>| is_path(b1, p) && p[0] == s && p.last() == t;
    assert forall|i: int| 0 <= i < p.len() implies passable(b2, #[trigger] p[i]) by {
        assert(passable(b1, p[i]));
    }
    assert(is_path(b2, p));
}

/// Whether a board is connected depends on its tiles alone.
proof fn lemma_connected_same(b1: Spaces, b2: Spaces)
    requires
        forall|d: Coordinate| in_bounds(d) ==> at(b1, d) == at(b2, d),
    ensures
        connected(b1) == connected(b2),
{
    if connected(b1) {
        assert forall|s: Coordinate, t: Coordinate| passable(b2, s) && passable(b2, t) implies #[trigger] reachable(b2, s, t) by {
            assert(reachable(b1, s, t));
            lemma_reachable_same(b1, b2, s, t);
        }
    }
    if connected(b2) {
        assert forall|s: Coordinate, t: Coordinate| passable(b1, s) && passable(b1, t) implies #[trigger] reachable(b1, s, t) by {
            assert(reachable(b2, s, t));
            lemma_reachable_same(b2, b1, s, t);
        }
    }
}

/// Puts a mountain on the empty cell `c` if the passable cells stay
/// connected, and reports whether it did.
pub fn place_mountain(spaces: &mut Spaces, c: Coordinate) -> (kept: bool)
    requires
        in_bounds(c),
    ensures
        forall|d: Coordinate|
            in_bounds(d) ==> #[trigger] at(*final(spaces), d) == if kept && d == c {
                Space::Mountain
            } else {
                at(*old(spaces), d)
            },
        forall|m: Spaces|
            (forall|d: Coordinate|
                in_bounds(d) ==> #[trigger] at(m, d) == if d == c {
                    Space::Mountain
                } else {
                    at(*old(spaces), d)
                }) ==> kept == connected(m),
{
    let previous = tile(spaces, c);
    put_tile(spaces, c, Space::Mountain);
    let kept = still_connected(spaces);
    proof {
        assert forall|m: Spaces|
            (forall|d: Coordinate|
                in_bounds(d) ==> #[trigger] at(m, d) == if d == c {
                    Space::Mountain
                } else {
                    at(*old(spaces), d)
                }) implies kept == connected(m) by {
            lemma_connected_same(m, *spaces);
        }
    }
    if !kept {
        put_tile(spaces, c, previous);
    }
    kept
}

/// Putting a non-capital on an empty cell keeps one capital for each player.
proof fn lemma_capitals_kept(b1: Spaces, b2: Spaces, n: usize, c: Coordinate)
    requires
        one_capital_each(b1, n),
        in_bounds(c),
        at(b1, c) is Empty,
        !(at(b2, c) is PlayerCapital),
        forall|d: Coordinate| in_bounds(d) && d != c ==> at(b1, d) == at(b2, d),
    ensures
        one_capital_each(b2, n),
{
    assert forall|p: usize| p < n implies #[trigger] has_capital(b2, p) by {
        assert(has_capital(b1, p));
        let d = choose|d: Coordinate| in_bounds(d) && #[trigger] capital_of(at(b1, d), p);
        assert(capital_of(at(b2, d), p));
    }
    assert forall|c1: Coordinate, c2: Coordinate, p: usize|
        in_bounds(c1) && in_bounds(c2) && #[trigger] capital_of(at(b2, c1), p) && #[trigger] capital_of(at(b2, c2), p)
        implies c1 == c2 by {
        assert(capital_of(at(b1, c1), p));
        assert(capital_of(at(b1, c2), p));
    }
}

/// Boards with the same tiles are the same board.
proof fn lemma_same_board(b1: Spaces, b2: Spaces)
    requires
        forall|d: Coordinate| in_bounds(d) ==> at(b1, d) == at(b2, d),
    ensures
        b1 == b2,
{
    assert forall|x: int| 0 <= x < BOARD_SIZE implies b1@[x] == b2@[x] by {
        assert forall|y: int| 0 <= y < BOARD_SIZE implies b1@[x]@[y] == b2@[x]@[y] by {
            let d = Coordinate { x: x as usize, y: y as usize };
            assert(in_bounds(d));
            assert(at(b1, d) == at(b2, d));
            assert(at(b1, d) == b1@[x]@[y]);
        }
        assert(b1@[x] =~= b2@[x]);
    }
    assert(b1 =~= b2);
}

impl GameState {
    /// A fresh game for `num_players` players: a capital for each, ten
    /// neutral towns and a hundred mountains on random cells, with every
    /// cell that is not a mountain reachable from every other one.
    ///
    /// Gives up with `GenerationInfeasible` when random draws keep missing.
    pub fn new(num_players: usize) -> (r: Result<GameState, GenerationInfeasible>)
        ensures
            r matches Ok(g) ==> g.turn == 0 && generated(g.spaces, num_players),
    {
        let nothing = Space::Empty;
        let column: [Space; BOARD_SIZE] = [nothing; BOARD_SIZE];
        let mut spaces: Spaces = [column; BOARD_SIZE];
        proof {
            assert forall|c: Coordinate| in_bounds(c) implies #[trigger] at(spaces, c) is Empty by {
                assert(column@[c.y as int] == Space::Empty);
                assert(spaces@[c.x as int] == column);
            }
            lemma_tally_zero(spaces, one_if_mountain(), (BOARD_SIZE * BOARD_SIZE) as int);
            lemma_tally_zero(spaces, one_if_neutral_town(), (BOARD_SIZE * BOARD_SIZE) as int);
        }

        let mut p: usize = 0;
        while p < num_players
            invariant
                p <= num_players,
                forall|c: Coordinate|
                    in_bounds(c) ==> (#[trigger] at(spaces, c) is Empty || (at(spaces, c) matches Space::PlayerCapital {
                        owner,
                        units,
                    } && owner < p && units == CAPITAL_STARTING_UNITS)),
                one_capital_each(spaces, p),
                mountain_count(spaces) == 0,
                neutral_town_count(spaces) == 0,
            decreases num_players - p,
        {
            let c = match random_empty_space(&spaces) {
                Some(c) => c,
                None => return Err(GenerationInfeasible),
            };
            let ghost before = spaces;
            put_tile(&mut spaces, c, Space::PlayerCapital { owner: p, units: CAPITAL_STARTING_UNITS });
            proof {
                lemma_tally_change(before, spaces, one_if_mountain(), c);
                lemma_tally_change(before, spaces, one_if_neutral_town(), c);
                assert forall|q: usize| q < p + 1 implies #[trigger] has_capital(spaces, q) by {
                    if q == p {
                        assert(capital_of(at(spaces, c), p));
                    } else {
                        assert(has_capital(before, q));
                        let d = choose|d: Coordinate| in_bounds(d) && #[trigger] capital_of(at(before, d), q);
                        assert(capital_of(at(spaces, d), q));
                    }
                }
                assert forall|c1: Coordinate, c2: Coordinate, q: usize|
                    in_bounds(c1) && in_bounds(c2) && #[trigger] capital_of(at(spaces, c1), q) && #[trigger] capital_of(
                        at(spaces, c2),
                        q,
                    ) implies c1 == c2 by {
                    if c1 != c && c2 != c {
                        assert(capital_of(at(before, c1), q));
                        assert(capital_of(at(before, c2), q));
                    } else if c1 == c && c2 != c {
                        assert(at(before, c2) matches Space::PlayerCapital { owner, .. } && owner < p);
                    } else if c2 == c && c1 != c {
                        assert(at(before, c1) matches Space::PlayerCapital { owner, .. } && owner < p);
                    }
                }
            }
            p += 1;
        }

        let mut t: usize = 0;
        while t < NUM_TOWNS
            invariant
                t <= NUM_TOWNS,
                forall|c: Coordinate| in_bounds(c) ==> starting_tile(#[trigger] at(spaces, c), num_players),
                forall|c: Coordinate| in_bounds(c) ==> !(#[trigger] at(spaces, c) is Mountain),
                one_capital_each(spaces, num_players),
                mountain_count(spaces) == 0,
                neutral_town_count(spaces) == t,
            decreases NUM_TOWNS - t,
        {
            let c = match random_empty_space(&spaces) {
                Some(c) => c,
                None => return Err(GenerationInfeasible),
            };
            let ghost before = spaces;
            put_tile(&mut spaces, c, Space::NeutralTown { units: NEUTRAL_TOWN_STARTING_UNITS });
            proof {
                lemma_tally_change(before, spaces, one_if_mountain(), c);
                lemma_tally_change(before, spaces, one_if_neutral_town(), c);
                lemma_capitals_kept(before, spaces, num_players, c);
            }
            t += 1;
        }

        let mut placed: usize = 0;
        let mut attempts: usize = 0;
        while placed < NUM_MOUNTAINS
            invariant
                placed <= NUM_MOUNTAINS,
                attempts <= MAX_MOUNTAIN_ATTEMPTS,
                forall|c: Coordinate| in_bounds(c) ==> starting_tile(#[trigger] at(spaces, c), num_players),
                one_capital_each(spaces, num_players),
                mountain_count(spaces) == placed,
                neutral_town_count(spaces) == NUM_TOWNS,
                placed > 0 ==> connected(spaces),
            decreases MAX_MOUNTAIN_ATTEMPTS - attempts,
        {
            if attempts == MAX_MOUNTAIN_ATTEMPTS {
                return Err(GenerationInfeasible);
            }
            attempts += 1;
            if let Some(c) = random_empty_space(&spaces) {
                let ghost before = spaces;
                let kept = place_mountain(&mut spaces, c);
                if kept {
                    proof {
                        lemma_tally_change(before, spaces, one_if_mountain(), c);
                        lemma_tally_change(before, spaces, one_if_neutral_town(), c);
                        lemma_capitals_kept(before, spaces, num_players, c);
                    }
                    placed += 1;
                } else {
                    proof {
                        lemma_same_board(before, spaces);
                    }
                }
            }
        }
        Ok(GameState { spaces, turn: 0 })
    }
}

} // verus!
