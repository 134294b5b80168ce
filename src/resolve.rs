//! Simultaneous resolution of one turn's moves.
//!
//! Every move of a batch is applied at once, in four phases: the sources are
//! emptied, head-on pairs wear each other down, moves into the mover's own
//! territory reinforce it, and what is left fights over each destination.
use vstd::prelude::*;
use crate::world::{Coordinate, Space, Spaces, at, in_bounds, tile, put_tile};
use crate::game_state::{GameState, Move};

verus! {

/// A move that the scheduler may hand to the resolver on this board.
pub open spec fn valid_move(b: Spaces, m: Move) -> bool {
    &&& in_bounds(m.from)
    &&& in_bounds(m.to)
    &&& at(b, m.from).spec_owner() == Some(m.owner)
    &&& !(at(b, m.to) is Mountain)
    &&& at(b, m.to).spec_units() + m.units <= usize::MAX
}

/// Valid moves, at most one for each player.
pub open spec fn valid_batch(b: Spaces, ms: Seq<Move>) -> bool {
    &&& forall|i: int| 0 <= i < ms.len() ==> valid_move(b, #[trigger] ms[i])
    &&& forall|i: int, j: int|
        0 <= i < ms.len() && 0 <= j < ms.len() && i != j ==> (#[trigger] ms[i]).owner != (#[trigger] ms[j]).owner
}

/// Some move of the batch leaves `c`.
pub open spec fn is_source(ms: Seq<Move>, c: Coordinate) -> bool {
    exists|i: int| 0 <= i < ms.len() && (#[trigger] ms[i]).from == c
}

/// The tile at `c` once every source has been emptied.
pub open spec fn evacuated(b: Spaces, ms: Seq<Move>, c: Coordinate) -> Space {
    if is_source(ms, c) {
        at(b, c).with_units(0)
    } else {
        at(b, c)
    }
}

/// `p` is another player's move along the same edge in the other direction.
pub open spec fn opposes(m: Move, p: Move) -> bool {
    p.owner != m.owner && p.from == m.to && p.to == m.from
}

pub open spec fn has_opponent(ms: Seq<Move>, m: Move) -> bool {
    exists|j: int| 0 <= j < ms.len() && opposes(m, #[trigger] ms[j])
}

pub open spec fn opponent(ms: Seq<Move>, m: Move) -> Move {
    ms[choose|j: int| 0 <= j < ms.len() && opposes(m, #[trigger] ms[j])]
}

/// The units of `m` that are left once a head-on opponent has worn it down.
pub open spec fn surviving(ms: Seq<Move>, m: Move) -> usize {
    if has_opponent(ms, m) {
        let p = opponent(ms, m);
        if m.units <= p.units {
            0
        } else {
            (m.units - p.units) as usize
        }
    } else {
        m.units
    }
}

/// The destination of `m` is held by the holder of its source.
pub open spec fn friendly(b: Spaces, m: Move) -> bool {
    at(b, m.from).spec_owner() == at(b, m.to).spec_owner()
}

pub open spec fn reinforces(b: Spaces, ms: Seq<Move>, m: Move, c: Coordinate) -> bool {
    m.to == c && friendly(b, m) && surviving(ms, m) > 0
}

pub open spec fn reinforced(b: Spaces, ms: Seq<Move>, c: Coordinate) -> bool {
    exists|i: int| 0 <= i < ms.len() && reinforces(b, ms, #[trigger] ms[i], c)
}

/// The tile at `c` after the sources were emptied and friendly moves arrived.
pub open spec fn merged(b: Spaces, ms: Seq<Move>, c: Coordinate) -> Space {
    let e = evacuated(b, ms, c);
    if reinforced(b, ms, c) {
        let m = ms[choose|i: int| 0 <= i < ms.len() && reinforces(b, ms, #[trigger] ms[i], c)];
        e.with_units((e.spec_units() + surviving(ms, m)) as usize)
    } else {
        e
    }
}

pub open spec fn attacks(b: Spaces, ms: Seq<Move>, m: Move, c: Coordinate) -> bool {
    m.to == c && !friendly(b, m) && surviving(ms, m) > 0
}

/// The armies that fight over `c`, each as its player and its units.
pub open spec fn attackers(b: Spaces, ms: Seq<Move>, c: Coordinate) -> Set<(usize, usize)> {
    Set::new(
        |a: (usize, usize)|
            exists|i: int|
                0 <= i < ms.len() && attacks(b, ms, #[trigger] ms[i], c) && a == (
                    ms[i].owner,
                    surviving(ms, ms[i]),
                ),
    )
}

/// `w` has more units than every other army of `a`.
pub open spec fn strongest(a: Set<(usize, usize)>, w: (usize, usize)) -> bool {
    &&& a.contains(w)
    &&& forall|q: (usize, usize)| #[trigger] a.contains(q) && q != w ==> q.1 < w.1
}

/// `r` is the largest army size in `a`, or zero when `a` is empty.
pub open spec fn is_top(a: Set<(usize, usize)>, r: usize) -> bool {
    &&& forall|q: (usize, usize)| #[trigger] a.contains(q) ==> q.1 <= r
    &&& (r == 0 || exists|q: (usize, usize)| #[trigger] a.contains(q) && q.1 == r)
}

/// What is left of a fight between armies: the strongest army, less the
/// size of the runner-up, or nothing when the largest size is shared.
///
/// Taking away the weakest army's size from every army, round after round,
/// leaves exactly this.
pub open spec fn combat(a: Set<(usize, usize)>) -> Option<(usize, usize)> {
    if exists|w: (usize, usize)| strongest(a, w) {
        let w = choose|w: (usize, usize)| strongest(a, w);
        let r = choose|r: usize| is_top(a.remove(w), r);
        Some((w.0, if r < w.1 { (w.1 - r) as usize } else { 0 }))
    } else {
        None
    }
}

/// The outcome at a tile with `def` defenders of an attack by `u` units of `o`.
pub open spec fn assault(t: Space, o: usize, u: usize) -> Space {
    let def = t.spec_units();
    if u > def + 1 {
        t.captured_by(o, (u - def - 1) as usize)
    } else if def > u {
        t.with_units((def - u) as usize)
    } else {
        t.with_units(0)
    }
}

/// The tile at `c` once the whole batch `ms` has been resolved on board `b`.
pub open spec fn resolved_tile(b: Spaces, ms: Seq<Move>, c: Coordinate) -> Space {
    let t = merged(b, ms, c);
    match combat(attackers(b, ms, c)) {
        Some((o, u)) => assault(t, o, u),
        None => t,
    }
}

proof fn lemma_top_unique(a: Set<(usize, usize)>, r1: usize, r2: usize)
    requires
        is_top(a, r1),
        is_top(a, r2),
    ensures
        r1 == r2,
{
    if r1 != 0 {
        let q = choose|q: (usize, usize)| #[trigger] a.contains(q) && q.1 == r1;
        assert(q.1 <= r2);
    }
    if r2 != 0 {
        let q = choose|q: (usize, usize)| #[trigger] a.contains(q) && q.1 == r2;
        assert(q.1 <= r1);
    }
}

proof fn lemma_strongest_unique(a: Set<(usize, usize)>, w1: (usize, usize), w2: (usize, usize))
    requires
        strongest(a, w1),
        strongest(a, w2),
    ensures
        w1 == w2,
{
    if w1 != w2 {
        assert(a.contains(w2));
        assert(a.contains(w1));
    }
}

/// Runs the fight between the armies `att` by wearing down all of them by the
/// weakest one's size until at most one is left.
fn fight(att: &Vec<(usize, usize)>) -> (r: Option<(usize, usize)>)
    requires
        forall|a: int| 0 <= a < att.len() ==> (#[trigger] att[a]).1 > 0,
        forall|a: int, c: int|
            0 <= a < att.len() && 0 <= c < att.len() && a != c ==> (#[trigger] att[a]).0 != (#[trigger] att[c]).0,
    ensures
        r == combat(att@.to_set()),
{
    let n = att.len();
    let mut alive: Vec<usize> = Vec::new();
    let mut k: usize = 0;
    while k < n
        invariant
            n == att.len(),
            k <= n,
            alive.len() == k,
            forall|a: int| 0 <= a < k ==> alive[a] == (#[trigger] att[a]).1,
        decreases n - k,
    {
        alive.push(att[k].1);
        k += 1;
    }
    let ghost mut s: int = 0;
    proof {
        if n > 0 {
            assert(att[0].1 > s);
        }
    }
    loop
        invariant
            n == att.len(),
            alive.len() == n,
            0 <= s <= usize::MAX,
            forall|a: int| 0 <= a < att.len() ==> (#[trigger] att[a]).1 > 0,
            forall|a: int, c: int|
                0 <= a < att.len() && 0 <= c < att.len() && a != c ==> (#[trigger] att[a]).0 != (#[trigger] att[c]).0,
            forall|a: int|
                0 <= a < n ==> #[trigger] alive[a] == if att[a].1 > s {
                    att[a].1 - s
                } else {
                    0
                },
            s == 0 || exists|a: int| 0 <= a < n && (#[trigger] att[a]).1 == s,
            n > 0 ==> {
                ||| exists|a: int| 0 <= a < n && (#[trigger] att[a]).1 > s
                ||| exists|a1: int, a2: int|
                    0 <= a1 < n && 0 <= a2 < n && a1 != a2 && (#[trigger] att[a1]).1 == s && (#[trigger] att[a2]).1
                        == s && forall|a: int| 0 <= a < n ==> (#[trigger] att[a]).1 <= s
            },
        decreases usize::MAX - s,
    {
        let mut count: usize = 0;
        let mut least: usize = 0;
        let mut last: usize = 0;
        let ghost mut first: int = 0;
        let mut k: usize = 0;
        while k < n
            invariant
                n == att.len(),
                alive.len() == n,
                k <= n,
                count <= k,
                count == 0 ==> forall|a: int| 0 <= a < k ==> #[trigger] alive[a] == 0,
                count >= 1 ==> {
                    &&& last < k
                    &&& alive[last as int] > 0
                    &&& least > 0
                    &&& exists|a: int| 0 <= a < k && #[trigger] alive[a] == least
                    &&& forall|a: int| 0 <= a < k && #[trigger] alive[a] > 0 ==> least <= alive[a]
                },
                count == 1 ==> forall|a: int| 0 <= a < k && a != last ==> #[trigger] alive[a] == 0,
                count >= 2 ==> 0 <= first < k && first != last && alive[first] > 0,
            decreases n - k,
        {
            if alive[k] > 0 {
                if count == 0 || alive[k] < least {
                    least = alive[k];
                }
                if count == 1 {
                    proof {
                        first = last as int;
                    }
                }
                last = k;
                count += 1;
            }
            k += 1;
        }
        if count == 0 {
            proof {
                let aset = att@.to_set();
                assert forall|w: (usize, usize)| !strongest(aset, w) by {
                    if strongest(aset, w) {
                        let a = choose|a: int| 0 <= a < n && att[a] == w;
                        assert(alive[a] == 0);
                        assert forall|a: int| 0 <= a < n implies !((#[trigger] att[a]).1 > s) by {
                            assert(alive[a] == 0);
                        }
                        let (a1, a2) = choose|a1: int, a2: int|
                            0 <= a1 < n && 0 <= a2 < n && a1 != a2 && (#[trigger] att[a1]).1 == s && (
                            #[trigger] att[a2]).1 == s && forall|a: int| 0 <= a < n ==> (#[trigger] att[a]).1 <= s;
                        let o = if a1 != a { a1 } else { a2 };
                        assert(att@[o] == att[o]);
                        assert(aset.contains(att[o]));
                        assert(att[o] != w);
                    }
                }
            }
            return None;
        }
        if count == 1 {
            let winner = (att[last].0, alive[last]);
            proof {
                let aset = att@.to_set();
                let w = att[last as int];
                assert(aset.contains(w));
                assert forall|q: (usize, usize)| #[trigger] aset.contains(q) && q != w implies q.1 < w.1 by {
                    let a = choose|a: int| 0 <= a < n && att[a] == q;
                    assert(a != last);
                    assert(alive[a] == 0);
                }
                assert(strongest(aset, w));
                let w2 = choose|w: (usize, usize)| strongest(aset, w);
                lemma_strongest_unique(aset, w, w2);
                let rest = aset.remove(w);
                assert forall|q: (usize, usize)| #[trigger] rest.contains(q) implies q.1 <= s by {
                    let a = choose|a: int| 0 <= a < n && att[a] == q;
                    assert(a != last);
                    assert(alive[a] == 0);
                }
                if s != 0 {
                    let a = choose|a: int| 0 <= a < n && (#[trigger] att[a]).1 == s;
                    assert(att@[a] == att[a]);
                    assert(rest.contains(att[a]));
                }
                assert(is_top(rest, s as usize));
                let r2 = choose|r: usize| is_top(rest, r);
                lemma_top_unique(rest, s as usize, r2);
            }
            return Some(winner);
        }
        let ghost old_alive = alive@;
        let mut k: usize = 0;
        while k < n
            invariant
                n == att.len(),
                alive.len() == n,
                k <= n,
                least > 0,
                old_alive.len() == n,
                forall|a: int| 0 <= a < k ==> #[trigger] alive[a] == if old_alive[a] > 0 { old_alive[a] - least } else { 0 },
                forall|a: int| k <= a < n ==> #[trigger] alive[a] == old_alive[a],
                forall|a: int| 0 <= a < n && #[trigger] old_alive[a] > 0 ==> least <= old_alive[a],
            decreases n - k,
        {
            if alive[k] > 0 {
                let v = alive[k] - least;
                alive.set(k, v);
            }
            k += 1;
        }
        proof {
            s = s + least;
        }
    }
}

/// In a valid batch the head-on opponent of a move, if any, is unique.
proof fn lemma_opponent_unique(b: Spaces, ms: Seq<Move>, m: Move, j: int)
    requires
        valid_batch(b, ms),
        0 <= j < ms.len(),
        opposes(m, ms[j]),
    ensures
        has_opponent(ms, m),
        opponent(ms, m) == ms[j],
{
    let k = choose|k: int| 0 <= k < ms.len() && opposes(m, #[trigger] ms[k]);
    assert(valid_move(b, ms[k]));
    assert(valid_move(b, ms[j]));
    assert(ms[k].owner == ms[j].owner);
}

/// In a valid batch at most one move reinforces a tile: its holder's.
proof fn lemma_reinforcer_unique(b: Spaces, ms: Seq<Move>, c: Coordinate, i: int, k: int)
    requires
        valid_batch(b, ms),
        0 <= i < ms.len(),
        0 <= k < ms.len(),
        reinforces(b, ms, ms[i], c),
        reinforces(b, ms, ms[k], c),
    ensures
        i == k,
{
    assert(valid_move(b, ms[i]));
    assert(valid_move(b, ms[k]));
}

proof fn lemma_merged_by(b: Spaces, ms: Seq<Move>, c: Coordinate, i: int)
    requires
        valid_batch(b, ms),
        0 <= i < ms.len(),
        reinforces(b, ms, ms[i], c),
    ensures
        reinforced(b, ms, c),
        merged(b, ms, c) == evacuated(b, ms, c).with_units(
            (evacuated(b, ms, c).spec_units() + surviving(ms, ms[i])) as usize,
        ),
{
    let k = choose|k: int| 0 <= k < ms.len() && reinforces(b, ms, #[trigger] ms[k], c);
    lemma_reinforcer_unique(b, ms, c, i, k);
}

impl GameState {
    /// Applies one turn's moves to the board, all at once.
    ///
    /// Each source is emptied; two moves along the same edge in opposite
    /// directions cancel each other's units; a move into its player's own
    /// territory adds its units there; the rest fight over their
    /// destinations, and a lone survivor takes a tile only with more than
    /// one unit above its garrison.
    pub fn handle_moves(&mut self, moves: Vec<Move>)
        requires
            valid_batch(old(self).spaces, moves@),
        ensures
            final(self).turn == old(self).turn,
            forall|c: Coordinate|
                in_bounds(c) ==> at(final(self).spaces, c) == resolved_tile(old(self).spaces, moves@, c),
    {
        let ghost b = self.spaces;
        let ghost ms = moves@;
        let n = moves.len();

        // Which moves head into their own player's territory.
        let mut own: Vec<bool> = Vec::new();
        let mut i: usize = 0;
        while i < n
            invariant
                n == ms.len(),
                ms == moves@,
                valid_batch(b, ms),
                self.spaces == b,
                i <= n,
                own.len() == i,
                forall|k: int| 0 <= k < i ==> own[k] == friendly(b, #[trigger] ms[k]),
            decreases n - i,
        {
            let m = moves[i];
            assert(valid_move(b, ms[i as int]));
            let from_owner = tile(&self.spaces, m.from).owner();
            let to_owner = tile(&self.spaces, m.to).owner();
            let same = match (from_owner, to_owner) {
                (Some(p), Some(q)) => p == q,
                (None, None) => true,
                _ => false,
            };
            own.push(same);
            i += 1;
        }

        // Empty every source.
        let mut i: usize = 0;
        while i < n
            invariant
                n == ms.len(),
                ms == moves@,
                valid_batch(b, ms),
                i <= n,
                self.turn == old(self).turn,
                forall|c: Coordinate|
                    in_bounds(c) ==> at(self.spaces, c) == if exists|k: int|
                        0 <= k < i && (#[trigger] ms[k]).from == c {
                        at(b, c).with_units(0)
                    } else {
                        at(b, c)
                    },
            decreases n - i,
        {
            let m = moves[i];
            assert(valid_move(b, ms[i as int]));
            let mut t = tile(&self.spaces, m.from);
            t.unsafe_set_units(0);
            put_tile(&mut self.spaces, m.from, t);
            proof {
                assert forall|c: Coordinate| in_bounds(c) implies at(self.spaces, c) == if exists|k: int|
                    0 <= k < i + 1 && (#[trigger] ms[k]).from == c {
                    at(b, c).with_units(0)
                } else {
                    at(b, c)
                } by {
                    if c == m.from {
                        assert(ms[i as int].from == c);
                    } else if exists|k: int| 0 <= k < i + 1 && (#[trigger] ms[k]).from == c {
                        let k = choose|k: int| 0 <= k < i + 1 && (#[trigger] ms[k]).from == c;
                        assert(k < i);
                    }
                }
            }
            i += 1;
        }
        assert forall|c: Coordinate| in_bounds(c) implies at(self.spaces, c) == evacuated(b, ms, c) by {
            if is_source(ms, c) {
                let k = choose|k: int| 0 <= k < ms.len() && (#[trigger] ms[k]).from == c;
                assert(0 <= k < n);
            }
        }

        // What each move keeps after meeting a head-on opponent.
        let mut left: Vec<usize> = Vec::new();
        let mut i: usize = 0;
        while i < n
            invariant
                n == ms.len(),
                ms == moves@,
                valid_batch(b, ms),
                i <= n,
                left.len() == i,
                forall|k: int| 0 <= k < i ==> left[k] == surviving(ms, #[trigger] ms[k]),
            decreases n - i,
        {
            let m = moves[i];
            let mut kept = m.units;
            let mut j: usize = 0;
            while j < n
                invariant
                    n == ms.len(),
                    ms == moves@,
                    valid_batch(b, ms),
                    m == ms[i as int],
                    i < n,
                    j <= n,
                    kept == surviving(ms, m) || forall|k: int| 0 <= k < j ==> !opposes(m, #[trigger] ms[k]),
                    kept != surviving(ms, m) ==> kept == m.units,
                decreases n - j,
            {
                let p = moves[j];
                if p.owner != m.owner && p.from == m.to && p.to == m.from {
                    proof {
                        lemma_opponent_unique(b, ms, m, j as int);
                    }
                    kept = if m.units <= p.units { 0 } else { m.units - p.units };
                }
                j += 1;
            }
            left.push(kept);
            i += 1;
        }

        // Friendly moves add their units to their destination.
        let mut i: usize = 0;
        while i < n
            invariant
                n == ms.len(),
                ms == moves@,
                valid_batch(b, ms),
                i <= n,
                self.turn == old(self).turn,
                own.len() == n,
                left.len() == n,
                forall|k: int| 0 <= k < n ==> own[k] == friendly(b, #[trigger] ms[k]),
                forall|k: int| 0 <= k < n ==> left[k] == surviving(ms, #[trigger] ms[k]),
                forall|c: Coordinate|
                    in_bounds(c) ==> at(self.spaces, c) == if exists|k: int|
                        0 <= k < i && reinforces(b, ms, #[trigger] ms[k], c) {
                        merged(b, ms, c)
                    } else {
                        evacuated(b, ms, c)
                    },
            decreases n - i,
        {
            if own[i] && left[i] > 0 {
                let m = moves[i];
                assert(valid_move(b, ms[i as int]));
                let ghost c = m.to;
                proof {
                    assert(reinforces(b, ms, ms[i as int], c));
                    if exists|k: int| 0 <= k < i && reinforces(b, ms, #[trigger] ms[k], c) {
                        let k = choose|k: int| 0 <= k < i && reinforces(b, ms, #[trigger] ms[k], c);
                        lemma_reinforcer_unique(b, ms, c, i as int, k);
                    }
                    lemma_merged_by(b, ms, c, i as int);
                }
                let mut t = tile(&self.spaces, m.to);
                let g = t.get_units();
                t.unsafe_set_units(g + left[i]);
                put_tile(&mut self.spaces, m.to, t);
                proof {
                    assert forall|d: Coordinate| in_bounds(d) implies at(self.spaces, d) == if exists|k: int|
                        0 <= k < i + 1 && reinforces(b, ms, #[trigger] ms[k], d) {
                        merged(b, ms, d)
                    } else {
                        evacuated(b, ms, d)
                    } by {
                        if d != c {
                            if exists|k: int| 0 <= k < i + 1 && reinforces(b, ms, #[trigger] ms[k], d) {
                                let k = choose|k: int| 0 <= k < i + 1 && reinforces(b, ms, #[trigger] ms[k], d);
                                assert(k != i);
                            }
                        }
                    }
                }
            } else {
                proof {
                    assert forall|d: Coordinate| in_bounds(d) implies at(self.spaces, d) == if exists|k: int|
                        0 <= k < i + 1 && reinforces(b, ms, #[trigger] ms[k], d) {
                        merged(b, ms, d)
                    } else {
                        evacuated(b, ms, d)
                    } by {
                        if exists|k: int| 0 <= k < i + 1 && reinforces(b, ms, #[trigger] ms[k], d) {
                            let k = choose|k: int| 0 <= k < i + 1 && reinforces(b, ms, #[trigger] ms[k], d);
                            assert(k != i);
                        }
                    }
                }
            }
            i += 1;
        }
        assert forall|c: Coordinate| in_bounds(c) implies at(self.spaces, c) == merged(b, ms, c) by {
            if reinforced(b, ms, c) {
                let k = choose|k: int| 0 <= k < ms.len() && reinforces(b, ms, #[trigger] ms[k], c);
                assert(0 <= k < n);
            }
        }
        self.fight_over_destinations(Ghost(b), &moves, &own, &left);
    }

    /// The fights of the last phase, one for each destination under attack.
    fn fight_over_destinations(
        &mut self,
        Ghost(b): Ghost<Spaces>,
        moves: &Vec<Move>,
        own: &Vec<bool>,
        left: &Vec<usize>,
    )
        requires
            valid_batch(b, moves@),
            own.len() == moves.len(),
            left.len() == moves.len(),
            forall|k: int| 0 <= k < moves.len() ==> own[k] == friendly(b, #[trigger] moves@[k]),
            forall|k: int| 0 <= k < moves.len() ==> left[k] == surviving(moves@, #[trigger] moves@[k]),
            forall|c: Coordinate| in_bounds(c) ==> at(old(self).spaces, c) == merged(b, moves@, c),
        ensures
            final(self).turn == old(self).turn,
            forall|c: Coordinate| in_bounds(c) ==> at(final(self).spaces, c) == resolved_tile(b, moves@, c),
    {
        let ghost ms = moves@;
        let n = moves.len();
        let mut i: usize = 0;
        while i < n
            invariant
                n == ms.len(),
                ms == moves@,
                valid_batch(b, ms),
                i <= n,
                own.len() == n,
                left.len() == n,
                self.turn == old(self).turn,
                forall|k: int| 0 <= k < n ==> own[k] == friendly(b, #[trigger] ms[k]),
                forall|k: int| 0 <= k < n ==> left[k] == surviving(ms, #[trigger] ms[k]),
                forall|c: Coordinate|
                    in_bounds(c) ==> at(self.spaces, c) == if exists|k: int|
                        0 <= k < i && attacks(b, ms, #[trigger] ms[k], c) {
                        resolved_tile(b, ms, c)
                    } else {
                        merged(b, ms, c)
                    },
            decreases n - i,
        {
            if !own[i] && left[i] > 0 {
                let c = moves[i].to;
                assert(valid_move(b, ms[i as int]));
                assert(attacks(b, ms, ms[i as int], c));
                let mut seen = false;
                let mut j: usize = 0;
                while j < i
                    invariant
                        n == ms.len(),
                        ms == moves@,
                        i < n,
                        j <= i,
                        own.len() == n,
                        left.len() == n,
                        forall|k: int| 0 <= k < n ==> own[k] == friendly(b, #[trigger] ms[k]),
                        forall|k: int| 0 <= k < n ==> left[k] == surviving(ms, #[trigger] ms[k]),
                        seen == exists|k: int| 0 <= k < j && attacks(b, ms, #[trigger] ms[k], c),
                    decreases i - j,
                {
                    if !own[j] && left[j] > 0 && moves[j].to == c {
                        seen = true;
                    }
                    j += 1;
                }
                if !seen {
                    // Every army that fights over `c`.
                    let mut armies: Vec<(usize, usize)> = Vec::new();
                    let ghost mut origin: Seq<int> = Seq::empty();
                    let mut j: usize = 0;
                    while j < n
                        invariant
                            n == ms.len(),
                            ms == moves@,
                            valid_batch(b, ms),
                            j <= n,
                            own.len() == n,
                            left.len() == n,
                            forall|k: int| 0 <= k < n ==> own[k] == friendly(b, #[trigger] ms[k]),
                            forall|k: int| 0 <= k < n ==> left[k] == surviving(ms, #[trigger] ms[k]),
                            origin.len() == armies.len(),
                            forall|a: int|
                                0 <= a < armies.len() ==> 0 <= #[trigger] origin[a] < j && attacks(
                                    b,
                                    ms,
                                    ms[origin[a]],
                                    c,
                                ) && armies[a] == (ms[origin[a]].owner, surviving(ms, ms[origin[a]])),
                            forall|a: int, e: int|
                                0 <= a < e < armies.len() ==> #[trigger] origin[a] < #[trigger] origin[e],
                            forall|k: int|
                                0 <= k < j && attacks(b, ms, #[trigger] ms[k], c) ==> armies@.contains(
                                    (ms[k].owner, surviving(ms, ms[k])),
                                ),
                        decreases n - j,
                    {
                        if !own[j] && left[j] > 0 && moves[j].to == c {
                            let ghost before = armies@;
                            armies.push((moves[j].owner, left[j]));
                            proof {
                                origin = origin.push(j as int);
                                assert forall|k: int|
                                    0 <= k < j + 1 && attacks(b, ms, #[trigger] ms[k], c) implies armies@.contains(
                                    (ms[k].owner, surviving(ms, ms[k])),
                                ) by {
                                    if k < j {
                                        let a = choose|a: int| 0 <= a < before.len() && before[a] == (
                                            ms[k].owner,
                                            surviving(ms, ms[k]),
                                        );
                                        assert(armies@[a] == before[a]);
                                    } else {
                                        assert(armies@[armies.len() - 1] == (ms[k].owner, surviving(ms, ms[k])));
                                    }
                                }
                            }
                        }
                        j += 1;
                    }
                    proof {
                        assert forall|a: int, e: int|
                            0 <= a < armies.len() && 0 <= e < armies.len() && a != e implies (
                            #[trigger] armies[a]).0 != (#[trigger] armies[e]).0 by {
                            if a < e {
                                assert(origin[a] < origin[e]);
                            } else {
                                assert(origin[e] < origin[a]);
                            }
                        }
                        assert forall|a: int| 0 <= a < armies.len() implies (#[trigger] armies[a]).1 > 0 by {
                            assert(attacks(b, ms, ms[origin[a]], c));
                        }
                        assert(armies@.to_set() =~= attackers(b, ms, c)) by {
                            assert forall|q: (usize, usize)| #[trigger] attackers(b, ms, c).contains(q) implies armies@.contains(q) by {
                                let k = choose|k: int|
                                    0 <= k < ms.len() && attacks(b, ms, #[trigger] ms[k], c) && q == (
                                        ms[k].owner,
                                        surviving(ms, ms[k]),
                                    );
                                assert(0 <= k < j);
                            }
                            assert forall|q: (usize, usize)| armies@.contains(q) implies #[trigger] attackers(b, ms, c).contains(q) by {
                                let a = choose|a: int| 0 <= a < armies.len() && armies@[a] == q;
                                assert(attacks(b, ms, ms[origin[a]], c));
                            }
                        }
                    }
                    let outcome = fight(&armies);
                    let t = tile(&self.spaces, c);
                    let result = match outcome {
                        None => t,
                        Some((o, u)) => {
                            let def = t.get_units();
                            if u > def && u - def > 1 {
                                t.captured(o, u - def - 1)
                            } else if def > u {
                                t.with_garrison(def - u)
                            } else {
                                t.with_garrison(0)
                            }
                        },
                    };
                    put_tile(&mut self.spaces, c, result);
                    proof {
                        assert forall|d: Coordinate| in_bounds(d) implies at(self.spaces, d) == if exists|k: int|
                            0 <= k < i + 1 && attacks(b, ms, #[trigger] ms[k], d) {
                            resolved_tile(b, ms, d)
                        } else {
                            merged(b, ms, d)
                        } by {
                            if d != c {
                                if exists|k: int| 0 <= k < i + 1 && attacks(b, ms, #[trigger] ms[k], d) {
                                    let k = choose|k: int| 0 <= k < i + 1 && attacks(b, ms, #[trigger] ms[k], d);
                                    assert(k != i);
                                }
                            } else {
                                assert(attacks(b, ms, ms[i as int], d));
                            }
                        }
                    }
                } else {
                    proof {
                        assert forall|d: Coordinate| in_bounds(d) implies at(self.spaces, d) == if exists|k: int|
                            0 <= k < i + 1 && attacks(b, ms, #[trigger] ms[k], d) {
                            resolved_tile(b, ms, d)
                        } else {
                            merged(b, ms, d)
                        } by {
                            if exists|k: int| 0 <= k < i + 1 && attacks(b, ms, #[trigger] ms[k], d) {
                                if d != c {
                                    let k = choose|k: int| 0 <= k < i + 1 && attacks(b, ms, #[trigger] ms[k], d);
                                    assert(k != i);
                                } else {
                                    let k = choose|k: int| 0 <= k < i && attacks(b, ms, #[trigger] ms[k], c);
                                    assert(0 <= k < i);
                                }
                            }
                        }
                    }
                }
            } else {
                proof {
                    assert forall|d: Coordinate| in_bounds(d) implies at(self.spaces, d) == if exists|k: int|
                        0 <= k < i + 1 && attacks(b, ms, #[trigger] ms[k], d) {
                        resolved_tile(b, ms, d)
                    } else {
                        merged(b, ms, d)
                    } by {
                        if exists|k: int| 0 <= k < i + 1 && attacks(b, ms, #[trigger] ms[k], d) {
                            let k = choose|k: int| 0 <= k < i + 1 && attacks(b, ms, #[trigger] ms[k], d);
                            assert(k != i);
                        }
                    }
                }
            }
            i += 1;
        }
        assert forall|c: Coordinate| in_bounds(c) implies at(self.spaces, c) == resolved_tile(b, ms, c) by {
            if !exists|k: int| 0 <= k < n && attacks(b, ms, #[trigger] ms[k], c) {
                assert forall|w: (usize, usize)| !strongest(attackers(b, ms, c), w) by {
                    if attackers(b, ms, c).contains(w) {
                        let k = choose|k: int|
                            0 <= k < ms.len() && attacks(b, ms, #[trigger] ms[k], c) && w == (
                                ms[k].owner,
                                surviving(ms, ms[k]),
                            );
                    }
                }
            }
        }
    }
}

} // verus!
