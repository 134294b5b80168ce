//! Properties of a turn's resolution that hold for every board and batch.
use vstd::prelude::*;
use crate::world::{Coordinate, Space, Spaces, at, in_bounds};
use crate::game_state::Move;
use crate::regen::{LAND_PERIOD, TOWN_PERIOD, regenerated};
use crate::turn::batch;
use crate::tally::{garrison_of, lemma_tally_change, lemma_tally_same, total_units};
use crate::world::BOARD_SIZE;
use vstd::arithmetic::div_mod::{lemma_fundamental_div_mod, lemma_fundamental_div_mod_converse, lemma_mod_pos_bound};
use crate::resolve::{
    assault, attackers, attacks, combat, evacuated, friendly, has_opponent, is_source, is_top, merged,
    opponent, opposes, reinforced, reinforces, resolved_tile, strongest, surviving, valid_batch, valid_move,
};

verus! {

/// The fight of a lone army is won by it, whole.
proof fn lemma_combat_single(o: usize, u: usize)
    requires
        u > 0,
    ensures
        combat(set![(o, u)]) == Some((o, u)),
{
    let a = set![(o, u)];
    let w = (o, u);
    assert(strongest(a, w));
    let w2 = choose|w: (usize, usize)| strongest(a, w);
    assert(a.contains(w2));
    let rest = a.remove(w);
    assert(rest =~= Set::<(usize, usize)>::empty());
    assert(is_top(rest, 0));
    let r = choose|r: usize| is_top(rest, r);
    if r != 0 {
        let q = choose|q: (usize, usize)| #[trigger] rest.contains(q) && q.1 == r;
        assert(rest.contains(q));
    }
}

/// Nobody fights over a tile that no army attacks.
proof fn lemma_combat_none()
    ensures
        combat(Set::<(usize, usize)>::empty()) is None,
{
}

/// An attack that brings exactly one unit more than the garrison it meets
/// leaves the tile with its holder, and with no units at all.
pub proof fn defender_bonus_boundary(b: Spaces, ms: Seq<Move>, c: Coordinate, o: usize, u: usize)
    requires
        valid_batch(b, ms),
        in_bounds(c),
        combat(attackers(b, ms, c)) == Some((o, u)),
        u == merged(b, ms, c).spec_units() + 1,
    ensures
        resolved_tile(b, ms, c).spec_owner() == at(b, c).spec_owner(),
        resolved_tile(b, ms, c).spec_units() == 0,
{
    let e = evacuated(b, ms, c);
    assert(e.spec_owner() == at(b, c).spec_owner());
    let t = merged(b, ms, c);
    assert(t.spec_owner() == at(b, c).spec_owner());
    assert(resolved_tile(b, ms, c) == assault(t, o, u));
}

/// Two players moving head-on between their tiles `a` and `c`, each with
/// its whole garrison: both lose the smaller garrison, so at most one side
/// keeps units, and those go on into the other tile, which they take only
/// with more than one unit.
pub proof fn head_on_swap(b: Spaces, a: Coordinate, c: Coordinate, p: usize, q: usize)
    requires
        in_bounds(a),
        in_bounds(c),
        p != q,
        at(b, a).spec_owner() == Some(p),
        at(b, c).spec_owner() == Some(q),
        at(b, a).spec_units() + at(b, c).spec_units() <= usize::MAX,
    ensures
        ({
            let ga = at(b, a).spec_units();
            let gc = at(b, c).spec_units();
            let m1 = Move { owner: p, units: ga, from: a, to: c };
            let m2 = Move { owner: q, units: gc, from: c, to: a };
            let ms = seq![m1, m2];
            &&& valid_batch(b, ms)
            &&& surviving(ms, m1) == if ga > gc { ga - gc } else { 0 }
            &&& surviving(ms, m2) == if gc > ga { gc - ga } else { 0 }
            &&& surviving(ms, m1) == 0 || surviving(ms, m2) == 0
            &&& resolved_tile(b, ms, c) == if ga > gc + 1 {
                at(b, c).captured_by(p, (ga - gc - 1) as usize)
            } else {
                at(b, c).with_units(0)
            }
            &&& resolved_tile(b, ms, a) == if gc > ga + 1 {
                at(b, a).captured_by(q, (gc - ga - 1) as usize)
            } else {
                at(b, a).with_units(0)
            }
        }),
{
    let ga = at(b, a).spec_units();
    let gc = at(b, c).spec_units();
    let m1 = Move { owner: p, units: ga, from: a, to: c };
    let m2 = Move { owner: q, units: gc, from: c, to: a };
    let ms = seq![m1, m2];
    assert(ms[0] == m1 && ms[1] == m2);
    assert(a != c);
    assert(valid_move(b, m1));
    assert(valid_move(b, m2));
    assert(valid_batch(b, ms));
    assert(opposes(m1, ms[1]));
    assert(opposes(m2, ms[0]));
    let j1 = choose|j: int| 0 <= j < ms.len() && opposes(m1, #[trigger] ms[j]);
    let j2 = choose|j: int| 0 <= j < ms.len() && opposes(m2, #[trigger] ms[j]);
    assert(opponent(ms, m1) == m2);
    assert(opponent(ms, m2) == m1);
    let s1 = surviving(ms, m1);
    let s2 = surviving(ms, m2);
    assert(!friendly(b, m1) && !friendly(b, m2));
    // Both tiles are sources and neither is reinforced.
    assert(is_source(ms, c)) by {
        assert(ms[1].from == c);
    }
    assert(is_source(ms, a)) by {
        assert(ms[0].from == a);
    }
    assert(!reinforced(b, ms, c));
    assert(!reinforced(b, ms, a));
    // What fights over each tile.
    if s1 > 0 {
        assert(attackers(b, ms, c) =~= set![(p, s1)]) by {
            assert(attacks(b, ms, ms[0], c));
        }
        lemma_combat_single(p, s1);
    } else {
        assert(attackers(b, ms, c) =~= Set::<(usize, usize)>::empty());
        lemma_combat_none();
    }
    if s2 > 0 {
        assert(attackers(b, ms, a) =~= set![(q, s2)]) by {
            assert(attacks(b, ms, ms[1], a));
        }
        lemma_combat_single(q, s2);
    } else {
        assert(attackers(b, ms, a) =~= Set::<(usize, usize)>::empty());
        lemma_combat_none();
    }
}

/// A reordering of a valid batch is a valid batch with the same moves.
proof fn lemma_reordered_batch(b: Spaces, ms: Seq<Move>, ms2: Seq<Move>)
    requires
        valid_batch(b, ms),
        ms2.to_multiset() == ms.to_multiset(),
    ensures
        valid_batch(b, ms2),
        forall|x: Move| ms.contains(x) <==> ms2.contains(x),
{
    ms.to_multiset_ensures();
    ms2.to_multiset_ensures();
    assert forall|x: Move| ms.contains(x) <==> ms2.contains(x) by {
        broadcast use vstd::seq_lib::group_to_multiset_ensures;

        assert(ms.contains(x) <==> ms.to_multiset().count(x) > 0);
        assert(ms2.contains(x) <==> ms2.to_multiset().count(x) > 0);
    }
    assert forall|i: int, j: int| 0 <= i < ms.len() && 0 <= j < ms.len() && i != j implies ms[i] != ms[j] by {
        assert(ms[i].owner != ms[j].owner);
    }
    assert(ms.no_duplicates());
    ms.lemma_multiset_has_no_duplicates();
    ms2.lemma_multiset_has_no_duplicates_conv();
    assert forall|i: int| 0 <= i < ms2.len() implies valid_move(b, #[trigger] ms2[i]) by {
        assert(ms2.contains(ms2[i]));
        assert(ms.contains(ms2[i]));
        let k = choose|k: int| 0 <= k < ms.len() && ms[k] == ms2[i];
        assert(valid_move(b, ms[k]));
    }
    assert forall|i: int, j: int|
        0 <= i < ms2.len() && 0 <= j < ms2.len() && i != j implies (#[trigger] ms2[i]).owner != (
        #[trigger] ms2[j]).owner by {
        assert(ms2.contains(ms2[i]));
        assert(ms2.contains(ms2[j]));
        assert(ms.contains(ms2[i]));
        assert(ms.contains(ms2[j]));
        let k = choose|k: int| 0 <= k < ms.len() && ms[k] == ms2[i];
        let l = choose|l: int| 0 <= l < ms.len() && ms[l] == ms2[j];
        assert(ms2[i] != ms2[j]);
    }
}

/// Two moves of a valid batch that are both the head-on opponent of `m` are the same move.
proof fn lemma_one_opponent(b: Spaces, ms: Seq<Move>, m: Move, x: Move, y: Move)
    requires
        valid_batch(b, ms),
        ms.contains(x),
        ms.contains(y),
        opposes(m, x),
        opposes(m, y),
    ensures
        x == y,
{
    let k = choose|k: int| 0 <= k < ms.len() && ms[k] == x;
    let l = choose|l: int| 0 <= l < ms.len() && ms[l] == y;
    assert(valid_move(b, ms[k]));
    assert(valid_move(b, ms[l]));
}

/// Two moves of a valid batch that both reinforce `c` are the same move.
proof fn lemma_one_reinforcer(b: Spaces, ms: Seq<Move>, c: Coordinate, x: Move, y: Move)
    requires
        valid_batch(b, ms),
        ms.contains(x),
        ms.contains(y),
        x.to == c && friendly(b, x),
        y.to == c && friendly(b, y),
    ensures
        x == y,
{
    let k = choose|k: int| 0 <= k < ms.len() && ms[k] == x;
    let l = choose|l: int| 0 <= l < ms.len() && ms[l] == y;
    assert(valid_move(b, ms[k]));
    assert(valid_move(b, ms[l]));
}

/// Resolving a batch does not depend on the order of its moves.
pub proof fn resolve_ignores_order(b: Spaces, ms: Seq<Move>, ms2: Seq<Move>, c: Coordinate)
    requires
        valid_batch(b, ms),
        ms2.to_multiset() == ms.to_multiset(),
        in_bounds(c),
    ensures
        resolved_tile(b, ms2, c) == resolved_tile(b, ms, c),
{
    lemma_reordered_batch(b, ms, ms2);
    assert forall|m: Move| #[trigger] surviving(ms2, m) == surviving(ms, m) by {
        if has_opponent(ms, m) {
            let j = choose|j: int| 0 <= j < ms.len() && opposes(m, #[trigger] ms[j]);
            assert(ms.contains(ms[j]));
            assert(ms2.contains(ms[j]));
            let j2 = choose|j2: int| 0 <= j2 < ms2.len() && ms2[j2] == ms[j];
            assert(opposes(m, ms2[j2]));
            assert(has_opponent(ms2, m));
            let o2 = opponent(ms2, m);
            let k2 = choose|k: int| 0 <= k < ms2.len() && opposes(m, #[trigger] ms2[k]);
            assert(ms2.contains(ms2[k2]));
            lemma_one_opponent(b, ms, m, opponent(ms, m), ms2[k2]);
        } else if has_opponent(ms2, m) {
            let j = choose|j: int| 0 <= j < ms2.len() && opposes(m, #[trigger] ms2[j]);
            assert(ms2.contains(ms2[j]));
            assert(ms.contains(ms2[j]));
            let j1 = choose|j1: int| 0 <= j1 < ms.len() && ms[j1] == ms2[j];
            assert(opposes(m, ms[j1]));
        }
    }
    assert(is_source(ms2, c) == is_source(ms, c)) by {
        if is_source(ms, c) {
            let i = choose|i: int| 0 <= i < ms.len() && (#[trigger] ms[i]).from == c;
            assert(ms.contains(ms[i]));
            let i2 = choose|i2: int| 0 <= i2 < ms2.len() && ms2[i2] == ms[i];
        }
        if is_source(ms2, c) {
            let i = choose|i: int| 0 <= i < ms2.len() && (#[trigger] ms2[i]).from == c;
            assert(ms2.contains(ms2[i]));
            let i1 = choose|i1: int| 0 <= i1 < ms.len() && ms[i1] == ms2[i];
        }
    }
    assert(evacuated(b, ms2, c) == evacuated(b, ms, c));
    assert(reinforced(b, ms2, c) == reinforced(b, ms, c)) by {
        if reinforced(b, ms, c) {
            let i = choose|i: int| 0 <= i < ms.len() && reinforces(b, ms, #[trigger] ms[i], c);
            assert(ms.contains(ms[i]));
            let i2 = choose|i2: int| 0 <= i2 < ms2.len() && ms2[i2] == ms[i];
            assert(reinforces(b, ms2, ms2[i2], c));
        }
        if reinforced(b, ms2, c) {
            let i = choose|i: int| 0 <= i < ms2.len() && reinforces(b, ms2, #[trigger] ms2[i], c);
            assert(ms2.contains(ms2[i]));
            let i1 = choose|i1: int| 0 <= i1 < ms.len() && ms[i1] == ms2[i];
            assert(reinforces(b, ms, ms[i1], c));
        }
    }
    assert(merged(b, ms2, c) == merged(b, ms, c)) by {
        if reinforced(b, ms, c) {
            let i = choose|i: int| 0 <= i < ms.len() && reinforces(b, ms, #[trigger] ms[i], c);
            let i2 = choose|i: int| 0 <= i < ms2.len() && reinforces(b, ms2, #[trigger] ms2[i], c);
            assert(ms.contains(ms[i]));
            assert(ms2.contains(ms2[i2]));
            lemma_one_reinforcer(b, ms, c, ms[i], ms2[i2]);
        }
    }
    assert(attackers(b, ms2, c) =~= attackers(b, ms, c)) by {
        assert forall|a: (usize, usize)| #[trigger] attackers(b, ms, c).contains(a) implies attackers(b, ms2, c).contains(a) by {
            let i = choose|i: int|
                0 <= i < ms.len() && attacks(b, ms, #[trigger] ms[i], c) && a == (ms[i].owner, surviving(ms, ms[i]));
            assert(ms.contains(ms[i]));
            let i2 = choose|i2: int| 0 <= i2 < ms2.len() && ms2[i2] == ms[i];
            assert(attacks(b, ms2, ms2[i2], c));
        }
        assert forall|a: (usize, usize)| #[trigger] attackers(b, ms2, c).contains(a) implies attackers(b, ms, c).contains(a) by {
            let i = choose|i: int|
                0 <= i < ms2.len() && attacks(b, ms2, #[trigger] ms2[i], c) && a == (ms2[i].owner, surviving(ms2, ms2[i]));
            assert(ms2.contains(ms2[i]));
            let i1 = choose|i1: int| 0 <= i1 < ms.len() && ms[i1] == ms2[i];
            assert(attacks(b, ms, ms[i1], c));
        }
    }
}

/// A turn in which no player moves leaves every tile as it was before the
/// garrisons grow.
pub proof fn quiet_turn(b: Spaces, props: Seq<Option<(Coordinate, Coordinate)>>, c: Coordinate)
    requires
        in_bounds(c),
        forall|p: int| 0 <= p < props.len() ==> #[trigger] props[p] is None,
    ensures
        batch(b, props) == Seq::<Move>::empty(),
        resolved_tile(b, batch(b, props), c) == at(b, c),
    decreases props.len(),
{
    if props.len() > 0 {
        quiet_turn(b, props.drop_last(), c);
        assert(props.last() is None);
    }
    let ms = Seq::<Move>::empty();
    assert(attackers(b, ms, c) =~= Set::<(usize, usize)>::empty());
    lemma_combat_none();
}

/// The tile after `k` turns without moves, the first of them turn `t0`.
pub open spec fn idle_tile(t: Space, t0: int, k: nat) -> Space
    decreases k,
{
    if k == 0 {
        t
    } else {
        idle_tile(regenerated(t, t0), t0 + 1, (k - 1) as nat)
    }
}

/// How many of the `k` turns from `t0` on are multiples of `n`.
pub open spec fn multiples_between(t0: int, k: nat, n: int) -> nat
    decreases k,
{
    if k == 0 {
        0
    } else {
        multiples_between(t0, (k - 1) as nat, n) + if (t0 + k - 1) % n == 0 {
            1nat
        } else {
            0nat
        }
    }
}

/// Over `k` turns without moves a capital gains `k` units, a player town one
/// for each even turn, and open land one for each turn that is a multiple of
/// 25; no other tile changes, and no tile changes hands.
pub proof fn regeneration_cadence(t: Space, t0: int, k: nat)
    requires
        t.spec_units() + k <= usize::MAX,
    ensures
        idle_tile(t, t0, k).spec_owner() == t.spec_owner(),
        t is PlayerCapital ==> idle_tile(t, t0, k) == t.with_units((t.spec_units() + k) as usize),
        t is PlayerTown ==> idle_tile(t, t0, k) == t.with_units(
            (t.spec_units() + multiples_between(t0, k, TOWN_PERIOD as int)) as usize,
        ),
        t is PlayerEmpty ==> idle_tile(t, t0, k) == t.with_units(
            (t.spec_units() + multiples_between(t0, k, LAND_PERIOD as int)) as usize,
        ),
        t.spec_owner() is None ==> idle_tile(t, t0, k) == t,
    decreases k,
{
    if k > 0 {
        let t1 = regenerated(t, t0);
        regeneration_cadence(t1, t0 + 1, (k - 1) as nat);
        lemma_multiples_shift(t0, k, TOWN_PERIOD as int);
        lemma_multiples_shift(t0, k, LAND_PERIOD as int);
    }
}

/// Counting from the first turn or dropping it.
proof fn lemma_multiples_shift(t0: int, k: nat, n: int)
    requires
        k > 0,
    ensures
        multiples_between(t0, k, n) == multiples_between(t0 + 1, (k - 1) as nat, n) + if t0 % n == 0 {
            1nat
        } else {
            0nat
        },
    decreases k,
{
    if k == 1 {
        assert(multiples_between(t0, 0, n) == 0);
    }
    if k > 1 {
        lemma_multiples_shift(t0, (k - 1) as nat, n);
        assert(multiples_between(t0 + 1, (k - 1) as nat, n) == multiples_between(t0 + 1, (k - 2) as nat, n) + if (t0
            + 1 + (k - 1) - 1) % n == 0 {
            1nat
        } else {
            0nat
        });
        assert(multiples_between(t0, k, n) == multiples_between(t0, (k - 1) as nat, n) + if (t0 + k - 1) % n == 0 {
            1nat
        } else {
            0nat
        });
    }
}

proof fn lemma_ceiling_step(m: int, n: int)
    requires
        m >= 0,
        n > 0,
    ensures
        (m + n) / n - (m + n - 1) / n == if m % n == 0 {
            1int
        } else {
            0int
        },
{
    let q = m / n;
    let r = m % n;
    lemma_fundamental_div_mod(m, n);
    lemma_mod_pos_bound(m, n);
    assert(m + n == (q + 1) * n + r) by (nonlinear_arith)
        requires
            m == n * q + r,
    ;
    lemma_fundamental_div_mod_converse(m + n, n, q + 1, r);
    if r == 0 {
        assert(m + n - 1 == q * n + (n - 1)) by (nonlinear_arith)
            requires
                m == n * q + r,
                r == 0,
        ;
        lemma_fundamental_div_mod_converse(m + n - 1, n, q, n - 1);
    } else {
        assert(m + n - 1 == (q + 1) * n + (r - 1)) by (nonlinear_arith)
            requires
                m == n * q + r,
        ;
        lemma_fundamental_div_mod_converse(m + n - 1, n, q + 1, r - 1);
    }
}

/// The multiples of `n` among `k` turns from `t0` on, in closed form.
proof fn lemma_multiples_closed(t0: int, k: nat, n: int)
    requires
        t0 >= 0,
        n > 0,
    ensures
        multiples_between(t0, k, n) == (t0 + k + n - 1) / n - (t0 + n - 1) / n,
    decreases k,
{
    if k > 0 {
        lemma_multiples_closed(t0, (k - 1) as nat, n);
        lemma_ceiling_step(t0 + k - 1, n);
    }
}

/// The growth of a town (`n` = 2) or of open land (`n` = 25) over `k` idle
/// turns from `t0` is `k / n`, plus one when `t0` is a multiple of `n`,
/// exactly when `t0` is a multiple of `n` and `k` is not, or when `t0` is
/// not and `t0 % n + k % n` is at most `n`.
pub proof fn growth_count(t0: int, k: nat, n: int)
    requires
        t0 >= 0,
        n > 0,
        (t0 % n == 0 && (k as int) % n != 0) || (t0 % n != 0 && t0 % n + (k as int) % n <= n),
    ensures
        multiples_between(t0, k, n) == (k as int) / n + if t0 % n == 0 {
            1int
        } else {
            0int
        },
{
    lemma_multiples_closed(t0, k, n);
    let a = t0 / n;
    let r = t0 % n;
    let q = (k as int) / n;
    let s = (k as int) % n;
    lemma_fundamental_div_mod(t0, n);
    lemma_fundamental_div_mod(k as int, n);
    lemma_mod_pos_bound(t0, n);
    lemma_mod_pos_bound(k as int, n);
    if r == 0 {
        // s >= 1, so r + s + n - 1 lies in [n, 2n - 2].
        assert(t0 + k + n - 1 == (a + q + 1) * n + (s - 1)) by (nonlinear_arith)
            requires
                t0 == n * a + r,
                k == n * q + s,
                r == 0,
        ;
        lemma_fundamental_div_mod_converse(t0 + k + n - 1, n, a + q + 1, s - 1);
        assert(t0 + n - 1 == a * n + (n - 1)) by (nonlinear_arith)
            requires
                t0 == n * a + r,
                r == 0,
        ;
        lemma_fundamental_div_mod_converse(t0 + n - 1, n, a, n - 1);
    } else {
        assert(t0 + n - 1 == (a + 1) * n + (r - 1)) by (nonlinear_arith)
            requires
                t0 == n * a + r,
        ;
        lemma_fundamental_div_mod_converse(t0 + n - 1, n, a + 1, r - 1);
        assert(t0 + k + n - 1 == (a + q + 1) * n + (r + s - 1)) by (nonlinear_arith)
            requires
                t0 == n * a + r,
                k == n * q + s,
        ;
        lemma_fundamental_div_mod_converse(t0 + k + n - 1, n, a + q + 1, r + s - 1);
    }
}

/// The board `b` with `t` put at `c`.
pub open spec fn with_tile(b: Spaces, c: Coordinate, t: Space) -> Spaces {
    vstd::array::spec_array_update(b, c.x as int, vstd::array::spec_array_update(b@[c.x as int], c.y as int, t))
}

proof fn lemma_with_tile(b: Spaces, c: Coordinate, t: Space)
    requires
        in_bounds(c),
    ensures
        forall|d: Coordinate| in_bounds(d) ==> #[trigger] at(with_tile(b, c, t), d) == if d == c {
            t
        } else {
            at(b, d)
        },
{
    let col = vstd::array::spec_array_update(b@[c.x as int], c.y as int, t);
    assert(col@ == b@[c.x as int]@.update(c.y as int, t));
    assert(with_tile(b, c, t)@ == b@.update(c.x as int, col));
}

/// Every move of the batch goes into its own player's territory and carries
/// the whole garrison of its source.
pub open spec fn friendly_batch(b: Spaces, ms: Seq<Move>) -> bool {
    &&& valid_batch(b, ms)
    &&& forall|i: int| 0 <= i < ms.len() ==> at(b, (#[trigger] ms[i]).to).spec_owner() == Some(ms[i].owner)
    &&& forall|i: int| 0 <= i < ms.len() ==> (#[trigger] ms[i]).units == at(b, ms[i].from).spec_units()
}

/// The first `k` moves carried out one after the other.
pub open spec fn replay(b: Spaces, ms: Seq<Move>, k: int) -> Spaces
    decreases k,
{
    if k <= 0 {
        b
    } else {
        let before = replay(b, ms, k - 1);
        let m = ms[k - 1];
        let emptied = with_tile(before, m.from, at(before, m.from).with_units(0));
        let t = at(emptied, m.to);
        with_tile(emptied, m.to, t.with_units((t.spec_units() + m.units) as usize))
    }
}

pub open spec fn touched(ms: Seq<Move>, k: int, c: Coordinate) -> bool {
    exists|i: int| 0 <= i < k && ((#[trigger] ms[i]).from == c || ms[i].to == c)
}

/// In a friendly batch a cell is touched by at most one move.
proof fn lemma_one_toucher(b: Spaces, ms: Seq<Move>, c: Coordinate, i: int, j: int)
    requires
        friendly_batch(b, ms),
        0 <= i < ms.len(),
        0 <= j < ms.len(),
        ms[i].from == c || ms[i].to == c,
        ms[j].from == c || ms[j].to == c,
    ensures
        i == j,
{
    assert(valid_move(b, ms[i]));
    assert(valid_move(b, ms[j]));
}

proof fn lemma_friendly_survivors(b: Spaces, ms: Seq<Move>, k: int)
    requires
        friendly_batch(b, ms),
        0 <= k < ms.len(),
    ensures
        surviving(ms, ms[k]) == ms[k].units,
        friendly(b, ms[k]),
{
    assert(valid_move(b, ms[k]));
    if has_opponent(ms, ms[k]) {
        let j = choose|j: int| 0 <= j < ms.len() && opposes(ms[k], #[trigger] ms[j]);
        assert(valid_move(b, ms[j]));
    }
}

proof fn lemma_replay(b: Spaces, ms: Seq<Move>, k: int)
    requires
        friendly_batch(b, ms),
        0 <= k <= ms.len(),
    ensures
        total_units(replay(b, ms, k)) == total_units(b),
        forall|c: Coordinate|
            in_bounds(c) ==> #[trigger] at(replay(b, ms, k), c) == if touched(ms, k, c) {
                merged(b, ms, c)
            } else {
                at(b, c)
            },
    decreases k,
{
    if k > 0 {
        lemma_replay(b, ms, k - 1);
        let before = replay(b, ms, k - 1);
        let m = ms[k - 1];
        assert(valid_move(b, m));
        lemma_friendly_survivors(b, ms, k - 1);
        // Neither end of `m` was touched before.
        assert(!touched(ms, k - 1, m.from)) by {
            if touched(ms, k - 1, m.from) {
                let i = choose|i: int| 0 <= i < k - 1 && ((#[trigger] ms[i]).from == m.from || ms[i].to == m.from);
                lemma_one_toucher(b, ms, m.from, i, k - 1);
            }
        }
        assert(!touched(ms, k - 1, m.to)) by {
            if touched(ms, k - 1, m.to) {
                let i = choose|i: int| 0 <= i < k - 1 && ((#[trigger] ms[i]).from == m.to || ms[i].to == m.to);
                lemma_one_toucher(b, ms, m.to, i, k - 1);
            }
        }
        let emptied = with_tile(before, m.from, at(before, m.from).with_units(0));
        lemma_with_tile(before, m.from, at(before, m.from).with_units(0));
        let t = at(emptied, m.to);
        let after = with_tile(emptied, m.to, t.with_units((t.spec_units() + m.units) as usize));
        lemma_with_tile(emptied, m.to, t.with_units((t.spec_units() + m.units) as usize));
        assert(after == replay(b, ms, k));
        lemma_tally_change(before, emptied, garrison_of(), m.from);
        lemma_tally_change(emptied, after, garrison_of(), m.to);
        // The cells that `m` touches end as the merge phase leaves them.
        assert(is_source(ms, m.from)) by {
            assert(ms[k - 1].from == m.from);
        }
        assert(!reinforced(b, ms, m.from) || m.from == m.to) by {
            if reinforced(b, ms, m.from) {
                let j = choose|j: int| 0 <= j < ms.len() && reinforces(b, ms, #[trigger] ms[j], m.from);
                lemma_one_toucher(b, ms, m.from, j, k - 1);
            }
        }
        assert(!is_source(ms, m.to) || m.from == m.to) by {
            if is_source(ms, m.to) {
                let j = choose|j: int| 0 <= j < ms.len() && (#[trigger] ms[j]).from == m.to;
                lemma_one_toucher(b, ms, m.to, j, k - 1);
            }
        }
        if m.units > 0 {
            assert(reinforces(b, ms, ms[k - 1], m.to));
            let j = choose|j: int| 0 <= j < ms.len() && reinforces(b, ms, #[trigger] ms[j], m.to);
            lemma_one_toucher(b, ms, m.to, j, k - 1);
        } else {
            assert(!reinforced(b, ms, m.to)) by {
                if reinforced(b, ms, m.to) {
                    let j = choose|j: int| 0 <= j < ms.len() && reinforces(b, ms, #[trigger] ms[j], m.to);
                    lemma_one_toucher(b, ms, m.to, j, k - 1);
                }
            }
        }
        assert forall|c: Coordinate| in_bounds(c) implies #[trigger] at(replay(b, ms, k), c) == if touched(ms, k, c) {
            merged(b, ms, c)
        } else {
            at(b, c)
        } by {
            if c != m.from && c != m.to {
                if touched(ms, k, c) {
                    let i = choose|i: int| 0 <= i < k && ((#[trigger] ms[i]).from == c || ms[i].to == c);
                    assert(i != k - 1);
                    assert(touched(ms, k - 1, c));
                }
            } else {
                assert(touched(ms, k, c)) by {
                    assert(ms[k - 1].from == c || ms[k - 1].to == c);
                }
            }
        }
    }
}

/// When every move goes into its own player's territory and carries the
/// whole garrison of its source, resolving the batch keeps the total number
/// of units on the board.
pub proof fn friendly_moves_conserve_units(b: Spaces, ms: Seq<Move>, after: Spaces)
    requires
        friendly_batch(b, ms),
        forall|c: Coordinate| in_bounds(c) ==> at(after, c) == resolved_tile(b, ms, c),
    ensures
        total_units(after) == total_units(b),
{
    lemma_replay(b, ms, ms.len() as int);
    let r = replay(b, ms, ms.len() as int);
    assert forall|c: Coordinate| in_bounds(c) implies at(after, c) == at(r, c) by {
        assert(attackers(b, ms, c) =~= Set::<(usize, usize)>::empty()) by {
            assert forall|a: (usize, usize)| !attackers(b, ms, c).contains(a) by {
                if attackers(b, ms, c).contains(a) {
                    let i = choose|i: int|
                        0 <= i < ms.len() && attacks(b, ms, #[trigger] ms[i], c) && a == (
                            ms[i].owner,
                            surviving(ms, ms[i]),
                        );
                    lemma_friendly_survivors(b, ms, i);
                }
            }
        }
        lemma_combat_none();
        if !touched(ms, ms.len() as int, c) {
            assert(!is_source(ms, c)) by {
                if is_source(ms, c) {
                    let i = choose|i: int| 0 <= i < ms.len() && (#[trigger] ms[i]).from == c;
                    assert(touched(ms, ms.len() as int, c));
                }
            }
            assert(!reinforced(b, ms, c)) by {
                if reinforced(b, ms, c) {
                    let i = choose|i: int| 0 <= i < ms.len() && reinforces(b, ms, #[trigger] ms[i], c);
                    assert(touched(ms, ms.len() as int, c));
                }
            }
        }
    }
    lemma_tally_same(after, r, garrison_of(), (BOARD_SIZE * BOARD_SIZE) as int);
}

} // verus!
