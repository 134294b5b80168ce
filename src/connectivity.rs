//! Whether the passable part of a board is all in one piece.
use vstd::prelude::*;
use crate::world::{BOARD_SIZE, Coordinate, Spaces, adjacent, at, in_bounds, lemma_neighbors, neighbors, tile};

verus! {

/// A cell on the board that is not a mountain.
pub open spec fn passable(b: Spaces, c: Coordinate) -> bool {
    in_bounds(c) && !(at(b, c) is Mountain)
}

/// A walk over passable cells, each step to an adjacent cell.
pub open spec fn is_path(b: Spaces, p: Seq<Coordinate>) -> bool {
    &&& p.len() > 0
    &&& forall|i: int| 0 <= i < p.len() ==> passable(b, #[trigger] p[i])
    &&& forall|i: int| 0 <= i < p.len() - 1 ==> adjacent(#[trigger] p[i], p[i + 1])
}

pub open spec fn reachable(b: Spaces, s: Coordinate, t: Coordinate) -> bool {
    exists|p: Seq<Coordinate>| is_path(b, p) && p[0] == s && p.last() == t
}

/// Every passable cell can be reached from every other one.
pub open spec fn connected(b: Spaces) -> bool {
    forall|s: Coordinate, t: Coordinate| passable(b, s) && passable(b, t) ==> #[trigger] reachable(b, s, t)
}

/// Position of a cell in a row-by-row listing of the board.
pub open spec fn index_of(c: Coordinate) -> int {
    c.x * BOARD_SIZE + c.y
}

pub open spec fn cell_at(i: int) -> Coordinate {
    Coordinate { x: (i / BOARD_SIZE as int) as usize, y: (i % BOARD_SIZE as int) as usize }
}

pub proof fn lemma_index_of(c: Coordinate)
    requires
        in_bounds(c),
    ensures
        0 <= index_of(c) < BOARD_SIZE * BOARD_SIZE,
        cell_at(index_of(c)) == c,
{
    let i = index_of(c);
    assert(0 <= i < 400) by (nonlinear_arith)
        requires
            i == c.x * 20 + c.y,
            c.x < 20,
            c.y < 20,
    ;
    assert(i / 20 == c.x && i % 20 == c.y) by (nonlinear_arith)
        requires
            i == c.x * 20 + c.y,
            c.x < 20,
            c.y < 20,
    ;
}

pub proof fn lemma_cell_at(i: int)
    requires
        0 <= i < BOARD_SIZE * BOARD_SIZE,
    ensures
        in_bounds(cell_at(i)),
        index_of(cell_at(i)) == i,
{
    assert(0 <= i / 20 < 20 && 0 <= i % 20 < 20 && (i / 20) * 20 + i % 20 == i) by (nonlinear_arith)
        requires
            0 <= i < 400,
    ;
}

fn cell_index(c: Coordinate) -> (r: usize)
    requires
        in_bounds(c),
    ensures
        r == index_of(c),
        r < BOARD_SIZE * BOARD_SIZE,
{
    proof {
        lemma_index_of(c);
    }
    c.x * BOARD_SIZE + c.y
}

/// Number of `false` entries.
pub open spec fn count_false(s: Seq<bool>) -> nat
    decreases s.len(),
{
    if s.len() == 0 {
        0
    } else {
        count_false(s.drop_last()) + if s.last() {
            0nat
        } else {
            1nat
        }
    }
}

proof fn lemma_count_false_mark(s: Seq<bool>, i: int)
    requires
        0 <= i < s.len(),
        !s[i],
    ensures
        count_false(s.update(i, true)) + 1 == count_false(s),
    decreases s.len(),
{
    let t = s.update(i, true);
    if i == s.len() - 1 {
        assert(t.drop_last() =~= s.drop_last());
    } else {
        assert(t.drop_last() =~= s.drop_last().update(i, true));
        lemma_count_false_mark(s.drop_last(), i);
    }
}

proof fn lemma_path_reverse(b: Spaces, p: Seq<Coordinate>)
    requires
        is_path(b, p),
    ensures
        is_path(b, p.reverse()),
        p.reverse()[0] == p.last(),
        p.reverse().last() == p[0],
{
    let r = p.reverse();
    assert forall|i: int| 0 <= i < r.len() implies passable(b, #[trigger] r[i]) by {
        assert(r[i] == p[p.len() - 1 - i]);
    }
    assert forall|i: int| 0 <= i < r.len() - 1 implies adjacent(#[trigger] r[i], r[i + 1]) by {
        let j = p.len() - 2 - i;
        assert(adjacent(p[j], p[j + 1]));
    }
}

proof fn lemma_path_join(b: Spaces, p: Seq<Coordinate>, q: Seq<Coordinate>)
    requires
        is_path(b, p),
        is_path(b, q),
        p.last() == q[0],
    ensures
        is_path(b, p + q.skip(1)),
        (p + q.skip(1))[0] == p[0],
        (p + q.skip(1)).last() == q.last(),
{
    let r = p + q.skip(1);
    assert forall|i: int| 0 <= i < r.len() implies passable(b, #[trigger] r[i]) by {
        if i >= p.len() {
            assert(r[i] == q[i - p.len() + 1]);
        }
    }
    assert forall|i: int| 0 <= i < r.len() - 1 implies adjacent(#[trigger] r[i], r[i + 1]) by {
        if i < p.len() - 1 {
            assert(adjacent(p[i], p[i + 1]));
        } else if i == p.len() - 1 {
            assert(r[i + 1] == q[1]);
            assert(adjacent(q[0], q[1]));
        } else {
            let j = i - p.len() + 1;
            assert(r[i] == q[j] && r[i + 1] == q[j + 1]);
            assert(adjacent(q[j], q[j + 1]));
        }
    }
    if q.len() > 1 {
        assert(r.last() == q[q.len() - 1]);
    }
}

/// A board on which every passable cell is reachable from one cell is connected.
proof fn lemma_connected_from(b: Spaces, s: Coordinate)
    requires
        forall|c: Coordinate| passable(b, c) ==> #[trigger] reachable(b, s, c),
    ensures
        connected(b),
{
    assert forall|u: Coordinate, v: Coordinate| passable(b, u) && passable(b, v) implies #[trigger] reachable(b, u, v) by {
        assert(reachable(b, s, u));
        assert(reachable(b, s, v));
        let p = choose|p: Seq<Coordinate>| is_path(b, p) && p[0] == s && p.last() == u;
        let q = choose|q: Seq<Coordinate>| is_path(b, q) && q[0] == s && q.last() == v;
        lemma_path_reverse(b, p);
        lemma_path_join(b, p.reverse(), q);
        assert(is_path(b, p.reverse() + q.skip(1)));
    }
}

/// Every passable neighbour of a visited cell was visited too.
pub open spec fn closed(b: Spaces, vis: Seq<bool>, c: Coordinate) -> bool {
    forall|n: Coordinate| #[trigger] neighbors(c).contains(n) && passable(b, n) ==> vis[index_of(n)]
}

proof fn lemma_walk_stays_visited(b: Spaces, vis: Seq<bool>, p: Seq<Coordinate>, i: int)
    requires
        vis.len() == BOARD_SIZE * BOARD_SIZE,
        is_path(b, p),
        vis[index_of(p[0])],
        forall|c: Coordinate| in_bounds(c) && #[trigger] vis[index_of(c)] ==> closed(b, vis, c),
        0 <= i < p.len(),
    ensures
        vis[index_of(p[i])],
    decreases i,
{
    if i > 0 {
        lemma_walk_stays_visited(b, vis, p, i - 1);
        let c = p[i - 1];
        assert(passable(b, p[i - 1]));
        assert(passable(b, p[i]));
        assert(adjacent(p[i - 1], p[i]));
        lemma_neighbors(c);
        assert(neighbors(c).contains(p[i]));
    }
}

/// The state of a flood fill from `s` while the neighbours of `c` are handled.
pub open spec fn fill_ok(b: Spaces, s: Coordinate, c: Coordinate, vis: Seq<bool>, stack: Seq<Coordinate>) -> bool {
    &&& passable(b, s)
    &&& vis.len() == BOARD_SIZE * BOARD_SIZE
    &&& vis[index_of(s)]
    &&& vis[index_of(c)]
    &&& forall|d: Coordinate| in_bounds(d) && #[trigger] vis[index_of(d)] ==> passable(b, d) && reachable(b, s, d)
    &&& forall|i: int| 0 <= i < stack.len() ==> in_bounds(#[trigger] stack[i]) && vis[index_of(stack[i])]
    &&& forall|d: Coordinate|
        in_bounds(d) && #[trigger] vis[index_of(d)] && !stack.contains(d) && d != c ==> closed(b, vis, d)
}

/// Marks and stacks `n`, a neighbour of `c`, unless it is a mountain or already marked.
fn visit(
    spaces: &Spaces,
    Ghost(s): Ghost<Coordinate>,
    Ghost(c): Ghost<Coordinate>,
    visited: &mut Vec<bool>,
    stack: &mut Vec<Coordinate>,
    n: Coordinate,
)
    requires
        in_bounds(c),
        in_bounds(n),
        adjacent(c, n),
        fill_ok(*spaces, s, c, old(visited)@, old(stack)@),
    ensures
        fill_ok(*spaces, s, c, final(visited)@, final(stack)@),
        passable(*spaces, n) ==> final(visited)@[index_of(n)],
        forall|i: int| 0 <= i < old(visited)@.len() && old(visited)@[i] ==> final(visited)@[i],
        5 * count_false(final(visited)@) + final(stack)@.len() <= 5 * count_false(old(visited)@) + old(stack)@.len(),
{
    let ghost b = *spaces;
    let ghost before = stack@;
    let ni = cell_index(n);
    if !tile(spaces, n).is_mountain() && !visited[ni] {
        let ghost old_vis = visited@;
        proof {
            lemma_count_false_mark(visited@, ni as int);
            lemma_index_of(n);
            let p = choose|p: Seq<Coordinate>| is_path(b, p) && p[0] == s && p.last() == c;
            let q = p.push(n);
            assert(is_path(b, q)) by {
                assert forall|i: int| 0 <= i < q.len() - 1 implies adjacent(#[trigger] q[i], q[i + 1]) by {
                    if i < p.len() - 1 {
                        assert(adjacent(p[i], p[i + 1]));
                    }
                }
                assert forall|i: int| 0 <= i < q.len() implies passable(b, #[trigger] q[i]) by {
                    if i < p.len() {
                        assert(passable(b, p[i]));
                    }
                }
            }
            assert(q[0] == s && q.last() == n);
            assert(reachable(b, s, n));
        }
        visited.set(ni, true);
        stack.push(n);
        proof {
            assert forall|d: Coordinate| in_bounds(d) && #[trigger] visited[index_of(d)] implies passable(b, d)
                && reachable(b, s, d) by {
                lemma_index_of(d);
                if index_of(d) == ni as int {
                    assert(d == n);
                }
            }
            assert forall|d: Coordinate|
                in_bounds(d) && #[trigger] visited[index_of(d)] && !stack@.contains(d) && d != c implies closed(
                b,
                visited@,
                d,
            ) by {
                lemma_index_of(d);
                if d != n {
                    assert(old_vis[index_of(d)]);
                    assert(!before.contains(d)) by {
                        if before.contains(d) {
                            let i = choose|i: int| 0 <= i < before.len() && before[i] == d;
                            assert(stack@[i] == d);
                        }
                    }
                    assert(closed(b, old_vis, d));
                } else {
                    assert(stack@[stack.len() - 1] == n);
                }
            }
            assert forall|i: int| 0 <= i < stack.len() implies in_bounds(#[trigger] stack[i]) && visited[index_of(stack[i])] by {
                if i < stack.len() - 1 {
                    assert(stack[i] == before[i]);
                }
            }
        }
    }
}

/// Whether all passable cells of `spaces` form one four-connected region,
/// found by a flood fill from the first passable cell.
pub fn still_connected(spaces: &Spaces) -> (r: bool)
    ensures
        r == connected(*spaces),
{
    let ghost b = *spaces;
    // The first passable cell, if there is one.
    let mut seed: Option<Coordinate> = None;
    let mut x: usize = 0;
    while x < BOARD_SIZE && seed.is_none()
        invariant
            b == *spaces,
            x <= BOARD_SIZE,
            seed matches Some(s) ==> passable(b, s),
            seed is None ==> forall|c: Coordinate| in_bounds(c) && c.x < x ==> !passable(b, c),
        decreases BOARD_SIZE - x,
    {
        let mut y: usize = 0;
        while y < BOARD_SIZE && seed.is_none()
            invariant
                b == *spaces,
                x < BOARD_SIZE,
                y <= BOARD_SIZE,
                seed matches Some(s) ==> passable(b, s),
                seed is None ==> forall|c: Coordinate|
                    in_bounds(c) && (c.x < x || (c.x == x && c.y < y)) ==> !passable(b, c),
            decreases BOARD_SIZE - y,
        {
            let c = Coordinate { x, y };
            if !tile(spaces, c).is_mountain() {
                seed = Some(c);
            }
            y += 1;
        }
        x += 1;
    }
    let s = match seed {
        None => {
            assert forall|u: Coordinate, v: Coordinate| passable(b, u) && passable(b, v) implies #[trigger] reachable(
                b,
                u,
                v,
            ) by {}
            return true;
        },
        Some(s) => s,
    };

    let mut visited: Vec<bool> = Vec::new();
    let mut k: usize = 0;
    while k < BOARD_SIZE * BOARD_SIZE
        invariant
            b == *spaces,
            k <= BOARD_SIZE * BOARD_SIZE,
            visited.len() == k,
            forall|i: int| 0 <= i < k ==> !visited[i],
        decreases BOARD_SIZE * BOARD_SIZE - k,
    {
        visited.push(false);
        k += 1;
    }
    let si = cell_index(s);
    proof {
        lemma_count_false_mark(visited@, si as int);
        let p = seq![s];
        assert(p[0] == s && p.last() == s);
        assert(is_path(b, p));
        assert(reachable(b, s, s));
        lemma_index_of(s);
    }
    let ghost unvisited = visited@;
    visited.set(si, true);
    let mut stack: Vec<Coordinate> = Vec::new();
    stack.push(s);
    proof {
        assert(stack@[0] == s);
        assert forall|c: Coordinate| in_bounds(c) && #[trigger] visited[index_of(c)] implies c == s by {
            lemma_index_of(c);
            if index_of(c) != si as int {
                assert(!unvisited[index_of(c)]);
            }
        }
    }
    while stack.len() > 0
        invariant
            b == *spaces,
            passable(b, s),
            visited.len() == BOARD_SIZE * BOARD_SIZE,
            visited[index_of(s)],
            forall|c: Coordinate|
                in_bounds(c) && #[trigger] visited[index_of(c)] ==> passable(b, c) && reachable(b, s, c),
            forall|i: int| 0 <= i < stack.len() ==> in_bounds(#[trigger] stack[i]) && visited[index_of(stack[i])],
            forall|c: Coordinate|
                in_bounds(c) && #[trigger] visited[index_of(c)] && !stack@.contains(c) ==> closed(b, visited@, c),
        decreases 5 * count_false(visited@) + stack.len(),
    {
        let ghost measure = 5 * count_false(visited@) + stack.len();
        let ghost before = stack@;
        let c = stack.pop().unwrap();
        assert(stack@ == before.drop_last());
        assert(c == before[before.len() - 1]);
        let around = c.surrounding();
        proof {
            lemma_neighbors(c);
            assert forall|d: Coordinate|
                in_bounds(d) && #[trigger] visited[index_of(d)] && !stack@.contains(d) && d != c implies closed(
                b,
                visited@,
                d,
            ) by {
                if before.contains(d) {
                    let i = choose|i: int| 0 <= i < before.len() && before[i] == d;
                    if i < before.len() - 1 {
                        assert(stack@[i] == d);
                    }
                }
            }
            assert(before.contains(c));
            assert(visited[index_of(c)]);
            assert(fill_ok(b, s, c, visited@, stack@));
        }
        let mut j: usize = 0;
        while j < around.len()
            invariant
                b == *spaces,
                in_bounds(c),
                around@ == neighbors(c),
                j <= around.len(),
                forall|n: Coordinate| around@.contains(n) <==> (in_bounds(n) && adjacent(c, n)),
                fill_ok(b, s, c, visited@, stack@),
                forall|i: int| 0 <= i < j && passable(b, #[trigger] around[i]) ==> visited[index_of(around[i])],
                5 * count_false(visited@) + stack.len() < measure,
            decreases around.len() - j,
        {
            let n = around[j];
            assert(around@.contains(n));
            let ghost vis0 = visited@;
            visit(spaces, Ghost(s), Ghost(c), &mut visited, &mut stack, n);
            proof {
                assert forall|i: int| 0 <= i < j + 1 && passable(b, #[trigger] around[i]) implies visited[index_of(around[i])] by {
                    if i < j {
                        assert(around@.contains(around[i]));
                        lemma_index_of(around[i]);
                        assert(vis0[index_of(around[i])]);
                    }
                }
            }
            j += 1;
        }
        proof {
            assert(closed(b, visited@, c)) by {
                assert forall|n: Coordinate| #[trigger] neighbors(c).contains(n) && passable(b, n) implies visited@[index_of(n)] by {
                    let i = choose|i: int| 0 <= i < around.len() && around@[i] == n;
                    assert(passable(b, around[i]));
                }
            }
        }
    }

    // Every passable cell must have been reached.
    let mut all = true;
    let mut i: usize = 0;
    while i < BOARD_SIZE * BOARD_SIZE
        invariant
            b == *spaces,
            i <= BOARD_SIZE * BOARD_SIZE,
            visited.len() == BOARD_SIZE * BOARD_SIZE,
            all == forall|k: int| 0 <= k < i && passable(b, #[trigger] cell_at(k)) ==> visited[k],
        decreases BOARD_SIZE * BOARD_SIZE - i,
    {
        let c = Coordinate { x: i / BOARD_SIZE, y: i % BOARD_SIZE };
        assert(c == cell_at(i as int));
        proof {
            lemma_cell_at(i as int);
        }
        if !tile(spaces, c).is_mountain() && !visited[i] {
            all = false;
        }
        i += 1;
    }
    proof {
        if all {
            assert forall|c: Coordinate| passable(b, c) implies #[trigger] reachable(b, s, c) by {
                lemma_index_of(c);
                assert(passable(b, cell_at(index_of(c))));
            }
            lemma_connected_from(b, s);
        } else {
            let k = choose|k: int| 0 <= k < BOARD_SIZE * BOARD_SIZE && passable(b, #[trigger] cell_at(k)) && !visited[k];
            let t = cell_at(k);
            lemma_cell_at(k);
            if reachable(b, s, t) {
                let p = choose|p: Seq<Coordinate>| is_path(b, p) && p[0] == s && p.last() == t;
                lemma_walk_stays_visited(b, visited@, p, p.len() - 1);
            }
            assert(!reachable(b, s, t));
        }
    }
    all
}

} // verus!
