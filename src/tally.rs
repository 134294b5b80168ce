//! Sums over all the tiles of a board.
use vstd::prelude::*;
use crate::world::{BOARD_SIZE, Coordinate, Space, Spaces, at, in_bounds};
use crate::connectivity::{cell_at, index_of, lemma_cell_at, lemma_index_of};

verus! {

/// The sum of `f` over the first `k` cells, taken row by row.
pub open spec fn tally_upto(b: Spaces, f: spec_fn(Space) -> int, k: int) -> int
    decreases k,
{
    if k <= 0 {
        0
    } else {
        tally_upto(b, f, k - 1) + f(at(b, cell_at(k - 1)))
    }
}

/// The sum of `f` over every tile of the board.
pub open spec fn tally(b: Spaces, f: spec_fn(Space) -> int) -> int {
    tally_upto(b, f, (BOARD_SIZE * BOARD_SIZE) as int)
}

pub open spec fn garrison_of() -> spec_fn(Space) -> int {
    |t: Space| t.spec_units() as int
}

pub open spec fn one_if_mountain() -> spec_fn(Space) -> int {
    |t: Space| if t is Mountain { 1int } else { 0int }
}

pub open spec fn one_if_neutral_town() -> spec_fn(Space) -> int {
    |t: Space| if t is NeutralTown { 1int } else { 0int }
}

/// The total garrison of the board.
pub open spec fn total_units(b: Spaces) -> int {
    tally(b, garrison_of())
}

/// The number of mountains on the board.
pub open spec fn mountain_count(b: Spaces) -> int {
    tally(b, one_if_mountain())
}

/// The number of neutral towns on the board.
pub open spec fn neutral_town_count(b: Spaces) -> int {
    tally(b, one_if_neutral_town())
}

proof fn lemma_tally_upto_change(b1: Spaces, b2: Spaces, f: spec_fn(Space) -> int, c: Coordinate, k: int)
    requires
        in_bounds(c),
        0 <= k <= BOARD_SIZE * BOARD_SIZE,
        forall|d: Coordinate| in_bounds(d) && d != c ==> at(b1, d) == at(b2, d),
    ensures
        tally_upto(b2, f, k) == tally_upto(b1, f, k) + if index_of(c) < k {
            f(at(b2, c)) - f(at(b1, c))
        } else {
            0
        },
    decreases k,
{
    if k > 0 {
        lemma_tally_upto_change(b1, b2, f, c, k - 1);
        lemma_cell_at(k - 1);
        lemma_index_of(c);
        if cell_at(k - 1) == c {
            assert(index_of(c) == k - 1);
        } else {
            assert(index_of(c) != k - 1);
        }
    }
}

/// Changing one tile changes a tally by the difference at that tile.
pub proof fn lemma_tally_change(b1: Spaces, b2: Spaces, f: spec_fn(Space) -> int, c: Coordinate)
    requires
        in_bounds(c),
        forall|d: Coordinate| in_bounds(d) && d != c ==> at(b1, d) == at(b2, d),
    ensures
        tally(b2, f) == tally(b1, f) + f(at(b2, c)) - f(at(b1, c)),
{
    lemma_index_of(c);
    lemma_tally_upto_change(b1, b2, f, c, (BOARD_SIZE * BOARD_SIZE) as int);
}

/// Boards that agree on every tile have the same tallies.
pub proof fn lemma_tally_same(b1: Spaces, b2: Spaces, f: spec_fn(Space) -> int, k: int)
    requires
        0 <= k <= BOARD_SIZE * BOARD_SIZE,
        forall|d: Coordinate| in_bounds(d) ==> at(b1, d) == at(b2, d),
    ensures
        tally_upto(b2, f, k) == tally_upto(b1, f, k),
    decreases k,
{
    if k > 0 {
        lemma_tally_same(b1, b2, f, k - 1);
        lemma_cell_at(k - 1);
    }
}

/// A tally of a function that is zero on every tile is zero.
pub proof fn lemma_tally_zero(b: Spaces, f: spec_fn(Space) -> int, k: int)
    requires
        0 <= k <= BOARD_SIZE * BOARD_SIZE,
        forall|d: Coordinate| in_bounds(d) ==> f(#[trigger] at(b, d)) == 0,
    ensures
        tally_upto(b, f, k) == 0,
    decreases k,
{
    if k > 0 {
        lemma_tally_zero(b, f, k - 1);
        lemma_cell_at(k - 1);
    }
}

} // verus!
