//! Coordinates, tiles and the board.
use vstd::prelude::*;

verus! {

/// Width and height of the square board.
pub const BOARD_SIZE: usize = 20;

/// A cell of the board, column `x` and row `y`.
#[derive(Clone, Copy, Debug, PartialEq, Eq, Structural, Hash, PartialOrd, Ord)]
pub struct Coordinate {
    pub x: usize,
    pub y: usize,
}

/// What stands on one cell of the board.
#[derive(Clone, Copy, Debug, PartialEq, Eq, Structural)]
pub enum Space {
    PlayerCapital { owner: usize, units: usize },
    PlayerTown { owner: usize, units: usize },
    NeutralTown { units: usize },
    PlayerEmpty { owner: usize, units: usize },
    Empty,
    Mountain,
}

/// The board, indexed column first: `spaces[x][y]`.
pub type Spaces = [[Space; BOARD_SIZE]; BOARD_SIZE];

pub open spec fn in_bounds(c: Coordinate) -> bool {
    c.x < BOARD_SIZE && c.y < BOARD_SIZE
}

/// Two cells that share an edge.
pub open spec fn adjacent(a: Coordinate, b: Coordinate) -> bool {
    ||| a.x == b.x && (a.y + 1 == b.y || b.y + 1 == a.y)
    ||| a.y == b.y && (a.x + 1 == b.x || b.x + 1 == a.x)
}

/// The tile at `c`.
pub open spec fn at(b: Spaces, c: Coordinate) -> Space {
    b@[c.x as int]@[c.y as int]
}

/// The cells next to `c` that lie on the board, in the order left, up, right, down.
pub open spec fn neighbors(c: Coordinate) -> Seq<Coordinate> {
    let s0 = Seq::<Coordinate>::empty();
    let s1 = if c.x > 0 { s0.push(Coordinate { x: (c.x - 1) as usize, y: c.y }) } else { s0 };
    let s2 = if c.y > 0 { s1.push(Coordinate { x: c.x, y: (c.y - 1) as usize }) } else { s1 };
    let s3 = if c.x < BOARD_SIZE - 1 { s2.push(Coordinate { x: (c.x + 1) as usize, y: c.y }) } else { s2 };
    if c.y < BOARD_SIZE - 1 { s3.push(Coordinate { x: c.x, y: (c.y + 1) as usize }) } else { s3 }
}

impl Space {
    /// Tiles that carry a garrison.
    pub open spec fn holds_units(self) -> bool {
        !(self is Empty) && !(self is Mountain)
    }

    pub open spec fn spec_units(self) -> usize {
        match self {
            Space::PlayerCapital { units, .. } => units,
            Space::PlayerTown { units, .. } => units,
            Space::NeutralTown { units } => units,
            Space::PlayerEmpty { units, .. } => units,
            Space::Empty | Space::Mountain => 0,
        }
    }

    pub open spec fn spec_owner(self) -> Option<usize> {
        match self {
            Space::PlayerCapital { owner, .. } => Some(owner),
            Space::PlayerTown { owner, .. } => Some(owner),
            Space::PlayerEmpty { owner, .. } => Some(owner),
            Space::NeutralTown { .. } | Space::Empty | Space::Mountain => None,
        }
    }

    /// The same tile with its garrison replaced; tiles without a garrison stay as they are.
    pub open spec fn with_units(self, n: usize) -> Space {
        match self {
            Space::PlayerCapital { owner, .. } => Space::PlayerCapital { owner, units: n },
            Space::PlayerTown { owner, .. } => Space::PlayerTown { owner, units: n },
            Space::NeutralTown { .. } => Space::NeutralTown { units: n },
            Space::PlayerEmpty { owner, .. } => Space::PlayerEmpty { owner, units: n },
            Space::Empty => Space::Empty,
            Space::Mountain => Space::Mountain,
        }
    }

    /// The tile after `owner` took it, keeping `n` units on it.
    pub open spec fn captured_by(self, owner: usize, n: usize) -> Space {
        match self {
            Space::PlayerCapital { .. } => Space::PlayerCapital { owner, units: n },
            Space::PlayerTown { .. } => Space::PlayerTown { owner, units: n },
            Space::NeutralTown { .. } => Space::PlayerTown { owner, units: n },
            Space::PlayerEmpty { .. } => Space::PlayerEmpty { owner, units: n },
            Space::Empty => Space::PlayerEmpty { owner, units: n },
            Space::Mountain => Space::Mountain,
        }
    }

    /// The same tile with its garrison replaced; tiles without a garrison stay as they are.
    pub fn with_garrison(self, n: usize) -> (r: Space)
        ensures
            r == self.with_units(n),
    {
        match self {
            Space::PlayerCapital { owner, .. } => Space::PlayerCapital { owner, units: n },
            Space::PlayerTown { owner, .. } => Space::PlayerTown { owner, units: n },
            Space::NeutralTown { .. } => Space::NeutralTown { units: n },
            Space::PlayerEmpty { owner, .. } => Space::PlayerEmpty { owner, units: n },
            Space::Empty => Space::Empty,
            Space::Mountain => Space::Mountain,
        }
    }

    /// The tile after `owner` took it, keeping `n` units on it.
    pub fn captured(self, owner: usize, n: usize) -> (r: Space)
        ensures
            r == self.captured_by(owner, n),
    {
        match self {
            Space::PlayerCapital { .. } => Space::PlayerCapital { owner, units: n },
            Space::PlayerTown { .. } => Space::PlayerTown { owner, units: n },
            Space::NeutralTown { .. } => Space::PlayerTown { owner, units: n },
            Space::PlayerEmpty { .. } => Space::PlayerEmpty { owner, units: n },
            Space::Empty => Space::PlayerEmpty { owner, units: n },
            Space::Mountain => Space::Mountain,
        }
    }

    /// The garrison of this tile: zero for `Empty` and `Mountain`.
    pub fn get_units(&self) -> (r: usize)
        ensures
            r == self.spec_units(),
    {
        match self {
            Space::PlayerCapital { owner: _, units } => *units,
            Space::PlayerTown { owner: _, units } => *units,
            Space::NeutralTown { units } => *units,
            Space::PlayerEmpty { owner: _, units } => *units,
            Space::Empty | Space::Mountain => 0,
        }
    }

    /// The garrison of a tile that carries one.
    pub fn expect_units(&self) -> (r: usize)
        requires
            self.holds_units(),
        ensures
            r == self.spec_units(),
    {
        match self {
            Space::PlayerCapital { owner: _, units } => *units,
            Space::PlayerTown { owner: _, units } => *units,
            Space::NeutralTown { units } => *units,
            Space::PlayerEmpty { owner: _, units } => *units,
            Space::Empty | Space::Mountain => 0,
        }
    }

    /// Replaces the garrison of a tile that carries one.
    pub fn unsafe_set_units(&mut self, new_units: usize)
        requires
            old(self).holds_units(),
        ensures
            *final(self) == old(self).with_units(new_units),
    {
        match self {
            Space::PlayerCapital { owner: _, units } => *units = new_units,
            Space::PlayerTown { owner: _, units } => *units = new_units,
            Space::NeutralTown { units } => *units = new_units,
            Space::PlayerEmpty { owner: _, units } => *units = new_units,
            Space::Empty | Space::Mountain => {},
        }
    }

    /// The player that holds this tile, if any.
    pub fn owner(&self) -> (r: Option<usize>)
        ensures
            r == self.spec_owner(),
    {
        match self {
            Space::PlayerCapital { owner, units: _ } => Some(*owner),
            Space::PlayerTown { owner, units: _ } => Some(*owner),
            Space::PlayerEmpty { owner, units: _ } => Some(*owner),
            Space::NeutralTown { .. } | Space::Empty | Space::Mountain => None,
        }
    }

    pub fn is_mountain(&self) -> (r: bool)
        ensures
            r == (*self is Mountain),
    {
        match self {
            Space::Mountain => true,
            _ => false,
        }
    }

    pub fn is_empty(&self) -> (r: bool)
        ensures
            r == (*self is Empty),
    {
        match self {
            Space::Empty => true,
            _ => false,
        }
    }
}

impl Coordinate {
    /// The cells next to this one that lie on the board.
    pub fn surrounding(&self) -> (r: Vec<Coordinate>)
        ensures
            r@ == neighbors(*self),
    {
        let mut surrounding: Vec<Coordinate> = Vec::new();
        if self.x > 0 {
            surrounding.push(Coordinate { x: self.x - 1, y: self.y });
        }
        if self.y > 0 {
            surrounding.push(Coordinate { x: self.x, y: self.y - 1 });
        }
        if self.x < BOARD_SIZE - 1 {
            surrounding.push(Coordinate { x: self.x + 1, y: self.y });
        }
        if self.y < BOARD_SIZE - 1 {
            surrounding.push(Coordinate { x: self.x, y: self.y + 1 });
        }
        surrounding
    }
}

/// For a cell on the board, its neighbours are exactly the adjacent cells on the board.
pub proof fn lemma_neighbors(c: Coordinate)
    requires
        in_bounds(c),
    ensures
        forall|n: Coordinate| neighbors(c).contains(n) <==> (in_bounds(n) && adjacent(c, n)),
{
    assert forall|n: Coordinate| neighbors(c).contains(n) <==> (in_bounds(n) && adjacent(c, n)) by {
        if in_bounds(n) && adjacent(c, n) {
            let s = neighbors(c);
            if n.x + 1 == c.x {
                assert(s[0] == n);
            } else if n.y + 1 == c.y {
                assert(s[if c.x > 0 { 1int } else { 0int }] == n);
            } else if n.x == c.x + 1 {
                let k: int = (if c.x > 0 { 1int } else { 0int }) + (if c.y > 0 { 1int } else { 0int });
                assert(s[k] == n);
            } else {
                let k: int = (if c.x > 0 { 1int } else { 0int }) + (if c.y > 0 { 1int } else { 0int })
                    + (if c.x < BOARD_SIZE - 1 { 1int } else { 0int });
                assert(s[k] == n);
            }
        }
    }
}

/// The tile at `c`.
pub fn tile(b: &Spaces, c: Coordinate) -> (r: Space)
    requires
        in_bounds(c),
    ensures
        r == at(*b, c),
{
    b[c.x][c.y]
}

/// Puts `t` at `c` and leaves every other cell as it was.
pub fn put_tile(b: &mut Spaces, c: Coordinate, t: Space)
    requires
        in_bounds(c),
    ensures
        forall|d: Coordinate| in_bounds(d) ==> at(*final(b), d) == if d == c { t } else { at(*old(b), d) },
{
    let mut column = b[c.x];
    column[c.y] = t;
    b[c.x] = column;
}

} // verus!
