//! A text picture of the board, one line per row.
use vstd::prelude::*;
use crate::world::{BOARD_SIZE, Coordinate, Space, Spaces, at, tile};
use crate::game_state::GameState;
use crate::agent::string_of;

verus! {

/// The character drawn for a tile.
pub open spec fn symbol(t: Space) -> char {
    match t {
        Space::PlayerCapital { .. } => 'P',
        Space::PlayerTown { .. } => 'p',
        Space::NeutralTown { .. } => 'n',
        Space::PlayerEmpty { .. } => 'p',
        Space::Empty => ' ',
        Space::Mountain => '^',
    }
}

/// The first `n` tiles of row `y`, drawn.
pub open spec fn row_start(b: Spaces, y: int, n: int) -> Seq<char> {
    Seq::new(n as nat, |x: int| symbol(at(b, Coordinate { x: x as usize, y: y as usize })))
}

/// The first `rows` rows of the board, each drawn and ended by a newline.
pub open spec fn picture(b: Spaces, rows: int) -> Seq<char>
    decreases rows,
{
    if rows <= 0 {
        Seq::empty()
    } else {
        picture(b, rows - 1) + row_start(b, rows - 1, BOARD_SIZE as int).push('\n')
    }
}

fn symbol_of(t: Space) -> (r: char)
    ensures
        r == symbol(t),
{
    match t {
        Space::PlayerCapital { .. } => 'P',
        Space::PlayerTown { .. } => 'p',
        Space::NeutralTown { .. } => 'n',
        Space::PlayerEmpty { .. } => 'p',
        Space::Empty => ' ',
        Space::Mountain => '^',
    }
}

impl GameState {
    /// The board as text: a line per row, top row first, with `P` for a
    /// capital, `p` for other player tiles, `n` for a neutral town, `^` for a
    /// mountain and a space for empty land.
    pub fn render(&self) -> (r: String)
        ensures
            r@ == picture(self.spaces, BOARD_SIZE as int),
    {
        let mut out: Vec<char> = Vec::new();
        let mut y: usize = 0;
        while y < BOARD_SIZE
            invariant
                y <= BOARD_SIZE,
                out@ == picture(self.spaces, y as int),
            decreases BOARD_SIZE - y,
        {
            let mut x: usize = 0;
            while x < BOARD_SIZE
                invariant
                    y < BOARD_SIZE,
                    x <= BOARD_SIZE,
                    out@ == picture(self.spaces, y as int) + row_start(self.spaces, y as int, x as int),
                decreases BOARD_SIZE - x,
            {
                let c = Coordinate { x, y };
                out.push(symbol_of(tile(&self.spaces, c)));
                assert(row_start(self.spaces, y as int, x as int + 1) =~= row_start(self.spaces, y as int, x as int).push(
                    symbol(at(self.spaces, c)),
                ));
                x += 1;
            }
            out.push('\n');
            y += 1;
        }
        string_of(&out)
    }
}

} // verus!
