//! A single cell of the board and the rule that decides its fate.

use vstd::prelude::*;

verus! {

/// One cell of the board: alive (`on`) or dead.
#[derive(Debug, PartialEq, Eq, Clone, Copy, Structural)]
pub struct Tile {
    pub on: bool,
}

/// The rule of the game. A live cell stays alive with exactly two or three
/// live neighbours; a dead cell comes alive with exactly three. Every other
/// cell is dead in the next generation.
pub open spec fn survives(on: bool, live_neighbours: int) -> bool {
    if on {
        live_neighbours == 2 || live_neighbours == 3
    } else {
        live_neighbours == 3
    }
}

/// What a truth value adds to a head count: one if it holds, nothing otherwise.
pub open spec fn one_if(holds: bool) -> nat {
    if holds {
        1
    } else {
        0
    }
}

/// Whether a neighbouring position holds a live cell. A position that lies
/// off the board (`None`) never does.
pub open spec fn is_live(neighbour: Option<&Tile>) -> bool {
    match neighbour {
        Some(tile) => tile.on,
        None => false,
    }
}

/// How many of the eight neighbouring positions hold a live cell. Only the
/// number counts: which position a neighbour is handed in for does not matter.
pub open spec fn live_among(
    left: Option<&Tile>,
    up: Option<&Tile>,
    right: Option<&Tile>,
    down: Option<&Tile>,
    topleft: Option<&Tile>,
    topright: Option<&Tile>,
    bottomleft: Option<&Tile>,
    bottomright: Option<&Tile>,
) -> nat {
    one_if(is_live(left)) + one_if(is_live(up))
        + one_if(is_live(right)) + one_if(is_live(down))
        + one_if(is_live(topleft)) + one_if(is_live(topright))
        + one_if(is_live(bottomleft)) + one_if(is_live(bottomright))
}

/// Whether a neighbouring position holds a live cell.
fn lives(neighbour: Option<&Tile>) -> (live: bool)
    ensures
        live == is_live(neighbour),
{
    match neighbour {
        Some(tile) => tile.on,
        None => false,
    }
}

impl Tile {
    /// A cell in the given state.
    pub fn new(on: bool) -> (tile: Tile)
        ensures
            tile.on == on,
    {
        Tile { on }
    }

    /// The state of this cell in the next generation, given its eight
    /// neighbours. A neighbour that lies off the board is `None` and is
    /// not counted.
    pub fn evolve(
        self,
        left: Option<&Tile>,
        up: Option<&Tile>,
        right: Option<&Tile>,
        down: Option<&Tile>,
        topleft: Option<&Tile>,
        topright: Option<&Tile>,
        bottomleft: Option<&Tile>,
        bottomright: Option<&Tile>,
    ) -> (next: Tile)
        ensures
            next.on == survives(
                self.on,
                live_among(left, up, right, down, topleft, topright, bottomleft, bottomright) as int,
            ),
    {
        let mut alive_neighbours: u8 = 0;
        if lives(left) {
            alive_neighbours += 1;
        }
        if lives(up) {
            alive_neighbours += 1;
        }
        if lives(right) {
            alive_neighbours += 1;
        }
        if lives(down) {
            alive_neighbours += 1;
        }
        if lives(topleft) {
            alive_neighbours += 1;
        }
        if lives(topright) {
            alive_neighbours += 1;
        }
        if lives(bottomleft) {
            alive_neighbours += 1;
        }
        if lives(bottomright) {
            alive_neighbours += 1;
        }
        if self.on {
            Tile::new(alive_neighbours == 2 || alive_neighbours == 3)
        } else {
            Tile::new(alive_neighbours == 3)
        }
    }
}

} // verus!
