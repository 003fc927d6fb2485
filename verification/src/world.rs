//! The board as it is held in memory, and the step that replaces it by the
//! next generation.

use crate::cell::{is_live, Tile};
use crate::generation::Generation;
use vstd::prelude::*;

verus! {

/// A square board of `width` by `width` cells, held row by row.
#[derive(Debug, PartialEq)]
pub struct World {
    pub width: i32,
    pub tiles: Vec<Tile>,
}

impl View for World {
    type V = Generation;

    /// The generation that the board holds.
    open spec fn view(&self) -> Generation {
        Generation { width: self.width as int, cells: self.tiles@.map_values(|tile: Tile| tile.on) }
    }
}

/// Whether `cells` is the number of cells on a board of the given width.
fn is_square(width: i32, cells: usize) -> (square: bool)
    ensures
        square == (width > 0 && cells == width * width),
{
    if width <= 0 {
        return false;
    }
    let side: u64 = width as u64;
    assert(side * side <= u64::MAX) by (nonlinear_arith)
        requires
            0 < side <= i32::MAX,
    ;
    cells as u64 == side * side
}

impl World {
    /// The width is positive and there is exactly one cell for each
    /// position of the board.
    pub open spec fn wf(&self) -> bool {
        self@.wf()
    }

    /// Whether a width and a row-by-row list of cells make up a board.
    pub open spec fn fits(width: int, tiles: Seq<Tile>) -> bool {
        width > 0 && tiles.len() == width * width
    }

    /// The board of the given width whose cells are `tiles`, row by row.
    pub fn from_data(width: i32, tiles: Vec<Tile>) -> (world: World)
        requires
            World::fits(width as int, tiles@),
        ensures
            world.wf(),
            world.width == width,
            world.tiles == tiles,
    {
        World { width: width, tiles: tiles }
    }

    /// The board of the given width whose cells are `tiles`, row by row, or
    /// `None` where the width is not positive or the number of cells is not
    /// the square of the width.
    pub fn try_from_data(width: i32, tiles: Vec<Tile>) -> (made: Option<World>)
        ensures
            made is Some <==> World::fits(width as int, tiles@),
            made matches Some(world) ==> world.wf() && world.width == width && world.tiles == tiles,
    {
        if is_square(width, tiles.len()) {
            Some(World::from_data(width, tiles))
        } else {
            None
        }
    }

    /// Whether the board is well formed. The fields are open to change, and
    /// this tells whether [`World::get`], [`World::tick`] and
    /// [`World::position`] may still be called.
    pub fn is_well_formed(&self) -> (well_formed: bool)
        ensures
            well_formed == self.wf(),
    {
        is_square(self.width, self.tiles.len())
    }

    /// The cell in column `coordinates.0` of row `coordinates.1`, or `None`
    /// where that position lies off the board.
    pub fn get(&self, coordinates: (i32, i32)) -> (tile: Option<&Tile>)
        requires
            self.wf(),
        ensures
            tile == if self@.contains(coordinates.0 as int, coordinates.1 as int) {
                Some(&self.tiles@[self@.index_of(coordinates.0 as int, coordinates.1 as int)])
            } else {
                None
            },
            is_live(tile) == self@.alive(coordinates.0 as int, coordinates.1 as int),
    {
        if coordinates.0 >= 0 && coordinates.0 < self.width && coordinates.1 >= 0 && coordinates.1
            < self.width {
            let x: usize = coordinates.0 as usize;
            let y: usize = coordinates.1 as usize;
            let width: usize = self.width as usize;
            proof {
                self@.lemma_index_of(x as int, y as int);
                // The index is below the length of a vector, so it fits.
                assert(self@.cells.len() == self.tiles.len());
            }
            Some(&self.tiles[x + y * width])
        } else {
            None
        }
    }

    /// Replaces the board by its next generation. Every cell of the new
    /// generation is worked out from the old one, which stays untouched
    /// until all of them are known: no cell ever sees a neighbour's new
    /// state.
    pub fn tick(&mut self)
        requires
            old(self).wf(),
        ensures
            final(self).wf(),
            final(self).width == old(self).width,
            final(self)@ == old(self)@.next(),
            forall|x: int, y: int|
                old(self)@.contains(x, y) ==> (#[trigger] final(self).tiles@[old(self)@.index_of(x, y)]).on
                    == old(self)@.fate(x, y),
    {
        let ghost before = self@;
        let mut new_world: Vec<Tile> = Vec::new();
        let mut y: i32 = 0;
        while y < self.width
            invariant
                self.wf(),
                self@ == before,
                0 <= y <= self.width,
                new_world@.len() == y * self.width,
                new_world@.len() <= before.cells.len(),
                forall|i: int|
                    0 <= i < new_world@.len() ==> (#[trigger] new_world@[i]).on
                        == before.next().cells[i],
            decreases self.width - y,
        {
            let mut x: i32 = 0;
            while x < self.width
                invariant
                    self.wf(),
                    self@ == before,
                    0 <= y < self.width,
                    0 <= x <= self.width,
                    new_world@.len() == x + y * self.width,
                    new_world@.len() <= before.cells.len(),
                    forall|i: int|
                        0 <= i < new_world@.len() ==> (#[trigger] new_world@[i]).on
                            == before.next().cells[i],
                decreases self.width - x,
            {
                proof {
                    before.lemma_index_of(x as int, y as int);
                }
                let new_tile = self.get((x, y)).unwrap().evolve(
                    self.get((x - 1, y)),
                    self.get((x, y - 1)),
                    self.get((x + 1, y)),
                    self.get((x, y + 1)),
                    self.get((x - 1, y - 1)),
                    self.get((x + 1, y - 1)),
                    self.get((x - 1, y + 1)),
                    self.get((x + 1, y + 1)),
                );
                new_world.push(new_tile);
                x += 1;
            }
            assert((y + 1) * self.width == self.width + y * self.width) by (nonlinear_arith);
            y += 1;
        }
        self.tiles = new_world;
        assert(self@.cells =~= before.next().cells);
        assert forall|x: int, y: int| before.contains(x, y) implies
            (#[trigger] self.tiles@[before.index_of(x, y)]).on == before.fate(x, y)
        by {
            before.lemma_index_of(x, y);
        }
    }

    /// The column and the row of the cell that stands at `index` of `tiles`,
    /// or `None` where `tiles` has no such index. Handing the result to
    /// [`World::get`] finds that cell again.
    pub fn position(&self, index: usize) -> (coordinates: Option<(i32, i32)>)
        requires
            self.wf(),
        ensures
            coordinates == if index < self.tiles@.len() {
                Some(
                    (
                        (index as int % self.width as int) as i32,
                        (index as int / self.width as int) as i32,
                    ),
                )
            } else {
                None::<(i32, i32)>
            },
            coordinates matches Some((x, y)) ==> self@.contains(x as int, y as int)
                && self@.index_of(x as int, y as int) == index,
    {
        if index < self.tiles.len() {
            proof {
                self@.lemma_position_of(index as int);
            }
            let width: usize = self.width as usize;
            Some(((index % width) as i32, (index / width) as i32))
        } else {
            None
        }
    }

    /// A board is no more than the generation it holds: two boards with the
    /// same view have the same width and the same cells.
    pub proof fn lemma_view_is_faithful(self, other: World)
        requires
            self@ == other@,
        ensures
            self.width == other.width,
            self.tiles@ == other.tiles@,
    {
        assert(self.tiles@.len() == self@.cells.len());
        assert(other.tiles@.len() == other@.cells.len());
        assert forall|i: int| 0 <= i < self.tiles@.len() implies self.tiles@[i]
            == other.tiles@[i] by {
            assert(self@.cells[i] == self.tiles@[i].on);
            assert(other@.cells[i] == other.tiles@[i].on);
        }
        assert(self.tiles@ =~= other.tiles@);
    }

    /// A board without a live cell stays as it is: whatever board holds the
    /// generation reached from it after any number of steps has the same
    /// width and the same cells.
    pub proof fn lemma_empty_board_is_stable(self, steps: nat, after: World)
        requires
            self.wf(),
            forall|i: int| 0 <= i < self.tiles@.len() ==> !(#[trigger] self.tiles@[i]).on,
            after@ == self@.after(steps),
        ensures
            after.width == self.width,
            after.tiles@ == self.tiles@,
    {
        self@.lemma_empty_stays_empty(steps);
        after.lemma_view_is_faithful(self);
    }

    /// A step is deterministic. Take two boards of the same width and the
    /// same cells, however each was made, and let `self_after` and
    /// `other_after` be what [`World::tick`] leaves of them: these again
    /// have the same width and the same cells.
    pub proof fn lemma_tick_is_deterministic(
        self,
        other: World,
        self_after: World,
        other_after: World,
    )
        requires
            self.wf(),
            other.wf(),
            self.width == other.width,
            self.tiles@ == other.tiles@,
            self_after@ == self@.next(),
            other_after@ == other@.next(),
        ensures
            self_after.width == other_after.width,
            self_after.tiles@ == other_after.tiles@,
    {
        self_after.lemma_view_is_faithful(other_after);
    }
}

} // verus!
