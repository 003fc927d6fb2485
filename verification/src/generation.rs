//! The mathematical model of the game: one generation of a square board,
//! the generation that follows it, and the laws that hold of both.

use crate::cell::{one_if, survives};
use vstd::prelude::*;

verus! {

/// One generation: a square board of `width` by `width` cells with hard
/// edges, held row by row. The cell in column `x` of row `y` stands at
/// `x + y * width`, and `true` is a live cell.
#[verifier::ext_equal]
pub struct Generation {
    pub width: int,
    pub cells: Seq<bool>,
}

impl Generation {
    /// The board has a positive width and holds exactly one cell for each
    /// position.
    pub open spec fn wf(self) -> bool {
        &&& self.width > 0
        &&& self.cells.len() == self.width * self.width
    }

    /// Whether column `x` of row `y` lies on the board.
    pub open spec fn contains(self, x: int, y: int) -> bool {
        0 <= x < self.width && 0 <= y < self.width
    }

    /// Where the cell in column `x` of row `y` stands in `cells`.
    pub open spec fn index_of(self, x: int, y: int) -> int {
        x + y * self.width
    }

    /// Whether column `x` of row `y` holds a live cell. A position off the
    /// board holds none: the edges do not wrap around.
    pub open spec fn alive(self, x: int, y: int) -> bool {
        self.contains(x, y) && self.cells[self.index_of(x, y)]
    }

    /// How many of the eight positions around column `x` of row `y` hold a
    /// live cell.
    pub open spec fn live_neighbours(self, x: int, y: int) -> nat {
        one_if(self.alive(x - 1, y)) + one_if(self.alive(x + 1, y))
            + one_if(self.alive(x, y - 1)) + one_if(self.alive(x, y + 1))
            + one_if(self.alive(x - 1, y - 1)) + one_if(self.alive(x + 1, y - 1))
            + one_if(self.alive(x - 1, y + 1)) + one_if(self.alive(x + 1, y + 1))
    }

    /// Whether column `x` of row `y` holds a live cell in the next
    /// generation. This looks at the present generation only.
    pub open spec fn fate(self, x: int, y: int) -> bool {
        survives(self.alive(x, y), self.live_neighbours(x, y) as int)
    }

    /// The next generation: every cell meets its fate at once.
    pub open spec fn next(self) -> Generation {
        Generation {
            width: self.width,
            cells: Seq::new(
                self.cells.len(),
                |i: int| self.fate(i % self.width, i / self.width),
            ),
        }
    }

    /// The generation reached after the given number of steps.
    pub open spec fn after(self, steps: nat) -> Generation
        decreases steps,
    {
        if steps == 0 {
            self
        } else {
            self.after((steps - 1) as nat).next()
        }
    }

    /// No cell of the board is alive.
    pub open spec fn all_dead(self) -> bool {
        forall|i: int| 0 <= i < self.cells.len() ==> !(#[trigger] self.cells[i])
    }

    /// On a well-formed board the positions and the indices of `cells` match
    /// one to one: a position on the board has an index in range, from which
    /// remainder and quotient by the width give the position back.
    pub proof fn lemma_index_of(self, x: int, y: int)
        requires
            self.wf(),
            self.contains(x, y),
        ensures
            0 <= self.index_of(x, y) < self.cells.len(),
            self.index_of(x, y) % self.width == x,
            self.index_of(x, y) / self.width == y,
    {
        let w = self.width;
        assert(0 <= y * w && y * w + w <= w * w) by (nonlinear_arith)
            requires
                0 <= y < w,
        ;
        vstd::arithmetic::div_mod::lemma_fundamental_div_mod_converse(x + y * w, w, y, x);
    }

    /// Every index of `cells` belongs to exactly one position on the board.
    pub proof fn lemma_position_of(self, i: int)
        requires
            self.wf(),
            0 <= i < self.cells.len(),
        ensures
            self.contains(i % self.width, i / self.width),
            self.index_of(i % self.width, i / self.width) == i,
    {
        let w = self.width;
        vstd::arithmetic::div_mod::lemma_fundamental_div_mod(i, w);
        vstd::arithmetic::div_mod::lemma_mod_bound(i, w);
        assert(0 <= i / w < w) by (nonlinear_arith)
            requires
                0 <= i < w * w,
                w > 0,
                i == w * (i / w) + i % w,
                0 <= i % w < w,
        ;
        assert(w * (i / w) == (i / w) * w) by (nonlinear_arith);
    }

    /// A step keeps the board's shape.
    pub proof fn lemma_next_wf(self)
        requires
            self.wf(),
        ensures
            self.next().wf(),
            self.next().width == self.width,
    {
    }

    /// Each cell of the next generation is the fate of the cell that stood
    /// in its place, and that fate is a matter of the present generation alone.
    pub proof fn lemma_next_cell(self, x: int, y: int)
        requires
            self.wf(),
            self.contains(x, y),
        ensures
            self.next().alive(x, y) == self.fate(x, y),
    {
        self.lemma_index_of(x, y);
    }

    /// The next generation does not depend on the order in which the cells
    /// are worked out. Any board of the same shape whose every cell is the
    /// fate of the cell that stood in its place, in whatever order they were
    /// filled in, is the next generation.
    pub proof fn lemma_next_is_unique(self, other: Generation)
        requires
            self.wf(),
            other.wf(),
            other.width == self.width,
            forall|x: int, y: int|
                self.contains(x, y) ==> #[trigger] other.alive(x, y) == self.fate(x, y),
        ensures
            other == self.next(),
    {
        assert forall|i: int| 0 <= i < other.cells.len() implies other.cells[i]
            == self.next().cells[i] by {
            self.lemma_position_of(i);
            let x = i % self.width;
            let y = i / self.width;
            assert(other.alive(x, y) == self.fate(x, y));
        }
        assert(other.cells =~= self.next().cells);
    }

    /// A board without a live cell has none in the next generation either.
    pub proof fn lemma_empty_next(self)
        requires
            self.wf(),
            self.all_dead(),
        ensures
            self.next() == self,
    {
        assert forall|i: int| 0 <= i < self.cells.len() implies self.next().cells[i]
            == self.cells[i] by {
            self.lemma_position_of(i);
            let x = i % self.width;
            let y = i / self.width;
            self.lemma_dead_around(x, y);
        }
        assert(self.next().cells =~= self.cells);
    }

    /// On a board without a live cell no position holds one, so no cell has
    /// a live neighbour.
    proof fn lemma_dead_around(self, x: int, y: int)
        requires
            self.wf(),
            self.all_dead(),
        ensures
            forall|dx: int, dy: int| !(#[trigger] self.alive(x + dx, y + dy)),
            self.live_neighbours(x, y) == 0,
            !self.fate(x, y),
    {
        assert forall|dx: int, dy: int| !(#[trigger] self.alive(x + dx, y + dy)) by {
            if self.contains(x + dx, y + dy) {
                self.lemma_index_of(x + dx, y + dy);
            }
        }
        assert(!self.alive(x + 0, y + 0));
        assert(!self.alive(x + (-1), y + 0));
        assert(!self.alive(x + 1, y + 0));
        assert(!self.alive(x + 0, y + (-1)));
        assert(!self.alive(x + 0, y + 1));
        assert(!self.alive(x + (-1), y + (-1)));
        assert(!self.alive(x + 1, y + (-1)));
        assert(!self.alive(x + (-1), y + 1));
        assert(!self.alive(x + 1, y + 1));
    }

    /// A board without a live cell stays as it is, however many steps are
    /// taken.
    pub proof fn lemma_empty_stays_empty(self, steps: nat)
        requires
            self.wf(),
            self.all_dead(),
        ensures
            self.after(steps) == self,
            self.after(steps).all_dead(),
        decreases steps,
    {
        if steps > 0 {
            self.lemma_empty_stays_empty((steps - 1) as nat);
            self.lemma_empty_next();
        }
    }

    /// Any number of steps keeps the board's shape.
    pub proof fn lemma_after_wf(self, steps: nat)
        requires
            self.wf(),
        ensures
            self.after(steps).wf(),
            self.after(steps).width == self.width,
        decreases steps,
    {
        if steps > 0 {
            self.lemma_after_wf((steps - 1) as nat);
        }
    }

    /// The edges are hard. No cell has more than eight live neighbours, a
    /// cell on an edge of the board has at most five, and a cell in a corner
    /// at most three: the positions beyond the edge hold nothing.
    pub proof fn lemma_neighbours_at_the_edges(self, x: int, y: int)
        requires
            self.contains(x, y),
        ensures
            self.live_neighbours(x, y) <= 8,
            x == 0 || x == self.width - 1 || y == 0 || y == self.width - 1
                ==> self.live_neighbours(x, y) <= 5,
            (x == 0 || x == self.width - 1) && (y == 0 || y == self.width - 1)
                ==> self.live_neighbours(x, y) <= 3,
    {
    }
}

} // verus!
