use vstd::pervasive::VecAdditionalExecFns;
use vstd::prelude::*;

use crate::cell::Cell;
use crate::collection::{CellCollection, Column, Row, Square};
use crate::coords::Coord;
use crate::mark::Mark;
use crate::model::{cell_unset, grid_wf, lemma_cell_unset};

verus! {

/// The board: the sole owner of all 81 cells, indexed linearly in
/// row-major order.  Rows, columns and squares are recomputed coordinate
/// views over it, never copies of cell storage.
///
/// Cloning a grid deep-copies the cells, so a solver can mutate its
/// working copy without aliasing the caller's grid.
#[derive(Clone, Debug)]
pub struct Grid {
    cells: Vec<Cell>,
}

impl View for Grid {
    type V = Seq<Cell>;

    closed spec fn view(&self) -> Seq<Cell> {
        self.cells@
    }
}

impl Grid {
    pub open spec fn wf(&self) -> bool {
        grid_wf(self@)
    }

    /// An empty grid: every cell undetermined with all digits possible.
    pub fn new() -> (g: Grid)
        ensures
            g.wf(),
            forall|i: int| 0 <= i < 81 ==> #[trigger] g@[i] == crate::model::full_cell(),
    {
        let mut cells: Vec<Cell> = Vec::new();
        for i in 0..81usize
            invariant
                cells@.len() == i,
                forall|j: int| 0 <= j < i ==> #[trigger] cells@[j] == crate::model::full_cell(),
        {
            cells.push(Cell::new());
        }
        Grid { cells }
    }

    /// A grid built from a known fixed board.
    pub fn from(cells: [Cell; 81]) -> (g: Grid)
        requires
            forall|i: int| 0 <= i < 81 ==> (#[trigger] cells@[i]).wf(),
        ensures
            g@ == cells@,
            g.wf(),
    {
        let mut v: Vec<Cell> = Vec::new();
        for i in 0..81usize
            invariant
                v@.len() == i,
                forall|j: int| 0 <= j < i ==> #[trigger] v@[j] == cells@[j],
        {
            v.push(cells[i]);
        }
        proof {
            assert(v@ =~= cells@);
        }
        Grid { cells: v }
    }

    /// A grid built from a prepared vector of 81 cells.
    pub fn from_vec(cells: Vec<Cell>) -> (g: Grid)
        requires
            cells@.len() == 81,
            forall|i: int| 0 <= i < 81 ==> (#[trigger] cells@[i]).wf(),
        ensures
            g@ == cells@,
            g.wf(),
    {
        Grid { cells }
    }

    /// The number of cells.
    pub fn max(&self) -> (r: usize)
        ensures
            r == 81,
    {
        81
    }

    /// All linear indices, for iteration.
    pub fn iter(&self) -> (r: core::ops::Range<usize>)
        ensures
            r.start == 0,
            r.end == 81,
    {
        0..81
    }

    pub fn get_cell(&self, index: usize) -> (c: Cell)
        requires
            self@.len() == 81,
            index < 81,
        ensures
            c == self@[index as int],
    {
        self.cells[index]
    }

    pub fn set_cell(&mut self, index: usize, cell: &Cell)
        requires
            old(self)@.len() == 81,
            index < 81,
        ensures
            final(self)@ == old(self)@.update(index as int, *cell),
    {
        self.cells.set(index, *cell);
    }

    pub fn get_coord(&self, index: usize) -> (c: Coord)
        requires
            index < 81,
        ensures
            c.wf(),
            c.index() == index,
            c.row == index / 9,
            c.col == index % 9,
    {
        Coord::new(index / 9, index % 9)
    }

    pub fn get_cell_at(&self, coord: Coord) -> (c: Cell)
        requires
            self@.len() == 81,
            coord.wf(),
        ensures
            c == self@[coord.index()],
    {
        self.cells[coord.row * 9 + coord.col]
    }

    pub fn set_cell_at(&mut self, coord: Coord, cell: Cell)
        requires
            old(self)@.len() == 81,
            coord.wf(),
        ensures
            final(self)@ == old(self)@.update(coord.index(), cell),
    {
        self.cells.set(coord.row * 9 + coord.col, cell);
    }

    /// Remove one candidate mark from the cell at `coord`; a no-op if the
    /// cell is determined or the mark is already absent.
    pub fn unset_possible_at(&mut self, coord: Coord, mark: Mark)
        requires
            old(self).wf(),
            coord.wf(),
        ensures
            final(self).wf(),
            final(self)@ == old(self)@.update(
                coord.index(),
                cell_unset(old(self)@[coord.index()], mark.as_int()),
            ),
    {
        let c = self.get_cell_at(coord);
        proof {
            lemma_cell_unset(c, mark.as_int());
        }
        if c.is_determined() {
            proof {
                assert(!c.has(mark.as_int())) by {
                    crate::possibility::lemma_empty_mask(mark.as_int());
                }
                assert(cell_unset(c, mark.as_int()) == c);
                assert(old(self)@.update(coord.index(), c) =~= old(self)@);
            }
        } else {
            let mut p = c.possibilities;
            p.unset_possible(mark);
            let updated = Cell { value: c.value, possibilities: p };
            proof {
                assert(updated == cell_unset(c, mark.as_int()));
            }
            self.set_cell_at(coord, updated);
            proof {
                assert forall|i: int| 0 <= i < 81 implies (#[trigger] self@[i]).wf() by {
                    if i != coord.index() {
                        assert(self@[i] == old(self)@[i]);
                    }
                }
            }
        }
    }

    pub fn get_row(&self, row: usize) -> (r: Row)
        requires
            row < 9,
        ensures
            r.wf(),
            r.kind() == 0,
            r.num() == row,
    {
        Row::new(row)
    }

    pub fn get_column(&self, col: usize) -> (r: Column)
        requires
            col < 9,
        ensures
            r.wf(),
            r.kind() == 1,
            r.num() == col,
    {
        Column::new(col)
    }

    /// The square area containing `coord`.
    pub fn get_square_at(&self, coord: Coord) -> (r: Square)
        requires
            coord.wf(),
        ensures
            r.wf(),
            r.kind() == 2,
            r.num() == (coord.row / 3) * 3 + coord.col / 3,
    {
        Square::new((coord.row / 3) * 3 + coord.col / 3)
    }
}

} // verus!
