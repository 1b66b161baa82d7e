use vstd::prelude::*;

use crate::cell::Cell;
use crate::coords::Coord;
use crate::grid::Grid;
use crate::model::{house_col, house_index, house_row};

verus! {

/// A uniform view over the nine cells of one row, column or square.
///
/// An area owns no cell data: it is purely a coordinate-generation
/// strategy, and every cell it hands out is read through the owning grid.
pub trait CellCollection: Sized {
    /// 0 for a row, 1 for a column, 2 for a square.
    spec fn kind(&self) -> int;

    /// Which row, column or square this is (0..9).
    spec fn num(&self) -> int;

    spec fn wf(&self) -> bool;

    proof fn wf_facts(&self)
        requires
            self.wf(),
        ensures
            0 <= self.kind() < 3,
            0 <= self.num() < 9,
    ;

    /// The board coordinate of position `index` within this area.
    fn get_coord(&self, index: usize) -> (c: Coord)
        requires
            self.wf(),
            index < 9,
        ensures
            c.wf(),
            c.row as int == house_row(self.kind(), self.num(), index as int),
            c.col as int == house_col(self.kind(), self.num(), index as int),
            c.index() == house_index(self.kind(), self.num(), index as int),
    ;

    /// The cell at position `index`, read through the owning grid.
    fn get_cell(&self, grid: &Grid, index: usize) -> (c: Cell)
        requires
            self.wf(),
            index < 9,
            grid.wf(),
        ensures
            c == grid@[house_index(self.kind(), self.num(), index as int)],
    ;
}

pub struct Row {
    pub row: usize,
}

impl Row {
    pub fn new(row: usize) -> (r: Row)
        requires
            row < 9,
        ensures
            r.wf(),
            r.kind() == 0,
            r.num() == row,
    {
        Row { row }
    }
}

impl CellCollection for Row {
    open spec fn kind(&self) -> int {
        0
    }

    open spec fn num(&self) -> int {
        self.row as int
    }

    open spec fn wf(&self) -> bool {
        self.row < 9
    }

    proof fn wf_facts(&self) {
    }

    fn get_coord(&self, index: usize) -> (c: Coord) {
        Coord::new(self.row, index)
    }

    fn get_cell(&self, grid: &Grid, index: usize) -> (c: Cell) {
        let coord = self.get_coord(index);
        grid.get_cell_at(coord)
    }
}

pub struct Column {
    pub col: usize,
}

impl Column {
    pub fn new(col: usize) -> (r: Column)
        requires
            col < 9,
        ensures
            r.wf(),
            r.kind() == 1,
            r.num() == col,
    {
        Column { col }
    }
}

impl CellCollection for Column {
    open spec fn kind(&self) -> int {
        1
    }

    open spec fn num(&self) -> int {
        self.col as int
    }

    open spec fn wf(&self) -> bool {
        self.col < 9
    }

    proof fn wf_facts(&self) {
    }

    fn get_coord(&self, index: usize) -> (c: Coord) {
        Coord::new(index, self.col)
    }

    fn get_cell(&self, grid: &Grid, index: usize) -> (c: Cell) {
        let coord = self.get_coord(index);
        grid.get_cell_at(coord)
    }
}

pub struct Square {
    pub square: usize,
}

impl Square {
    pub fn new(square: usize) -> (r: Square)
        requires
            square < 9,
        ensures
            r.wf(),
            r.kind() == 2,
            r.num() == square,
    {
        Square { square }
    }
}

impl CellCollection for Square {
    open spec fn kind(&self) -> int {
        2
    }

    open spec fn num(&self) -> int {
        self.square as int
    }

    open spec fn wf(&self) -> bool {
        self.square < 9
    }

    proof fn wf_facts(&self) {
    }

    fn get_coord(&self, index: usize) -> (c: Coord) {
        Coord::new((self.square / 3) * 3 + index / 3, (self.square % 3) * 3 + index % 3)
    }

    fn get_cell(&self, grid: &Grid, index: usize) -> (c: Cell) {
        let coord = self.get_coord(index);
        grid.get_cell_at(coord)
    }
}

} // verus!
