use vstd::prelude::*;

verus! {

/// A (row, column) pair on the board, each in 0..9.  Pure value, no
/// identity; the derived linear index is `row * 9 + col`.
#[derive(Clone, Copy, PartialEq, Eq, Structural, Debug)]
pub struct Coord {
    pub row: usize,
    pub col: usize,
}

impl Coord {
    pub open spec fn wf(self) -> bool {
        self.row < 9 && self.col < 9
    }

    /// The linear board index of this coordinate.
    pub open spec fn index(self) -> int {
        self.row * 9 + self.col
    }

    pub fn new(row: usize, col: usize) -> (c: Coord)
        requires
            row < 9,
            col < 9,
        ensures
            c.row == row,
            c.col == col,
            c.wf(),
    {
        Coord { row, col }
    }

    /// The linear board index, executable form.
    pub fn get_index(&self) -> (i: usize)
        requires
            self.wf(),
        ensures
            i == self.index(),
            i < 81,
    {
        self.row * 9 + self.col
    }
}

} // verus!
