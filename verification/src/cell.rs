use vstd::prelude::*;

use crate::mark::Mark;
use crate::possibility::{mask_has, Possibility};

verus! {

/// One cell of the grid: either determined (`value` in 1..=9, no marks
/// left) or undetermined (`value == 0`, `possibilities` holds the marks
/// still allowed).
///
/// Cells are plain value types with structural equality; copying a cell
/// copies its whole state.
#[derive(Clone, Copy, PartialEq, Eq, Structural, Debug)]
pub struct Cell {
    pub value: u8,
    pub possibilities: Possibility,
}

impl Cell {
    pub open spec fn is_det(self) -> bool {
        self.value != 0
    }

    /// Candidate digit `m` is still marked possible here.
    pub open spec fn has(self, m: int) -> bool {
        mask_has(self.possibilities.bits, m)
    }

    pub open spec fn wf(self) -> bool {
        &&& self.value <= 9
        &&& self.possibilities.wf()
        &&& (self.is_det() ==> self.possibilities.bits == 0)
    }

    /// A fresh undetermined cell: every digit possible.
    pub fn new() -> (c: Cell)
        ensures
            c.wf(),
            !c.is_det(),
            c.value == 0,
            c.possibilities.bits == 0x1ffu16,
            forall|k: int| 1 <= k <= 9 ==> c.has(k),
    {
        let p = Possibility::new();
        let c = Cell { value: 0, possibilities: p };
        proof {
            assert forall|k: int| 1 <= k <= 9 implies c.has(k) by {
                assert(p.has(k));
            }
        }
        c
    }

    /// An undetermined cell with no digit possible.
    pub fn new_empty() -> (c: Cell)
        ensures
            c.wf(),
            !c.is_det(),
            c.value == 0,
            forall|k: int| !c.has(k),
    {
        let p = Possibility::new_empty();
        let c = Cell { value: 0, possibilities: p };
        proof {
            assert forall|k: int| !c.has(k) by {
                assert(!p.has(k));
            }
        }
        c
    }

    /// A determined cell holding `value`.
    pub fn new_with_value(value: u8) -> (c: Cell)
        requires
            1 <= value <= 9,
        ensures
            c.wf(),
            c.is_det(),
            c.value == value,
            c.possibilities.bits == 0,
            forall|k: int| !c.has(k),
    {
        let p = Possibility::new_empty();
        let c = Cell { value, possibilities: p };
        proof {
            assert forall|k: int| !c.has(k) by {
                assert(!p.has(k));
            }
        }
        c
    }

    pub fn is_determined(&self) -> (r: bool)
        ensures
            r == self.is_det(),
    {
        self.value != 0
    }

    /// The held digit of a determined cell, `None` otherwise.
    pub fn value(&self) -> (r: Option<u8>)
        ensures
            match r {
                Some(v) => self.is_det() && v == self.value,
                None => !self.is_det(),
            },
    {
        if self.value != 0 {
            Some(self.value)
        } else {
            None
        }
    }

    pub fn is_possible(&self, mark: Mark) -> (r: bool)
        ensures
            r == self.has(mark.as_int()),
    {
        self.possibilities.is_possible(mark)
    }

    /// The marks still possible here, in ascending order (empty for a
    /// determined cell).
    pub fn iter_possible(&self) -> (r: Vec<Mark>)
        ensures
            r@ == crate::possibility::marks_from(self.possibilities.bits, 1),
    {
        self.possibilities.iter_possible()
    }

    pub fn set_possible(&mut self, mark: Mark)
        requires
            old(self).possibilities.wf(),
        ensures
            final(self).value == old(self).value,
            final(self).possibilities.wf(),
            final(self).possibilities.bits == old(self).possibilities.bits | (1u16 << (
            mark.as_int() - 1) as u16),
            forall|k: int| 1 <= k <= 9 ==> (final(self).has(k) <==> (old(self).has(k) || k
                == mark.as_int())),
    {
        let ghost before = self.possibilities;
        self.possibilities.set_possible(mark);
        proof {
            assert forall|k: int| 1 <= k <= 9 implies (self.has(k) <==> (old(self).has(k) || k
                == mark.as_int())) by {
                assert(self.possibilities.has(k) <==> (before.has(k) || k == mark.as_int()));
            }
        }
    }
}

} // verus!
