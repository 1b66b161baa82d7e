use vstd::prelude::*;

verus! {

/// One candidate digit (1..=9) for a cell.
#[derive(Clone, Copy, PartialEq, Eq, Structural, Debug)]
pub enum Mark {
    N1,
    N2,
    N3,
    N4,
    N5,
    N6,
    N7,
    N8,
    N9,
}

impl Mark {
    /// The digit this mark stands for, as a mathematical integer.
    pub open spec fn as_int(self) -> int {
        match self {
            Mark::N1 => 1,
            Mark::N2 => 2,
            Mark::N3 => 3,
            Mark::N4 => 4,
            Mark::N5 => 5,
            Mark::N6 => 6,
            Mark::N7 => 7,
            Mark::N8 => 8,
            Mark::N9 => 9,
        }
    }

    pub fn to_value(self) -> (v: u8)
        ensures
            v as int == self.as_int(),
            1 <= v <= 9,
    {
        match self {
            Mark::N1 => 1u8,
            Mark::N2 => 2u8,
            Mark::N3 => 3u8,
            Mark::N4 => 4u8,
            Mark::N5 => 5u8,
            Mark::N6 => 6u8,
            Mark::N7 => 7u8,
            Mark::N8 => 8u8,
            Mark::N9 => 9u8,
        }
    }

    pub fn from_value(value: u8) -> (m: Mark)
        requires
            1 <= value <= 9,
        ensures
            m.as_int() == value as int,
    {
        match value {
            1 => Mark::N1,
            2 => Mark::N2,
            3 => Mark::N3,
            4 => Mark::N4,
            5 => Mark::N5,
            6 => Mark::N6,
            7 => Mark::N7,
            8 => Mark::N8,
            _ => Mark::N9,
        }
    }
}

} // verus!
