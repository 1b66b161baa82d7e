use vstd::prelude::*;

use crate::cell::Cell;
use crate::collection::CellCollection;
use crate::grid::Grid;
use crate::mark::Mark;
use crate::model::{house_index, lemma_house_bounds};
use crate::possibility::{lemma_mask_isolate, lemma_mask_or, mask_has, Possibility};

verus! {

/// OR of the possibility masks of one third (three consecutive positions)
/// of house (t, n).
pub open spec fn third_bits(g: Seq<Cell>, t: int, n: int, q: int) -> u16 {
    (g[house_index(t, n, 3 * q)].possibilities.bits | g[house_index(
        t,
        n,
        3 * q + 1,
    )].possibilities.bits) | g[house_index(t, n, 3 * q + 2)].possibilities.bits
}

/// A segment of a slice contains a mark iff some cell of its third allows
/// it.
pub proof fn lemma_third_semantics(g: Seq<Cell>, t: int, n: int, q: int, m: int)
    requires
        0 <= t < 3,
        0 <= n < 9,
        0 <= q < 3,
        1 <= m <= 9,
    ensures
        mask_has(third_bits(g, t, n, q), m) <==> (exists|j: int|
            3 * q <= j < 3 * q + 3 && (#[trigger] g[house_index(t, n, j)]).has(m)),
{
    let b0 = g[house_index(t, n, 3 * q)].possibilities.bits;
    let b1 = g[house_index(t, n, 3 * q + 1)].possibilities.bits;
    let b2 = g[house_index(t, n, 3 * q + 2)].possibilities.bits;
    lemma_mask_or(b0, b1);
    lemma_mask_or(b0 | b1, b2);
    if mask_has(third_bits(g, t, n, q), m) {
        if mask_has(b0, m) {
            assert(g[house_index(t, n, 3 * q)].has(m));
        } else if mask_has(b1, m) {
            assert(g[house_index(t, n, 3 * q + 1)].has(m));
        } else {
            assert(g[house_index(t, n, 3 * q + 2)].has(m));
        }
    }
    if exists|j: int| 3 * q <= j < 3 * q + 3 && (#[trigger] g[house_index(t, n, j)]).has(m) {
        let j = choose|j: int| 3 * q <= j < 3 * q + 3 && (#[trigger] g[house_index(t, n, j)]).has(
            m,
        );
        assert(j == 3 * q || j == 3 * q + 1 || j == 3 * q + 2);
    }
}

/// An ephemeral packed view of one area's nine possibility masks, one
/// 9-bit segment per third, so that a constant number of bitwise
/// operations can test a property across a group of three cells at once.
/// Constructed on demand from a grid and an area; never persisted.
#[derive(Clone, Copy, PartialEq, Eq, Structural, Debug)]
pub struct Slice {
    pub seg0: u16,
    pub seg1: u16,
    pub seg2: u16,
}

impl Slice {
    pub open spec fn wf(self) -> bool {
        self.seg0 < 512 && self.seg1 < 512 && self.seg2 < 512
    }

    /// The segments of this slice are the third-masks of house (t, n) in
    /// grid `g`.
    pub open spec fn is_from(self, g: Seq<Cell>, t: int, n: int) -> bool {
        self.seg0 == third_bits(g, t, n, 0) && self.seg1 == third_bits(g, t, n, 1) && self.seg2
            == third_bits(g, t, n, 2)
    }

    /// Pack the nine possibility masks of one area, one OR-ed segment per
    /// third.
    pub fn from<T: CellCollection>(grid: &Grid, check: &T) -> (s: Slice)
        requires
            grid.wf(),
            check.wf(),
        ensures
            s.is_from(grid@, check.kind(), check.num()),
            s.wf(),
    {
        proof {
            check.wf_facts();
        }
        let c0 = check.get_cell(grid, 0);
        let c1 = check.get_cell(grid, 1);
        let c2 = check.get_cell(grid, 2);
        let c3 = check.get_cell(grid, 3);
        let c4 = check.get_cell(grid, 4);
        let c5 = check.get_cell(grid, 5);
        let c6 = check.get_cell(grid, 6);
        let c7 = check.get_cell(grid, 7);
        let c8 = check.get_cell(grid, 8);
        proof {
            let t = check.kind();
            let n = check.num();
            assert forall|j: int| 0 <= j < 9 implies (#[trigger] grid@[house_index(
                t,
                n,
                j,
            )]).wf() by {
                lemma_house_bounds(t, n, j);
            }
            lemma_mask_or(c0.possibilities.bits, c1.possibilities.bits);
            lemma_mask_or(c0.possibilities.bits | c1.possibilities.bits, c2.possibilities.bits);
            lemma_mask_or(c3.possibilities.bits, c4.possibilities.bits);
            lemma_mask_or(c3.possibilities.bits | c4.possibilities.bits, c5.possibilities.bits);
            lemma_mask_or(c6.possibilities.bits, c7.possibilities.bits);
            lemma_mask_or(c6.possibilities.bits | c7.possibilities.bits, c8.possibilities.bits);
        }
        Slice {
            seg0: (c0.possibilities.bits | c1.possibilities.bits) | c2.possibilities.bits,
            seg1: (c3.possibilities.bits | c4.possibilities.bits) | c5.possibilities.bits,
            seg2: (c6.possibilities.bits | c7.possibilities.bits) | c8.possibilities.bits,
        }
    }

    /// OR of all nine cells' masks: the marks possible somewhere in the
    /// area.
    pub fn or_all(&self) -> (p: Possibility)
        requires
            self.wf(),
        ensures
            p.bits == (self.seg0 | self.seg1) | self.seg2,
            p.wf(),
    {
        proof {
            lemma_mask_or(self.seg0, self.seg1);
            lemma_mask_or(self.seg0 | self.seg1, self.seg2);
        }
        Possibility { bits: (self.seg0 | self.seg1) | self.seg2 }
    }

    /// Isolate, segment by segment, which cells still allow `mark`.
    pub fn only_possible_value(&self, mark: Mark) -> (s: Slice)
        ensures
            s.seg0 == self.seg0 & (1u16 << (mark.as_int() - 1) as u16),
            s.seg1 == self.seg1 & (1u16 << (mark.as_int() - 1) as u16),
            s.seg2 == self.seg2 & (1u16 << (mark.as_int() - 1) as u16),
            (s.seg0 == 0) <==> !mask_has(self.seg0, mark.as_int()),
            (s.seg1 == 0) <==> !mask_has(self.seg1, mark.as_int()),
            (s.seg2 == 0) <==> !mask_has(self.seg2, mark.as_int()),
    {
        let m = mark.to_value();
        let bit = 1u16 << (m - 1) as u16;
        proof {
            lemma_mask_isolate(self.seg0, mark.as_int());
            lemma_mask_isolate(self.seg1, mark.as_int());
            lemma_mask_isolate(self.seg2, mark.as_int());
        }
        Slice { seg0: self.seg0 & bit, seg1: self.seg1 & bit, seg2: self.seg2 & bit }
    }
}

} // verus!
