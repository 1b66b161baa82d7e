use vstd::prelude::*;

use crate::cell::Cell;
use crate::collection::{CellCollection, Column, Row};
use crate::coords::Coord;
use crate::grid::Grid;
use crate::mark::Mark;
use crate::model::{
    area_consistent, cell_elim, cell_unset, confined, consistent, elim_step, grid_wf,
    house_index, lemma_cell_unset, lemma_change_step, lemma_elim_step_refines,
    lemma_elim_step_trans, lemma_house_bounds, lemma_house_injective, lemma_line_cross_distinct,
    lemma_locked_sound, lemma_pruned_stable, possible_in_house, pruned, valid_solution,
};
use crate::possibility::{mask_has, Possibility};
use crate::slice::{lemma_third_semantics, Slice};
use crate::solver::SolveResult;

verus! {

/// The locked-candidate ("pointing") strategy.  Within one band of three
/// rows (or columns) spanning three squares: when, in one check line, a
/// mark is possible only inside a single square, the check line accounts
/// for that square's occurrence of the mark, so the mark is eliminated
/// from that square's cells in the other two lines of the band.
pub struct MarkOccupy {}

/// Mark `m` no longer appears in the possibility sets of positions
/// `3q..3q+3` of lines `n1` and `n2` (the third that crosses one square).
pub open spec fn locked_cleared(g: Seq<Cell>, t: int, n1: int, n2: int, m: int, q: int) -> bool {
    forall|p: int|
        3 * q <= p < 3 * q + 3 ==> !(#[trigger] g[house_index(t, n1, p)]).has(m) && !g[house_index(
            t,
            n2,
            p,
        )].has(m)
}

/// Which single third the isolated mark bits fall into, if any.
pub open spec fn which_square_spec(s: Slice) -> Option<int> {
    if s.seg1 == 0 && s.seg2 == 0 {
        Some(0int)
    } else if s.seg0 == 0 && s.seg2 == 0 {
        Some(1int)
    } else if s.seg0 == 0 && s.seg1 == 0 {
        Some(2int)
    } else {
        None
    }
}

fn which_square(marked: Slice) -> (r: Option<usize>)
    ensures
        match r {
            Some(q) => 0 <= q < 3 && which_square_spec(marked) == Some(q as int),
            None => which_square_spec(marked) is None,
        },
{
    if marked.seg1 == 0 && marked.seg2 == 0 {
        Some(0)
    } else if marked.seg0 == 0 && marked.seg2 == 0 {
        Some(1)
    } else if marked.seg0 == 0 && marked.seg1 == 0 {
        Some(2)
    } else {
        None
    }
}

/// Remove `mark` from the cell at `coord`, reporting whether it was
/// present.
pub(crate) fn mark_off_at(grid: &mut Grid, coord: Coord, mark: Mark) -> (r: bool)
    requires
        old(grid).wf(),
        coord.wf(),
    ensures
        final(grid).wf(),
        final(grid)@ == old(grid)@.update(
            coord.index(),
            cell_unset(old(grid)@[coord.index()], mark.as_int()),
        ),
        r == old(grid)@[coord.index()].has(mark.as_int()),
        r <==> (final(grid)@ != old(grid)@),
{
    let cell = grid.get_cell_at(coord);
    proof {
        lemma_cell_unset(cell, mark.as_int());
    }
    if !cell.is_possible(mark) {
        proof {
            assert(cell_unset(cell, mark.as_int()) == cell);
            assert(old(grid)@.update(coord.index(), cell) =~= old(grid)@);
        }
        return false;
    }
    grid.unset_possible_at(coord, mark);
    proof {
        assert(grid@[coord.index()] == cell_unset(cell, mark.as_int()));
        assert(grid@ != old(grid)@) by {
            assert(grid@[coord.index()] != old(grid)@[coord.index()]);
        }
    }
    true
}

/// Remove `mark` from the three cells of `set` at positions
/// `start..start+3`.
pub fn unset_three<T: CellCollection>(grid: &mut Grid, start: usize, set: &T, mark: Mark) -> (r:
    bool)
    requires
        old(grid).wf(),
        set.wf(),
        start + 3 <= 9,
    ensures
        final(grid).wf(),
        forall|i: int|
            0 <= i < 81 ==> #[trigger] final(grid)@[i] == (if i == house_index(
                set.kind(),
                set.num(),
                start as int,
            ) || i == house_index(set.kind(), set.num(), start as int + 1) || i == house_index(
                set.kind(),
                set.num(),
                start as int + 2,
            ) {
                cell_unset(old(grid)@[i], mark.as_int())
            } else {
                old(grid)@[i]
            }),
        elim_step(final(grid)@, old(grid)@),
        forall|p: int|
            start <= p < start + 3 ==> !(#[trigger] final(grid)@[house_index(
                set.kind(),
                set.num(),
                p,
            )]).has(mark.as_int()),
        r <==> (final(grid)@ != old(grid)@),
{
    proof {
        set.wf_facts();
    }
    let ghost t = set.kind();
    let ghost n = set.num();
    let ghost g0 = old(grid)@;
    let ghost m = mark.as_int();
    let ghost i0 = house_index(t, n, start as int);
    let ghost i1 = house_index(t, n, start as int + 1);
    let ghost i2 = house_index(t, n, start as int + 2);
    proof {
        lemma_house_bounds(t, n, start as int);
        lemma_house_bounds(t, n, start as int + 1);
        lemma_house_bounds(t, n, start as int + 2);
        lemma_house_injective(t, n, start as int, start as int + 1);
        lemma_house_injective(t, n, start as int, start as int + 2);
        lemma_house_injective(t, n, start as int + 1, start as int + 2);
        lemma_cell_unset(g0[i0], m);
        lemma_cell_unset(g0[i1], m);
        lemma_cell_unset(g0[i2], m);
    }
    let c0 = mark_off_at(grid, set.get_coord(start), mark);
    let ghost g1 = grid@;
    let c1 = mark_off_at(grid, set.get_coord(start + 1), mark);
    let ghost g2 = grid@;
    let c2 = mark_off_at(grid, set.get_coord(start + 2), mark);
    let ghost g3 = grid@;
    proof {
        assert(g1 == g0.update(i0, cell_unset(g0[i0], m)));
        assert(g1[i1] == g0[i1] && g1[i2] == g0[i2]);
        assert(g2 == g1.update(i1, cell_unset(g0[i1], m)));
        assert(g2[i2] == g0[i2]);
        assert(g3 == g2.update(i2, cell_unset(g0[i2], m)));
        assert forall|i: int| 0 <= i < 81 implies #[trigger] g3[i] == (if i == i0 || i == i1 || i
            == i2 {
            cell_unset(g0[i], m)
        } else {
            g0[i]
        }) by {}
        assert forall|i: int| 0 <= i < 81 implies cell_elim(#[trigger] g3[i], #[trigger] g0[i]) by {
            if i == i0 || i == i1 || i == i2 {
                assert(cell_elim(cell_unset(g0[i], m), g0[i]));
            } else {
                assert(g3[i] == g0[i]);
            }
        }
        assert forall|p: int| start <= p < start + 3 implies !(#[trigger] g3[house_index(
            t,
            n,
            p,
        )]).has(m) by {
            assert(p == start || p == start as int + 1 || p == start as int + 2);
        }
        if !(c0 || c1 || c2) {
            assert(cell_unset(g0[i0], m) == g0[i0]);
            assert(cell_unset(g0[i1], m) == g0[i1]);
            assert(cell_unset(g0[i2], m) == g0[i2]);
            assert(g3 =~= g0);
        }
        if c0 {
            assert(g3[i0] != g0[i0]);
        }
        if c1 {
            assert(g3[i1] != g0[i1]);
        }
        if c2 {
            assert(g3[i2] != g0[i2]);
        }
    }
    c0 || c1 || c2
}

/// One rotation of the locked-candidate check: `check` is the line whose
/// slice is inspected; eliminations land in `other1` and `other2`, the two
/// other lines of the same band.
/// The line (row or column number, by kind) that board index `i` lies on.
pub open spec fn line_of(t: int, i: int) -> int {
    if t == 0 {
        i / 9
    } else {
        i % 9
    }
}

/// A cleared third stays cleared under any further elimination step.
pub proof fn lemma_locked_cleared_stable(
    g2: Seq<Cell>,
    g1: Seq<Cell>,
    t: int,
    n1: int,
    n2: int,
    m: int,
    q: int,
)
    requires
        locked_cleared(g1, t, n1, n2, m, q),
        elim_step(g2, g1),
        0 <= t < 3,
        0 <= n1 < 9,
        0 <= n2 < 9,
        0 <= q < 3,
    ensures
        locked_cleared(g2, t, n1, n2, m, q),
{
    assert forall|p: int| 3 * q <= p < 3 * q + 3 implies !(#[trigger] g2[house_index(
        t,
        n1,
        p,
    )]).has(m) && !g2[house_index(t, n2, p)].has(m) by {
        lemma_house_bounds(t, n1, p);
        lemma_house_bounds(t, n2, p);
        assert(cell_elim(g2[house_index(t, n1, p)], g1[house_index(t, n1, p)]));
        assert(cell_elim(g2[house_index(t, n2, p)], g1[house_index(t, n2, p)]));
    }
}

/// Every mark a cell of line `no` lost between `g0` and `g` was one that
/// the check line `nc` confined to that cell's third: nothing else is
/// ever removed from the two target lines.
pub open spec fn elim_justified(g0: Seq<Cell>, g: Seq<Cell>, t: int, nc: int, no: int) -> bool {
    forall|p: int, m: int|
        0 <= p < 9 && 1 <= m <= 9 && #[trigger] g0[house_index(t, no, p)].has(m) && !(
        #[trigger] g[house_index(t, no, p)].has(m)) ==> possible_in_house(g0, t, nc, m)
            && confined(g0, t, nc, m, p / 3)
}

/// The requires/ensures shared by the per-mark steps of `solve_set`:
/// the loop invariant of the rotation.
pub open spec fn rotation_inv(
    g0: Seq<Cell>,
    g: Seq<Cell>,
    t: int,
    nc: int,
    n1: int,
    n2: int,
    changed: bool,
    bound: int,
) -> bool {
    &&& grid_wf(g)
    &&& elim_step(g, g0)
    &&& (changed <==> (g != g0))
    &&& (forall|j: int|
        0 <= j < 9 ==> #[trigger] g[house_index(t, nc, j)] == g0[house_index(t, nc, j)])
    &&& (forall|s: Seq<u8>|
        valid_solution(s) && consistent(s, g0) && area_consistent(g0, t, nc)
            ==> #[trigger] consistent(s, g))
    &&& (forall|m: int, q: int|
        1 <= m < bound && 0 <= q < 3 && possible_in_house(g0, t, nc, m) && confined(
            g0,
            t,
            nc,
            m,
            q,
        ) ==> #[trigger] locked_cleared(g, t, n1, n2, m, q))
    &&& (forall|i: int|
        0 <= i < 81 && #[trigger] line_of(t, i) != n1 && line_of(t, i) != n2 ==> g[i] == g0[i])
    &&& elim_justified(g0, g, t, nc, n1)
    &&& elim_justified(g0, g, t, nc, n2)
    &&& ((forall|m: int, q: int|
        1 <= m <= 9 && 0 <= q < 3 ==> !(possible_in_house(g0, t, nc, m) && #[trigger] confined(
            g0,
            t,
            nc,
            m,
            q,
        ))) ==> g == g0)
}

/// Conditions relating a rotation's areas: same line kind, one band,
/// three distinct lines.
pub open spec fn band_trio<T: CellCollection>(check: &T, other1: &T, other2: &T) -> bool {
    &&& (check.kind() == 0 || check.kind() == 1)
    &&& other1.kind() == check.kind()
    &&& other2.kind() == check.kind()
    &&& check.num() / 3 == other1.num() / 3
    &&& check.num() / 3 == other2.num() / 3
    &&& check.num() != other1.num()
    &&& check.num() != other2.num()
    &&& other1.num() != other2.num()
}

#[verifier::rlimit(100)]
pub fn solve_set<T: CellCollection>(grid: &mut Grid, check: &T, other1: &T, other2: &T) -> (r:
    bool)
    requires
        old(grid).wf(),
        check.wf(),
        other1.wf(),
        other2.wf(),
        band_trio(check, other1, other2),
    ensures
        final(grid).wf(),
        elim_step(final(grid)@, old(grid)@),
        r <==> (final(grid)@ != old(grid)@),
        forall|m: int, q: int|
            1 <= m <= 9 && 0 <= q < 3 && possible_in_house(
                old(grid)@,
                check.kind(),
                check.num(),
                m,
            ) && confined(old(grid)@, check.kind(), check.num(), m, q)
                ==> #[trigger] locked_cleared(
                final(grid)@,
                check.kind(),
                other1.num(),
                other2.num(),
                m,
                q,
            ),
        forall|s: Seq<u8>|
            valid_solution(s) && consistent(s, old(grid)@) && area_consistent(
                old(grid)@,
                check.kind(),
                check.num(),
            ) ==> #[trigger] consistent(s, final(grid)@),
        forall|i: int|
            0 <= i < 81 && #[trigger] line_of(check.kind(), i) != other1.num() && line_of(
                check.kind(),
                i,
            ) != other2.num() ==> final(grid)@[i] == old(grid)@[i],
        elim_justified(old(grid)@, final(grid)@, check.kind(), check.num(), other1.num()),
        elim_justified(old(grid)@, final(grid)@, check.kind(), check.num(), other2.num()),
        (forall|m: int, q: int|
            1 <= m <= 9 && 0 <= q < 3 ==> !(possible_in_house(
                old(grid)@,
                check.kind(),
                check.num(),
                m,
            ) && #[trigger] confined(old(grid)@, check.kind(), check.num(), m, q)))
            ==> final(grid)@ == old(grid)@,
{
    proof {
        check.wf_facts();
        other1.wf_facts();
        other2.wf_facts();
    }
    let ghost t = check.kind();
    let ghost nc = check.num();
    let ghost n1 = other1.num();
    let ghost n2 = other2.num();
    let ghost g0 = old(grid)@;
    let s1 = Slice::from(grid, check);
    let possibles = s1.or_all();
    let mut changed = false;
    for mval in 1u8..10u8
        invariant
            grid.wf(),
            check.wf(),
            other1.wf(),
            other2.wf(),
            t == check.kind(),
            nc == check.num(),
            n1 == other1.num(),
            n2 == other2.num(),
            band_trio(check, other1, other2),
            g0 == old(grid)@,
            grid_wf(g0),
            s1.is_from(g0, t, nc),
            s1.wf(),
            possibles.bits == (s1.seg0 | s1.seg1) | s1.seg2,
            rotation_inv(g0, grid@, t, nc, n1, n2, changed, mval as int),
    {
        let mark = Mark::from_value(mval);
        changed = solve_set_mark(grid, check, other1, other2, s1, possibles, mark, Ghost(g0),
            changed);
    }
    changed
}

/// Handle one candidate mark of the rotation: if the check line confines
/// it to one square, clear it from that square in the two other lines.
#[verifier::rlimit(100)]
fn solve_set_mark<T: CellCollection>(
    grid: &mut Grid,
    check: &T,
    other1: &T,
    other2: &T,
    s1: Slice,
    possibles: Possibility,
    mark: Mark,
    Ghost(g0): Ghost<Seq<Cell>>,
    changed: bool,
) -> (c: bool)
    requires
        old(grid).wf(),
        check.wf(),
        other1.wf(),
        other2.wf(),
        band_trio(check, other1, other2),
        grid_wf(g0),
        s1.is_from(g0, check.kind(), check.num()),
        s1.wf(),
        possibles.bits == (s1.seg0 | s1.seg1) | s1.seg2,
        rotation_inv(
            g0,
            old(grid)@,
            check.kind(),
            check.num(),
            other1.num(),
            other2.num(),
            changed,
            mark.as_int(),
        ),
    ensures
        final(grid).wf(),
        rotation_inv(
            g0,
            final(grid)@,
            check.kind(),
            check.num(),
            other1.num(),
            other2.num(),
            c,
            mark.as_int() + 1,
        ),
{
    proof {
        check.wf_facts();
        other1.wf_facts();
        other2.wf_facts();
    }
    let ghost t = check.kind();
    let ghost nc = check.num();
    let ghost n1 = other1.num();
    let ghost n2 = other2.num();
    let ghost m = mark.as_int();
    let ghost gpre = grid@;
    if possibles.is_possible(mark) {
        let marked = s1.only_possible_value(mark);
        let sq_opt = which_square(marked);
        match sq_opt {
            Some(square) => {
                let r1 = unset_three(grid, square * 3, other1, mark);
                let ghost gmid = grid@;
                let r2 = unset_three(grid, square * 3, other2, mark);
                proof {
                    assert(mask_has((s1.seg0 | s1.seg1) | s1.seg2, m));
                    lemma_apply_locked(g0, gpre, gmid, grid@, t, nc, n1, n2, m, square as int, s1,
                        marked, changed, r1, r2);
                }
                changed || r1 || r2
            },
            None => {
                proof {
                    assert forall|mm: int, q: int|
                        1 <= mm < m + 1 && 0 <= q < 3 && possible_in_house(g0, t, nc, mm)
                            && confined(g0, t, nc, mm, q) implies #[trigger] locked_cleared(
                        grid@,
                        t,
                        n1,
                        n2,
                        mm,
                        q,
                    ) by {
                        if mm == m {
                            // Impossible: confinement forces a Some.
                            let j = choose|j: int|
                                0 <= j < 9 && (#[trigger] g0[house_index(t, nc, j)]).has(mm);
                            assert(j / 3 == q);
                            lemma_third_semantics(g0, t, nc, q, mm);
                            lemma_third_semantics(g0, t, nc, 0, mm);
                            lemma_third_semantics(g0, t, nc, 1, mm);
                            lemma_third_semantics(g0, t, nc, 2, mm);
                            assert(marked.seg0 == 0 <==> !mask_has(s1.seg0, m));
                            assert(marked.seg1 == 0 <==> !mask_has(s1.seg1, m));
                            assert(marked.seg2 == 0 <==> !mask_has(s1.seg2, m));
                            assert(false);
                        }
                    }
                }
                changed
            },
        }
    } else {
        proof {
            assert forall|mm: int, q: int|
                1 <= mm < m + 1 && 0 <= q < 3 && possible_in_house(g0, t, nc, mm) && confined(
                    g0,
                    t,
                    nc,
                    mm,
                    q,
                ) implies #[trigger] locked_cleared(grid@, t, n1, n2, mm, q) by {
                if mm == m {
                    let j = choose|j: int|
                        0 <= j < 9 && (#[trigger] g0[house_index(t, nc, j)]).has(mm);
                    let q3 = j / 3;
                    assert(0 <= q3 < 3);
                    lemma_third_semantics(g0, t, nc, q3, mm);
                    assert(mask_has(third_seg(s1, q3), mm)) by {
                        assert(third_seg(s1, q3) == crate::slice::third_bits(g0, t, nc, q3));
                    }
                    crate::possibility::lemma_mask_or(s1.seg0, s1.seg1);
                    crate::possibility::lemma_mask_or(s1.seg0 | s1.seg1, s1.seg2);
                    assert(q3 == 0 || q3 == 1 || q3 == 2);
                    assert(false);
                }
            }
        }
        changed
    }
}

/// The pass's stated effect for line `l` of a band, mark `m` and third
/// `q`: either the pass itself stripped `m` from `l` before `l`'s check
/// turn came, or each other line of `l`'s band has lost `m` in third `q`.
pub open spec fn locked_effect(g: Seq<Cell>, t: int, l: int, m: int, q: int) -> bool {
    ||| !possible_in_house(g, t, l, m)
    ||| (forall|lp: int, p: int|
        0 <= lp < 9 && lp / 3 == l / 3 && lp != l && 3 * q <= p < 3 * q + 3 ==> !(
        #[trigger] g[house_index(t, lp, p)]).has(m))
}

/// No line of either orientation has any mark confined to one third
/// while still possible: the grid offers this strategy nothing to do.
pub open spec fn no_locked_candidate(g: Seq<Cell>) -> bool {
    forall|t: int, l: int, m: int, q: int|
        (t == 0 || t == 1) && 0 <= l < 9 && 1 <= m <= 9 && 0 <= q < 3 ==> !(possible_in_house(
            g,
            t,
            l,
            m,
        ) && #[trigger] confined(g, t, l, m, q))
}

/// Every line below `upto` whose confined marks the pass has handled.
pub open spec fn locked_effects_upto(g0: Seq<Cell>, g: Seq<Cell>, t: int, upto: int) -> bool {
    forall|l: int, m: int, q: int|
        0 <= l < upto && 1 <= m <= 9 && 0 <= q < 3 && confined(g0, t, l, m, q)
            ==> #[trigger] locked_effect(g, t, l, m, q)
}

/// Confinement survives any elimination step.
proof fn lemma_confined_stable(g2: Seq<Cell>, g1: Seq<Cell>, t: int, n: int, m: int, q: int)
    requires
        confined(g1, t, n, m, q),
        elim_step(g2, g1),
        0 <= t < 3,
        0 <= n < 9,
    ensures
        confined(g2, t, n, m, q),
{
    assert forall|j: int| 0 <= j < 9 && j / 3 != q implies !(#[trigger] g2[house_index(
        t,
        n,
        j,
    )]).has(m) by {
        lemma_house_bounds(t, n, j);
        assert(cell_elim(g2[house_index(t, n, j)], g1[house_index(t, n, j)]));
    }
}

/// A settled band effect survives any further elimination step.
proof fn lemma_locked_effect_stable(
    g2: Seq<Cell>,
    g1: Seq<Cell>,
    t: int,
    l: int,
    m: int,
    q: int,
)
    requires
        locked_effect(g1, t, l, m, q),
        elim_step(g2, g1),
        0 <= t < 3,
        0 <= l < 9,
        1 <= m <= 9,
        0 <= q < 3,
    ensures
        locked_effect(g2, t, l, m, q),
{
    if !possible_in_house(g1, t, l, m) {
        assert(!possible_in_house(g2, t, l, m)) by {
            if possible_in_house(g2, t, l, m) {
                let j = choose|j: int|
                    0 <= j < 9 && (#[trigger] g2[house_index(t, l, j)]).has(m);
                lemma_house_bounds(t, l, j);
                assert(cell_elim(g2[house_index(t, l, j)], g1[house_index(t, l, j)]));
                assert(g1[house_index(t, l, j)].has(m));
            }
        }
    } else {
        assert forall|lp: int, p: int|
            0 <= lp < 9 && lp / 3 == l / 3 && lp != l && 3 * q <= p < 3 * q + 3 implies !(
        #[trigger] g2[house_index(t, lp, p)]).has(m) by {
            lemma_house_bounds(t, lp, p);
            assert(cell_elim(g2[house_index(t, lp, p)], g1[house_index(t, lp, p)]));
            assert(!g1[house_index(t, lp, p)].has(m));
        }
    }
}

/// What one rotation settles: if the check line confined `m` to third
/// `q` at the start of the whole pass, then after its rotation either
/// `m` is gone from the check line or the band's other two lines are
/// cleared in that third.
proof fn lemma_rotation_effect(
    g0: Seq<Cell>,
    gpre: Seq<Cell>,
    gpost: Seq<Cell>,
    t: int,
    l: int,
    o1: int,
    o2: int,
)
    requires
        t == 0 || t == 1,
        0 <= l < 9,
        0 <= o1 < 9,
        0 <= o2 < 9,
        l / 3 == o1 / 3,
        l / 3 == o2 / 3,
        l != o1,
        l != o2,
        o1 != o2,
        elim_step(gpre, g0),
        elim_step(gpost, gpre),
        forall|m: int, q: int|
            1 <= m <= 9 && 0 <= q < 3 && possible_in_house(gpre, t, l, m) && confined(
                gpre,
                t,
                l,
                m,
                q,
            ) ==> #[trigger] locked_cleared(gpost, t, o1, o2, m, q),
    ensures
        forall|m: int, q: int|
            1 <= m <= 9 && 0 <= q < 3 && confined(g0, t, l, m, q) ==> #[trigger] locked_effect(
                gpost,
                t,
                l,
                m,
                q,
            ),
{
    assert forall|m: int, q: int|
        1 <= m <= 9 && 0 <= q < 3 && confined(g0, t, l, m, q) implies #[trigger] locked_effect(
        gpost,
        t,
        l,
        m,
        q,
    ) by {
        lemma_confined_stable(gpre, g0, t, l, m, q);
        if possible_in_house(gpre, t, l, m) {
            assert(locked_cleared(gpost, t, o1, o2, m, q));
            assert forall|lp: int, p: int|
                0 <= lp < 9 && lp / 3 == l / 3 && lp != l && 3 * q <= p < 3 * q + 3 implies !(
            #[trigger] gpost[house_index(t, lp, p)]).has(m) by {
                assert(lp == o1 || lp == o2);
                assert(!gpost[house_index(t, o1, p)].has(m));
                assert(!gpost[house_index(t, o2, p)].has(m));
            }
        } else {
            assert(!possible_in_house(gpost, t, l, m)) by {
                if possible_in_house(gpost, t, l, m) {
                    let j = choose|j: int|
                        0 <= j < 9 && (#[trigger] gpost[house_index(t, l, j)]).has(m);
                    lemma_house_bounds(t, l, j);
                    assert(cell_elim(gpost[house_index(t, l, j)], gpre[house_index(t, l, j)]));
                    assert(gpre[house_index(t, l, j)].has(m));
                }
            }
        }
    }
}

/// The facts in hand after the two `unset_three` calls of one applied
/// elimination: band shape, slice facts, the rotation invariant on the
/// entry grid, and both pointwise outcomes.
spec fn step_hyp(
    g0: Seq<Cell>,
    gpre: Seq<Cell>,
    gmid: Seq<Cell>,
    gnew: Seq<Cell>,
    t: int,
    nc: int,
    n1: int,
    n2: int,
    m: int,
    sq: int,
    s1: Slice,
    marked: Slice,
    changed: bool,
) -> bool {
    &&& grid_wf(g0)
    &&& grid_wf(gmid)
    &&& grid_wf(gnew)
    &&& (t == 0 || t == 1)
    &&& 0 <= nc < 9
    &&& 0 <= n1 < 9
    &&& 0 <= n2 < 9
    &&& nc / 3 == n1 / 3
    &&& nc / 3 == n2 / 3
    &&& nc != n1
    &&& nc != n2
    &&& n1 != n2
    &&& 1 <= m <= 9
    &&& 0 <= sq < 3
    &&& s1.is_from(g0, t, nc)
    &&& ((marked.seg0 == 0) <==> !mask_has(s1.seg0, m))
    &&& ((marked.seg1 == 0) <==> !mask_has(s1.seg1, m))
    &&& ((marked.seg2 == 0) <==> !mask_has(s1.seg2, m))
    &&& which_square_spec(marked) == Some(sq)
    &&& mask_has((s1.seg0 | s1.seg1) | s1.seg2, m)
    &&& rotation_inv(g0, gpre, t, nc, n1, n2, changed, m)
    &&& (forall|i: int|
        0 <= i < 81 ==> #[trigger] gmid[i] == (if i == house_index(t, n1, 3 * sq) || i
            == house_index(t, n1, 3 * sq + 1) || i == house_index(t, n1, 3 * sq + 2) {
            cell_unset(gpre[i], m)
        } else {
            gpre[i]
        }))
    &&& (forall|i: int|
        0 <= i < 81 ==> #[trigger] gnew[i] == (if i == house_index(t, n2, 3 * sq) || i
            == house_index(t, n2, 3 * sq + 1) || i == house_index(t, n2, 3 * sq + 2) {
            cell_unset(gmid[i], m)
        } else {
            gmid[i]
        }))
    &&& (forall|p: int|
        3 * sq <= p < 3 * sq + 3 ==> !(#[trigger] gmid[house_index(t, n1, p)]).has(m))
    &&& (forall|p: int|
        3 * sq <= p < 3 * sq + 3 ==> !(#[trigger] gnew[house_index(t, n2, p)]).has(m))
    &&& elim_step(gmid, gpre)
    &&& elim_step(gnew, gmid)
}

/// The applied elimination touches only the two target lines, and leaves
/// the check line exactly as the pass found it.
#[verifier::rlimit(100)]
proof fn lemma_step_frame(
    g0: Seq<Cell>,
    gpre: Seq<Cell>,
    gmid: Seq<Cell>,
    gnew: Seq<Cell>,
    t: int,
    nc: int,
    n1: int,
    n2: int,
    m: int,
    sq: int,
    s1: Slice,
    marked: Slice,
    changed: bool,
)
    requires
        step_hyp(g0, gpre, gmid, gnew, t, nc, n1, n2, m, sq, s1, marked, changed),
    ensures
        forall|i: int|
            0 <= i < 81 && #[trigger] line_of(t, i) != n1 && line_of(t, i) != n2 ==> gnew[i]
                == gpre[i],
        forall|j: int|
            0 <= j < 9 ==> #[trigger] gnew[house_index(t, nc, j)] == g0[house_index(t, nc, j)],
{
    assert forall|p: int|
        0 <= p < 9 implies line_of(t, house_index(t, n1, p)) == n1 && line_of(
        t,
        house_index(t, n2, p),
    ) == n2 by {
        lemma_house_bounds(t, n1, p);
        lemma_house_bounds(t, n2, p);
    }
    assert forall|i: int|
        0 <= i < 81 && #[trigger] line_of(t, i) != n1 && line_of(t, i) != n2 implies gnew[i]
        == gpre[i] by {
        assert(gmid[i] == gpre[i]);
        assert(gnew[i] == gmid[i]);
    }
    assert forall|j: int| 0 <= j < 9 implies #[trigger] gnew[house_index(t, nc, j)]
        == g0[house_index(t, nc, j)] by {
        lemma_house_bounds(t, nc, j);
        assert forall|p: int| 0 <= p < 9 implies house_index(t, nc, j) != house_index(t, n1, p)
            && house_index(t, nc, j) != house_index(t, n2, p) by {
            lemma_line_cross_distinct(t, nc, n1, j, p);
            lemma_line_cross_distinct(t, nc, n2, j, p);
        }
        assert(gmid[house_index(t, nc, j)] == gpre[house_index(t, nc, j)]);
        assert(gnew[house_index(t, nc, j)] == gmid[house_index(t, nc, j)]);
    }
}

/// In the entry grid the mark really was possible in the check line and
/// confined there to third `sq`, and no other third can play that role.
#[verifier::rlimit(100)]
proof fn lemma_step_confined(
    g0: Seq<Cell>,
    gpre: Seq<Cell>,
    gmid: Seq<Cell>,
    gnew: Seq<Cell>,
    t: int,
    nc: int,
    n1: int,
    n2: int,
    m: int,
    sq: int,
    s1: Slice,
    marked: Slice,
    changed: bool,
)
    requires
        step_hyp(g0, gpre, gmid, gnew, t, nc, n1, n2, m, sq, s1, marked, changed),
    ensures
        confined(g0, t, nc, m, sq),
        possible_in_house(g0, t, nc, m),
{
    assert forall|j: int|
        0 <= j < 9 && j / 3 != sq implies !(#[trigger] g0[house_index(t, nc, j)]).has(m) by {
        let q3 = j / 3;
        assert(0 <= q3 < 3);
        lemma_third_semantics(g0, t, nc, q3, m);
        assert(q3 == 0 || q3 == 1 || q3 == 2);
    }
    assert(possible_in_house(g0, t, nc, m)) by {
        crate::possibility::lemma_mask_or(s1.seg0, s1.seg1);
        crate::possibility::lemma_mask_or(s1.seg0 | s1.seg1, s1.seg2);
        if mask_has(s1.seg0, m) {
            lemma_third_semantics(g0, t, nc, 0, m);
        } else if mask_has(s1.seg1, m) {
            lemma_third_semantics(g0, t, nc, 1, m);
        } else {
            lemma_third_semantics(g0, t, nc, 2, m);
        }
    }
}

/// Nothing the applied elimination removed from a target line lacks its
/// justification in the check line.
#[verifier::rlimit(100)]
proof fn lemma_step_justified(
    g0: Seq<Cell>,
    gpre: Seq<Cell>,
    gmid: Seq<Cell>,
    gnew: Seq<Cell>,
    t: int,
    nc: int,
    n1: int,
    n2: int,
    m: int,
    sq: int,
    s1: Slice,
    marked: Slice,
    changed: bool,
)
    requires
        step_hyp(g0, gpre, gmid, gnew, t, nc, n1, n2, m, sq, s1, marked, changed),
    ensures
        elim_justified(g0, gnew, t, nc, n1),
        elim_justified(g0, gnew, t, nc, n2),
{
    lemma_step_confined(g0, gpre, gmid, gnew, t, nc, n1, n2, m, sq, s1, marked, changed);
    assert forall|p: int, mm: int|
        0 <= p < 9 && 1 <= mm <= 9 && #[trigger] g0[house_index(t, n1, p)].has(mm) && !(
        #[trigger] gnew[house_index(t, n1, p)].has(mm)) implies possible_in_house(g0, t, nc, mm)
        && confined(g0, t, nc, mm, p / 3) by {
        lemma_house_bounds(t, n1, p);
        lemma_cell_unset(gpre[house_index(t, n1, p)], m);
        assert forall|pp: int| 0 <= pp < 9 implies house_index(t, n1, p) != house_index(
            t,
            n2,
            pp,
        ) by {
            lemma_line_cross_distinct(t, n1, n2, p, pp);
        }
        assert(gnew[house_index(t, n1, p)] == gmid[house_index(t, n1, p)]);
        if gpre[house_index(t, n1, p)].has(mm) {
            if p != 3 * sq && p != 3 * sq + 1 && p != 3 * sq + 2 {
                lemma_house_injective(t, n1, p, 3 * sq);
                lemma_house_injective(t, n1, p, 3 * sq + 1);
                lemma_house_injective(t, n1, p, 3 * sq + 2);
                assert(gmid[house_index(t, n1, p)] == gpre[house_index(t, n1, p)]);
            } else {
                assert(p / 3 == sq);
                assert(gmid[house_index(t, n1, p)] == gpre[house_index(t, n1, p)]
                    || gmid[house_index(t, n1, p)] == cell_unset(gpre[house_index(t, n1, p)], m));
                assert(mm == m);
            }
        }
    }
    assert forall|p: int, mm: int|
        0 <= p < 9 && 1 <= mm <= 9 && #[trigger] g0[house_index(t, n2, p)].has(mm) && !(
        #[trigger] gnew[house_index(t, n2, p)].has(mm)) implies possible_in_house(g0, t, nc, mm)
        && confined(g0, t, nc, mm, p / 3) by {
        lemma_house_bounds(t, n2, p);
        lemma_cell_unset(gmid[house_index(t, n2, p)], m);
        assert forall|pp: int| 0 <= pp < 9 implies house_index(t, n2, p) != house_index(
            t,
            n1,
            pp,
        ) by {
            lemma_line_cross_distinct(t, n2, n1, p, pp);
        }
        assert(gmid[house_index(t, n2, p)] == gpre[house_index(t, n2, p)]);
        if gpre[house_index(t, n2, p)].has(mm) {
            if p != 3 * sq && p != 3 * sq + 1 && p != 3 * sq + 2 {
                lemma_house_injective(t, n2, p, 3 * sq);
                lemma_house_injective(t, n2, p, 3 * sq + 1);
                lemma_house_injective(t, n2, p, 3 * sq + 2);
                assert(gnew[house_index(t, n2, p)] == gmid[house_index(t, n2, p)]);
            } else {
                assert(p / 3 == sq);
                assert(gnew[house_index(t, n2, p)] == gmid[house_index(t, n2, p)]
                    || gnew[house_index(t, n2, p)] == cell_unset(gmid[house_index(t, n2, p)], m));
                assert(mm == m);
            }
        }
    }
}

/// A valid completion consistent with the entry grid survives the
/// applied elimination.
#[verifier::rlimit(100)]
proof fn lemma_step_consistent(
    g0: Seq<Cell>,
    gpre: Seq<Cell>,
    gmid: Seq<Cell>,
    gnew: Seq<Cell>,
    t: int,
    nc: int,
    n1: int,
    n2: int,
    m: int,
    sq: int,
    s1: Slice,
    marked: Slice,
    changed: bool,
)
    requires
        step_hyp(g0, gpre, gmid, gnew, t, nc, n1, n2, m, sq, s1, marked, changed),
    ensures
        forall|s: Seq<u8>|
            valid_solution(s) && consistent(s, g0) && area_consistent(g0, t, nc)
                ==> #[trigger] consistent(s, gnew),
{
    lemma_step_confined(g0, gpre, gmid, gnew, t, nc, n1, n2, m, sq, s1, marked, changed);
    assert forall|s: Seq<u8>|
        valid_solution(s) && consistent(s, g0) && area_consistent(g0, t, nc)
        implies #[trigger] consistent(s, gnew) by {
        assert(consistent(s, gpre));
        assert forall|i: int| 0 <= i < 81 implies crate::model::cell_consistent(
            s[i],
            #[trigger] gnew[i],
        ) by {
            assert(crate::model::cell_consistent(s[i], gpre[i]));
            if gnew[i] != gpre[i] {
                let no: int = if gmid[i] != gpre[i] {
                    n1
                } else {
                    n2
                };
                assert(exists|p: int| 3 * sq <= p < 3 * sq + 3 && i == house_index(t, no, p)) by {
                    if gmid[i] != gpre[i] {
                        assert(i == house_index(t, n1, sq * 3) || i == house_index(
                            t,
                            n1,
                            sq * 3 + 1,
                        ) || i == house_index(t, n1, sq * 3 + 2));
                    } else {
                        assert(i == house_index(t, n2, sq * 3) || i == house_index(
                            t,
                            n2,
                            sq * 3 + 1,
                        ) || i == house_index(t, n2, sq * 3 + 2));
                    }
                }
                let p = choose|p: int| 3 * sq <= p < 3 * sq + 3 && i == house_index(t, no, p);
                lemma_locked_sound(s, g0, t, nc, no, sq, m, p);
                assert(s[i] != m);
                assert(gnew[i] == cell_unset(gpre[i], m) || gnew[i] == gpre[i]);
                lemma_cell_unset(gpre[i], m);
            }
        }
    }
}

/// Every mark at or below the one just handled has had its locked third
/// cleared from the two target lines.
#[verifier::rlimit(100)]
proof fn lemma_step_locked(
    g0: Seq<Cell>,
    gpre: Seq<Cell>,
    gmid: Seq<Cell>,
    gnew: Seq<Cell>,
    t: int,
    nc: int,
    n1: int,
    n2: int,
    m: int,
    sq: int,
    s1: Slice,
    marked: Slice,
    changed: bool,
)
    requires
        step_hyp(g0, gpre, gmid, gnew, t, nc, n1, n2, m, sq, s1, marked, changed),
    ensures
        forall|mm: int, q: int|
            1 <= mm < m + 1 && 0 <= q < 3 && possible_in_house(g0, t, nc, mm) && confined(
                g0,
                t,
                nc,
                mm,
                q,
            ) ==> #[trigger] locked_cleared(gnew, t, n1, n2, mm, q),
{
    lemma_elim_step_trans(gnew, gmid, gpre);
    assert forall|mm: int, q: int|
        1 <= mm < m + 1 && 0 <= q < 3 && possible_in_house(g0, t, nc, mm) && confined(
            g0,
            t,
            nc,
            mm,
            q,
        ) implies #[trigger] locked_cleared(gnew, t, n1, n2, mm, q) by {
        if mm < m {
            assert(locked_cleared(gpre, t, n1, n2, mm, q));
            assert forall|p: int| 3 * q <= p < 3 * q + 3 implies !(#[trigger] gnew[house_index(
                t,
                n1,
                p,
            )]).has(mm) && !gnew[house_index(t, n2, p)].has(mm) by {
                lemma_house_bounds(t, n1, p);
                lemma_house_bounds(t, n2, p);
                assert(cell_elim(gnew[house_index(t, n1, p)], gpre[house_index(t, n1, p)]));
                assert(cell_elim(gnew[house_index(t, n2, p)], gpre[house_index(t, n2, p)]));
            }
        } else {
            // q must equal sq.
            let j = choose|j: int| 0 <= j < 9 && (#[trigger] g0[house_index(t, nc, j)]).has(mm);
            assert(j / 3 == q);
            lemma_third_semantics(g0, t, nc, q, mm);
            assert(mask_has(third_seg(s1, q), mm)) by {
                assert(third_seg(s1, q) == crate::slice::third_bits(g0, t, nc, q));
            }
            assert(q == sq);
            assert forall|p: int| 3 * q <= p < 3 * q + 3 implies !(#[trigger] gnew[house_index(
                t,
                n1,
                p,
            )]).has(mm) && !gnew[house_index(t, n2, p)].has(mm) by {
                lemma_house_bounds(t, n1, p);
                lemma_house_bounds(t, n2, p);
                assert(!gmid[house_index(t, n1, p)].has(m));
                assert(cell_elim(gnew[house_index(t, n1, p)], gmid[house_index(t, n1, p)]));
                assert(!gnew[house_index(t, n2, p)].has(m));
            }
        }
    }
}

/// One applied elimination, packaged: from the two `unset_three`
/// outcomes and the slice facts, re-establish the rotation invariant for
/// the next mark.
#[verifier::rlimit(100)]
proof fn lemma_apply_locked(
    g0: Seq<Cell>,
    gpre: Seq<Cell>,
    gmid: Seq<Cell>,
    gnew: Seq<Cell>,
    t: int,
    nc: int,
    n1: int,
    n2: int,
    m: int,
    sq: int,
    s1: Slice,
    marked: Slice,
    changed: bool,
    r1: bool,
    r2: bool,
)
    requires
        step_hyp(g0, gpre, gmid, gnew, t, nc, n1, n2, m, sq, s1, marked, changed),
        r1 <==> (gmid != gpre),
        r2 <==> (gnew != gmid),
    ensures
        rotation_inv(g0, gnew, t, nc, n1, n2, changed || r1 || r2, m + 1),
{
    lemma_elim_step_trans(gnew, gmid, gpre);
    lemma_elim_step_trans(gnew, gpre, g0);
    lemma_elim_step_refines(gpre, g0);
    lemma_elim_step_refines(gmid, gpre);
    lemma_elim_step_refines(gnew, gmid);
    lemma_elim_step_refines(gnew, gpre);
    lemma_change_step(g0, gpre, gmid, changed, r1);
    lemma_change_step(g0, gmid, gnew, changed || r1, r2);
    lemma_step_frame(g0, gpre, gmid, gnew, t, nc, n1, n2, m, sq, s1, marked, changed);
    lemma_step_confined(g0, gpre, gmid, gnew, t, nc, n1, n2, m, sq, s1, marked, changed);
    lemma_step_justified(g0, gpre, gmid, gnew, t, nc, n1, n2, m, sq, s1, marked, changed);
    lemma_step_consistent(g0, gpre, gmid, gnew, t, nc, n1, n2, m, sq, s1, marked, changed);
    lemma_step_locked(g0, gpre, gmid, gnew, t, nc, n1, n2, m, sq, s1, marked, changed);
    assert forall|i: int|
        0 <= i < 81 && #[trigger] line_of(t, i) != n1 && line_of(t, i) != n2 implies gnew[i]
        == g0[i] by {
        assert(gnew[i] == gpre[i]);
    }
}

/// The segment of a slice for third `q`.
pub open spec fn third_seg(s: Slice, q: int) -> u16 {
    if q == 0 {
        s.seg0
    } else if q == 1 {
        s.seg1
    } else {
        s.seg2
    }
}

impl MarkOccupy {
    pub fn new() -> (s: MarkOccupy)
        ensures
            true,
    {
        MarkOccupy {  }
    }

    pub fn new_box() -> (b: Box<MarkOccupy>)
        ensures
            true,
    {
        Box::new(MarkOccupy::new())
    }

    /// One full pass over all six bands (three of rows, three of
    /// columns), with each line of a band taking the check role once.
    ///
    /// The pass only removes marks (never a value), reports `Updated`
    /// exactly when something changed, and — provided determined values
    /// were already pruned from their peers — never rules out a valid
    /// completion of the grid.
    pub fn solve(grid: &mut Grid) -> (res: SolveResult)
        requires
            old(grid).wf(),
        ensures
            final(grid).wf(),
            elim_step(final(grid)@, old(grid)@),
            (res == SolveResult::Updated) <==> (final(grid)@ != old(grid)@),
            forall|s: Seq<u8>|
                valid_solution(s) && consistent(s, old(grid)@) && pruned(old(grid)@)
                    ==> #[trigger] consistent(s, final(grid)@),
            forall|b: int, m: int, q: int|
                0 <= b < 3 && 1 <= m <= 9 && 0 <= q < 3 && possible_in_house(
                    old(grid)@,
                    0,
                    3 * b,
                    m,
                ) && confined(old(grid)@, 0, 3 * b, m, q) ==> #[trigger] locked_cleared(
                    final(grid)@,
                    0,
                    3 * b + 1,
                    3 * b + 2,
                    m,
                    q,
                ),
            locked_effects_upto(old(grid)@, final(grid)@, 0, 9),
            locked_effects_upto(old(grid)@, final(grid)@, 1, 9),
            no_locked_candidate(old(grid)@) ==> (final(grid)@ == old(grid)@ && res
                == SolveResult::NoChange),
    {
        let ghost g0 = old(grid)@;
        let mut changed = false;
        for band in 0..3usize
            invariant
                grid.wf(),
                g0 == old(grid)@,
                grid_wf(g0),
                elim_step(grid@, g0),
                changed <==> (grid@ != g0),
                forall|s: Seq<u8>|
                    valid_solution(s) && consistent(s, g0) && pruned(g0) ==> #[trigger] consistent(
                        s,
                        grid@,
                    ),
                forall|i: int| 0 <= i < 81 && #[trigger] line_of(0, i) >= 3 * band ==> grid@[i]
                    == g0[i],
                forall|b: int, m: int, q: int|
                    0 <= b < band && 1 <= m <= 9 && 0 <= q < 3 && possible_in_house(
                        g0,
                        0,
                        3 * b,
                        m,
                    ) && confined(g0, 0, 3 * b, m, q) ==> #[trigger] locked_cleared(
                        grid@,
                        0,
                        3 * b + 1,
                        3 * b + 2,
                        m,
                        q,
                    ),
                locked_effects_upto(g0, grid@, 0, 3 * band),
                no_locked_candidate(g0) ==> grid@ == g0,
        {
            let r1 = Row::new(3 * band);
            let r2 = Row::new(3 * band + 1);
            let r3 = Row::new(3 * band + 2);
            let ghost gb = grid@;
            let c1 = solve_band_rotation(grid, &r1, &r2, &r3, Ghost(g0), changed);
            let ghost ga1 = grid@;
            proof {
                // The band's rows were still as in the input grid, so the
                // first rotation's clause holds of the input as well.
                assert forall|j: int| 0 <= j < 9 implies #[trigger] gb[house_index(
                    0,
                    3 * band as int,
                    j,
                )] == g0[house_index(0, 3 * band as int, j)] by {
                    lemma_house_bounds(0, 3 * band as int, j);
                    assert(line_of(0, house_index(0, 3 * band as int, j)) == 3 * band as int);
                }
                assert forall|m: int, q: int|
                    1 <= m <= 9 && 0 <= q < 3 && possible_in_house(g0, 0, 3 * band as int, m)
                        && confined(g0, 0, 3 * band as int, m, q) implies #[trigger] locked_cleared(
                    ga1,
                    0,
                    3 * band as int + 1,
                    3 * band as int + 2,
                    m,
                    q,
                ) by {
                    assert(possible_in_house(gb, 0, 3 * band as int, m)) by {
                        let j = choose|j: int|
                            0 <= j < 9 && (#[trigger] g0[house_index(0, 3 * band as int, j)]).has(
                                m,
                            );
                        assert(gb[house_index(0, 3 * band as int, j)].has(m));
                    }
                    assert(confined(gb, 0, 3 * band as int, m, q)) by {
                        assert forall|j: int| 0 <= j < 9 && j / 3 != q implies !(
                        #[trigger] gb[house_index(0, 3 * band as int, j)]).has(m) by {
                            assert(!g0[house_index(0, 3 * band as int, j)].has(m));
                        }
                    }
                }
            }
            let c2 = solve_band_rotation(grid, &r2, &r1, &r3, Ghost(g0), c1);
            let ghost ga2 = grid@;
            changed = solve_band_rotation(grid, &r3, &r1, &r2, Ghost(g0), c2);
            proof {
                let gn = grid@;
                if no_locked_candidate(g0) {
                    assert(gb == g0);
                    assert forall|m: int, q: int|
                        1 <= m <= 9 && 0 <= q < 3 implies !(possible_in_house(
                        g0,
                        0,
                        3 * band as int,
                        m,
                    ) && #[trigger] confined(g0, 0, 3 * band as int, m, q)) by {}
                    assert(ga1 == g0);
                    assert forall|m: int, q: int|
                        1 <= m <= 9 && 0 <= q < 3 implies !(possible_in_house(
                        g0,
                        0,
                        3 * band as int + 1,
                        m,
                    ) && #[trigger] confined(g0, 0, 3 * band as int + 1, m, q)) by {}
                    assert(ga2 == g0);
                    assert forall|m: int, q: int|
                        1 <= m <= 9 && 0 <= q < 3 implies !(possible_in_house(
                        g0,
                        0,
                        3 * band as int + 2,
                        m,
                    ) && #[trigger] confined(g0, 0, 3 * band as int + 2, m, q)) by {}
                    assert(gn == g0);
                }
                // The first rotation's eliminations survive the other two.
                assert forall|m: int, q: int|
                    1 <= m <= 9 && 0 <= q < 3 && possible_in_house(g0, 0, 3 * band as int, m)
                        && confined(g0, 0, 3 * band as int, m, q) implies #[trigger] locked_cleared(
                    gn,
                    0,
                    3 * band as int + 1,
                    3 * band as int + 2,
                    m,
                    q,
                ) by {
                    lemma_locked_cleared_stable(ga2, ga1, 0, 3 * band as int + 1,
                        3 * band as int + 2, m, q);
                    lemma_locked_cleared_stable(gn, ga2, 0, 3 * band as int + 1,
                        3 * band as int + 2, m, q);
                }
                // Earlier bands' eliminations survive this band.
                assert forall|b: int, m: int, q: int|
                    0 <= b < band && 1 <= m <= 9 && 0 <= q < 3 && possible_in_house(g0, 0, 3 * b, m)
                        && confined(g0, 0, 3 * b, m, q) implies #[trigger] locked_cleared(
                    gn,
                    0,
                    3 * b + 1,
                    3 * b + 2,
                    m,
                    q,
                ) by {
                    lemma_locked_cleared_stable(ga1, gb, 0, 3 * b + 1, 3 * b + 2, m, q);
                    lemma_locked_cleared_stable(ga2, ga1, 0, 3 * b + 1, 3 * b + 2, m, q);
                    lemma_locked_cleared_stable(gn, ga2, 0, 3 * b + 1, 3 * b + 2, m, q);
                }
                // Rows of later bands are still untouched.
                assert forall|i: int|
                    0 <= i < 81 && #[trigger] line_of(0, i) >= 3 * (band as int + 1)
                    implies gn[i] == g0[i] by {
                    assert(ga1[i] == gb[i]);
                    assert(ga2[i] == ga1[i]);
                    assert(gn[i] == ga2[i]);
                }
                // Each line of this band has now had its check turn.
                let lb = 3 * band as int;
                lemma_rotation_effect(g0, gb, ga1, 0, lb, lb + 1, lb + 2);
                lemma_rotation_effect(g0, ga1, ga2, 0, lb + 1, lb, lb + 2);
                lemma_rotation_effect(g0, ga2, gn, 0, lb + 2, lb, lb + 1);
                assert forall|l: int, m: int, q: int|
                    0 <= l < 3 * (band as int + 1) && 1 <= m <= 9 && 0 <= q < 3 && confined(
                        g0,
                        0,
                        l,
                        m,
                        q,
                    ) implies #[trigger] locked_effect(gn, 0, l, m, q) by {
                    if l < lb {
                        assert(locked_effect(gb, 0, l, m, q));
                        lemma_locked_effect_stable(ga1, gb, 0, l, m, q);
                        lemma_locked_effect_stable(ga2, ga1, 0, l, m, q);
                        lemma_locked_effect_stable(gn, ga2, 0, l, m, q);
                    } else if l == lb {
                        assert(locked_effect(ga1, 0, l, m, q));
                        lemma_locked_effect_stable(ga2, ga1, 0, l, m, q);
                        lemma_locked_effect_stable(gn, ga2, 0, l, m, q);
                    } else if l == lb + 1 {
                        assert(locked_effect(ga2, 0, l, m, q));
                        lemma_locked_effect_stable(gn, ga2, 0, l, m, q);
                    }
                }
            }
        }
        for band in 0..3usize
            invariant
                grid.wf(),
                g0 == old(grid)@,
                grid_wf(g0),
                elim_step(grid@, g0),
                changed <==> (grid@ != g0),
                forall|s: Seq<u8>|
                    valid_solution(s) && consistent(s, g0) && pruned(g0) ==> #[trigger] consistent(
                        s,
                        grid@,
                    ),
                forall|b: int, m: int, q: int|
                    0 <= b < 3 && 1 <= m <= 9 && 0 <= q < 3 && possible_in_house(g0, 0, 3 * b, m)
                        && confined(g0, 0, 3 * b, m, q) ==> #[trigger] locked_cleared(
                        grid@,
                        0,
                        3 * b + 1,
                        3 * b + 2,
                        m,
                        q,
                    ),
                locked_effects_upto(g0, grid@, 0, 9),
                locked_effects_upto(g0, grid@, 1, 3 * band),
                no_locked_candidate(g0) ==> grid@ == g0,
        {
            let c1 = Column::new(3 * band);
            let c2 = Column::new(3 * band + 1);
            let c3 = Column::new(3 * band + 2);
            let ghost gb = grid@;
            let d1 = solve_band_rotation(grid, &c1, &c2, &c3, Ghost(g0), changed);
            let ghost ga1 = grid@;
            let d2 = solve_band_rotation(grid, &c2, &c1, &c3, Ghost(g0), d1);
            let ghost ga2 = grid@;
            changed = solve_band_rotation(grid, &c3, &c1, &c2, Ghost(g0), d2);
            proof {
                let gn = grid@;
                if no_locked_candidate(g0) {
                    assert(gb == g0);
                    assert forall|m: int, q: int|
                        1 <= m <= 9 && 0 <= q < 3 implies !(possible_in_house(
                        g0,
                        1,
                        3 * band as int,
                        m,
                    ) && #[trigger] confined(g0, 1, 3 * band as int, m, q)) by {}
                    assert(ga1 == g0);
                    assert forall|m: int, q: int|
                        1 <= m <= 9 && 0 <= q < 3 implies !(possible_in_house(
                        g0,
                        1,
                        3 * band as int + 1,
                        m,
                    ) && #[trigger] confined(g0, 1, 3 * band as int + 1, m, q)) by {}
                    assert(ga2 == g0);
                    assert forall|m: int, q: int|
                        1 <= m <= 9 && 0 <= q < 3 implies !(possible_in_house(
                        g0,
                        1,
                        3 * band as int + 2,
                        m,
                    ) && #[trigger] confined(g0, 1, 3 * band as int + 2, m, q)) by {}
                    assert(gn == g0);
                }
                assert forall|b: int, m: int, q: int|
                    0 <= b < 3 && 1 <= m <= 9 && 0 <= q < 3 && possible_in_house(g0, 0, 3 * b, m)
                        && confined(g0, 0, 3 * b, m, q) implies #[trigger] locked_cleared(
                    gn,
                    0,
                    3 * b + 1,
                    3 * b + 2,
                    m,
                    q,
                ) by {
                    lemma_locked_cleared_stable(ga1, gb, 0, 3 * b + 1, 3 * b + 2, m, q);
                    lemma_locked_cleared_stable(ga2, ga1, 0, 3 * b + 1, 3 * b + 2, m, q);
                    lemma_locked_cleared_stable(gn, ga2, 0, 3 * b + 1, 3 * b + 2, m, q);
                }
                // Row effects survive the column rotations.
                assert forall|l: int, m: int, q: int|
                    0 <= l < 9 && 1 <= m <= 9 && 0 <= q < 3 && confined(g0, 0, l, m, q)
                    implies #[trigger] locked_effect(gn, 0, l, m, q) by {
                    assert(locked_effect(gb, 0, l, m, q));
                    lemma_locked_effect_stable(ga1, gb, 0, l, m, q);
                    lemma_locked_effect_stable(ga2, ga1, 0, l, m, q);
                    lemma_locked_effect_stable(gn, ga2, 0, l, m, q);
                }
                // Each column of this band has now had its check turn.
                let lb = 3 * band as int;
                lemma_rotation_effect(g0, gb, ga1, 1, lb, lb + 1, lb + 2);
                lemma_rotation_effect(g0, ga1, ga2, 1, lb + 1, lb, lb + 2);
                lemma_rotation_effect(g0, ga2, gn, 1, lb + 2, lb, lb + 1);
                assert forall|l: int, m: int, q: int|
                    0 <= l < 3 * (band as int + 1) && 1 <= m <= 9 && 0 <= q < 3 && confined(
                        g0,
                        1,
                        l,
                        m,
                        q,
                    ) implies #[trigger] locked_effect(gn, 1, l, m, q) by {
                    if l < lb {
                        assert(locked_effect(gb, 1, l, m, q));
                        lemma_locked_effect_stable(ga1, gb, 1, l, m, q);
                        lemma_locked_effect_stable(ga2, ga1, 1, l, m, q);
                        lemma_locked_effect_stable(gn, ga2, 1, l, m, q);
                    } else if l == lb {
                        assert(locked_effect(ga1, 1, l, m, q));
                        lemma_locked_effect_stable(ga2, ga1, 1, l, m, q);
                        lemma_locked_effect_stable(gn, ga2, 1, l, m, q);
                    } else if l == lb + 1 {
                        assert(locked_effect(ga2, 1, l, m, q));
                        lemma_locked_effect_stable(gn, ga2, 1, l, m, q);
                    }
                }
            }
        }
        SolveResult::from_changed(changed)
    }
}

/// Run one rotation and thread the pass-level book-keeping (monotonicity,
/// change flag, consistency) through it.
fn solve_band_rotation<T: CellCollection>(
    grid: &mut Grid,
    check: &T,
    other1: &T,
    other2: &T,
    Ghost(g0): Ghost<Seq<Cell>>,
    changed: bool,
) -> (c: bool)
    requires
        old(grid).wf(),
        grid_wf(g0),
        check.wf(),
        other1.wf(),
        other2.wf(),
        band_trio(check, other1, other2),
        elim_step(old(grid)@, g0),
        changed <==> (old(grid)@ != g0),
        forall|s: Seq<u8>|
            valid_solution(s) && consistent(s, g0) && pruned(g0) ==> #[trigger] consistent(
                s,
                old(grid)@,
            ),
    ensures
        final(grid).wf(),
        elim_step(final(grid)@, g0),
        elim_step(final(grid)@, old(grid)@),
        c <==> (final(grid)@ != g0),
        forall|s: Seq<u8>|
            valid_solution(s) && consistent(s, g0) && pruned(g0) ==> #[trigger] consistent(
                s,
                final(grid)@,
            ),
        forall|m: int, q: int|
            1 <= m <= 9 && 0 <= q < 3 && possible_in_house(
                old(grid)@,
                check.kind(),
                check.num(),
                m,
            ) && confined(old(grid)@, check.kind(), check.num(), m, q)
                ==> #[trigger] locked_cleared(
                final(grid)@,
                check.kind(),
                other1.num(),
                other2.num(),
                m,
                q,
            ),
        forall|i: int|
            0 <= i < 81 && #[trigger] line_of(check.kind(), i) != other1.num() && line_of(
                check.kind(),
                i,
            ) != other2.num() ==> final(grid)@[i] == old(grid)@[i],
        (forall|m: int, q: int|
            1 <= m <= 9 && 0 <= q < 3 ==> !(possible_in_house(
                old(grid)@,
                check.kind(),
                check.num(),
                m,
            ) && #[trigger] confined(old(grid)@, check.kind(), check.num(), m, q)))
            ==> final(grid)@ == old(grid)@,
{
    let ghost gpre = grid@;
    let r = solve_set(grid, check, other1, other2);
    proof {
        check.wf_facts();
        lemma_elim_step_trans(grid@, gpre, g0);
        lemma_elim_step_refines(gpre, g0);
        lemma_elim_step_refines(grid@, gpre);
        lemma_change_step(g0, gpre, grid@, changed, r);
        assert forall|s: Seq<u8>|
            valid_solution(s) && consistent(s, g0) && pruned(g0) implies #[trigger] consistent(
            s,
            grid@,
        ) by {
            assert(consistent(s, gpre));
            lemma_pruned_stable(g0, gpre);
            assert(area_consistent(gpre, check.kind(), check.num()));
        }
    }
    changed || r
}

/// In which of the three cells, if exactly one, `mark` is still possible.
pub fn only_possible_in(mark: Mark, data1: Cell, data2: Cell, data3: Cell) -> (r: Option<usize>)
    ensures
        r == Some(0usize) <==> (data1.has(mark.as_int()) && !data2.has(mark.as_int())
            && !data3.has(mark.as_int())),
        r == Some(1usize) <==> (!data1.has(mark.as_int()) && data2.has(mark.as_int())
            && !data3.has(mark.as_int())),
        r == Some(2usize) <==> (!data1.has(mark.as_int()) && !data2.has(mark.as_int())
            && data3.has(mark.as_int())),
        r is None <==> !((data1.has(mark.as_int()) && !data2.has(mark.as_int()) && !data3.has(
            mark.as_int(),
        )) || (!data1.has(mark.as_int()) && data2.has(mark.as_int()) && !data3.has(mark.as_int()))
            || (!data1.has(mark.as_int()) && !data2.has(mark.as_int()) && data3.has(
            mark.as_int(),
        ))),
{
    match (data1.is_possible(mark), data2.is_possible(mark), data3.is_possible(mark)) {
        (true, false, false) => Some(0),
        (false, true, false) => Some(1),
        (false, false, true) => Some(2),
        _ => None,
    }
}

/// In how many of the three cells `mark` is still possible.
pub fn count(mark: Mark, data1: Cell, data2: Cell, data3: Cell) -> (r: usize)
    ensures
        r == (if data1.has(mark.as_int()) {
            1int
        } else {
            0int
        }) + (if data2.has(mark.as_int()) {
            1int
        } else {
            0int
        }) + (if data3.has(mark.as_int()) {
            1int
        } else {
            0int
        }),
{
    let mut c: usize = 0;
    if data1.is_possible(mark) {
        c = c + 1;
    }
    if data2.is_possible(mark) {
        c = c + 1;
    }
    if data3.is_possible(mark) {
        c = c + 1;
    }
    c
}

} // verus!
