use vstd::prelude::*;

use crate::cell::Cell;
use crate::collection::{CellCollection, Column, Row, Square};
use crate::determined_solver::DeterminedSolver;
use crate::grid::Grid;
use crate::mark::Mark;
use crate::mark_occupy::{mark_off_at, no_locked_candidate, MarkOccupy};
use crate::model::{
    area_consistent, cell_elim, consistent, elim_step, grid_refines, grid_weight,
    grid_wf, house_done, house_index, lemma_area_consistent_stable, lemma_change_step,
    lemma_det_step_refines, lemma_elim_step_refines, lemma_elim_step_trans,
    lemma_grid_refines_trans, lemma_grid_weight_decrease, lemma_house_bounds,
    lemma_house_injective, lemma_peer_sound, naked_single, no_naked_single, pruned,
    valid_solution,
};

verus! {

/// What one strategy pass reported: it either changed at least one cell
/// (determined a value or eliminated a possibility) or scanned fully with
/// nothing to do.
#[derive(Clone, Copy, PartialEq, Eq, Structural, Debug)]
pub enum SolveResult {
    Updated,
    NoChange,
}

impl SolveResult {
    pub fn from_changed(changed: bool) -> (r: SolveResult)
        ensures
            (r == SolveResult::Updated) <==> changed,
    {
        if changed {
            SolveResult::Updated
        } else {
            SolveResult::NoChange
        }
    }
}

/// The grid a strategy produced, together with its outcome.
pub struct SolverResult {
    pub grid: Grid,
    pub result: SolveResult,
}

impl SolverResult {
    /// A result that reports no change for `grid`.
    pub fn nothing(grid: Grid) -> (r: SolverResult)
        ensures
            r.grid == grid,
            r.result == SolveResult::NoChange,
    {
        SolverResult { grid, result: SolveResult::NoChange }
    }
}

/// Remove the value of every determined cell of one area from the
/// possibility sets of the other eight cells.
fn prune_house<T: CellCollection>(grid: &mut Grid, area: &T) -> (r: bool)
    requires
        old(grid).wf(),
        area.wf(),
    ensures
        final(grid).wf(),
        elim_step(final(grid)@, old(grid)@),
        r <==> (final(grid)@ != old(grid)@),
        area_consistent(final(grid)@, area.kind(), area.num()),
        area_consistent(old(grid)@, area.kind(), area.num()) ==> final(grid)@ == old(grid)@,
        forall|s: Seq<u8>|
            valid_solution(s) && consistent(s, old(grid)@) ==> #[trigger] consistent(
                s,
                final(grid)@,
            ),
{
    proof {
        area.wf_facts();
    }
    let ghost t = area.kind();
    let ghost n = area.num();
    let ghost g0 = old(grid)@;
    let mut changed = false;
    for j in 0..9usize
        invariant
            grid.wf(),
            area.wf(),
            t == area.kind(),
            n == area.num(),
            0 <= t < 3,
            0 <= n < 9,
            g0 == old(grid)@,
            grid_wf(g0),
            elim_step(grid@, g0),
            changed <==> (grid@ != g0),
            forall|s: Seq<u8>|
                valid_solution(s) && consistent(s, g0) ==> #[trigger] consistent(s, grid@),
            forall|jj: int, k: int|
                0 <= jj < j && 0 <= k < 9 && k != jj && (#[trigger] grid@[house_index(
                    t,
                    n,
                    jj,
                )]).is_det() ==> !(#[trigger] grid@[house_index(t, n, k)]).has(
                    grid@[house_index(t, n, jj)].value as int,
                ),
            area_consistent(g0, t, n) ==> grid@ == g0,
    {
        let cell = area.get_cell(grid, j);
        proof {
            lemma_house_bounds(t, n, j as int);
        }
        match cell.value() {
            Some(v) => {
                let mark = Mark::from_value(v);
                for k in 0..9usize
                    invariant
                        grid.wf(),
                        area.wf(),
                        t == area.kind(),
                        n == area.num(),
                        0 <= t < 3,
                        0 <= n < 9,
                        j < 9,
                        g0 == old(grid)@,
                        grid_wf(g0),
                        elim_step(grid@, g0),
                        changed <==> (grid@ != g0),
                        cell.is_det(),
                        1 <= cell.value <= 9,
                        mark.as_int() == cell.value as int,
                        grid@[house_index(t, n, j as int)] == cell,
                        forall|s: Seq<u8>|
                            valid_solution(s) && consistent(s, g0) ==> #[trigger] consistent(
                                s,
                                grid@,
                            ),
                        forall|jj: int, kk: int|
                            0 <= jj < j && 0 <= kk < 9 && kk != jj && (
                            #[trigger] grid@[house_index(t, n, jj)]).is_det()
                                ==> !(#[trigger] grid@[house_index(t, n, kk)]).has(
                                grid@[house_index(t, n, jj)].value as int,
                            ),
                        forall|kk: int|
                            0 <= kk < k && kk != j ==> !(#[trigger] grid@[house_index(
                                t,
                                n,
                                kk,
                            )]).has(mark.as_int()),
                        area_consistent(g0, t, n) ==> grid@ == g0,
                {
                    if k != j {
                        let coord = area.get_coord(k);
                        let ghost gpre = grid@;
                        let ghost cpre = changed;
                        let r = mark_off_at(grid, coord, mark);
                        changed = changed || r;
                        proof {
                            lemma_house_bounds(t, n, k as int);
                            lemma_house_injective(t, n, j as int, k as int);
                            let gnew = grid@;
                            assert(gnew == gpre.update(house_index(t, n, k as int),
                                crate::model::cell_unset(gpre[house_index(t, n, k as int)],
                                mark.as_int())));
                            crate::model::lemma_cell_unset(gpre[house_index(t, n, k as int)],
                                mark.as_int());
                            assert forall|i: int| 0 <= i < 81 implies cell_elim(
                                #[trigger] gnew[i],
                                #[trigger] gpre[i],
                            ) by {
                                if i != house_index(t, n, k as int) {
                                    assert(gnew[i] == gpre[i]);
                                }
                            }
                            lemma_elim_step_trans(gnew, gpre, g0);
                            lemma_elim_step_refines(gpre, g0);
                            lemma_elim_step_refines(gnew, gpre);
                            lemma_change_step(g0, gpre, gnew, cpre, r);
                            if area_consistent(g0, t, n) {
                                assert(gpre == g0);
                                assert(!g0[house_index(t, n, k as int)].has(
                                    g0[house_index(t, n, j as int)].value as int,
                                ));
                                assert(!r);
                                assert(gnew == g0);
                            }
                            assert forall|s: Seq<u8>|
                                valid_solution(s) && consistent(s, g0) implies
                            #[trigger] consistent(s, gnew) by {
                                assert(consistent(s, gpre));
                                lemma_peer_sound(s, gpre, t, n, j as int, k as int);
                                assert forall|i: int|
                                    0 <= i < 81 implies crate::model::cell_consistent(
                                    s[i],
                                    #[trigger] gnew[i],
                                ) by {
                                    assert(crate::model::cell_consistent(s[i], gpre[i]));
                                    if i == house_index(t, n, k as int) {
                                        assert(s[i] != cell.value);
                                    }
                                }
                            }
                            assert forall|jj: int, kk: int|
                                0 <= jj < j && 0 <= kk < 9 && kk != jj && (
                                #[trigger] gnew[house_index(t, n, jj)]).is_det()
                                    implies !(#[trigger] gnew[house_index(t, n, kk)]).has(
                                gnew[house_index(t, n, jj)].value as int,
                            ) by {
                                lemma_house_bounds(t, n, jj);
                                lemma_house_bounds(t, n, kk);
                                assert(cell_elim(gnew[house_index(t, n, jj)], gpre[house_index(
                                    t,
                                    n,
                                    jj,
                                )]));
                                assert(cell_elim(gnew[house_index(t, n, kk)], gpre[house_index(
                                    t,
                                    n,
                                    kk,
                                )]));
                            }
                        }
                    }
                }
            },
            None => {},
        }
        proof {
            assert forall|jj: int, k: int|
                0 <= jj < j + 1 && 0 <= k < 9 && k != jj && (#[trigger] grid@[house_index(
                    t,
                    n,
                    jj,
                )]).is_det() implies !(#[trigger] grid@[house_index(t, n, k)]).has(
                grid@[house_index(t, n, jj)].value as int,
            ) by {
                lemma_house_bounds(t, n, jj);
                lemma_house_bounds(t, n, k);
                if jj == j {
                    assert(grid@[house_index(t, n, jj)] == cell);
                }
            }
        }
    }
    changed
}

/// Thread one more elimination pass into a sweep's book-keeping.
proof fn chain_elim(g0: Seq<Cell>, gpre: Seq<Cell>, gnew: Seq<Cell>, c: bool, r: bool)
    requires
        grid_wf(g0),
        grid_wf(gpre),
        grid_wf(gnew),
        elim_step(gpre, g0),
        elim_step(gnew, gpre),
        c <==> (gpre != g0),
        r <==> (gnew != gpre),
    ensures
        elim_step(gnew, g0),
        (c || r) <==> (gnew != g0),
{
    lemma_elim_step_trans(gnew, gpre, g0);
    lemma_elim_step_refines(gpre, g0);
    lemma_elim_step_refines(gnew, gpre);
    lemma_change_step(g0, gpre, gnew, c, r);
}

/// One full propagation pass: in every row, column and square, the value
/// of each determined cell is removed from the possibility sets of its
/// peers.  Afterwards the grid is pruned: no determined value is still
/// marked possible elsewhere in any of its houses.
pub fn propagate_determined(grid: &mut Grid) -> (r: bool)
    requires
        old(grid).wf(),
    ensures
        final(grid).wf(),
        elim_step(final(grid)@, old(grid)@),
        r <==> (final(grid)@ != old(grid)@),
        pruned(final(grid)@),
        pruned(old(grid)@) ==> final(grid)@ == old(grid)@,
        forall|s: Seq<u8>|
            valid_solution(s) && consistent(s, old(grid)@) ==> #[trigger] consistent(
                s,
                final(grid)@,
            ),
{
    let ghost g0 = old(grid)@;
    let mut changed = false;
    for n in 0..9usize
        invariant
            grid.wf(),
            g0 == old(grid)@,
            grid_wf(g0),
            elim_step(grid@, g0),
            changed <==> (grid@ != g0),
            forall|s: Seq<u8>|
                valid_solution(s) && consistent(s, g0) ==> #[trigger] consistent(s, grid@),
            forall|h: int| 0 <= h < n ==> #[trigger] area_consistent(grid@, 0, h),
            pruned(g0) ==> grid@ == g0,
    {
        let area = Row::new(n);
        let ghost gpre = grid@;
        let ghost cpre = changed;
        let r = prune_house(grid, &area);
        changed = changed || r;
        proof {
            chain_elim(g0, gpre, grid@, cpre, r);
            if pruned(g0) {
                assert(gpre == g0);
                assert(area_consistent(g0, area.kind(), area.num()));
                assert(grid@ == g0);
            }
            assert forall|h: int| 0 <= h < n + 1 implies #[trigger] area_consistent(
                grid@,
                0,
                h,
            ) by {
                if h < n {
                    lemma_area_consistent_stable(gpre, grid@, 0, h);
                }
            }
        }
    }
    for n in 0..9usize
        invariant
            grid.wf(),
            g0 == old(grid)@,
            grid_wf(g0),
            elim_step(grid@, g0),
            changed <==> (grid@ != g0),
            forall|s: Seq<u8>|
                valid_solution(s) && consistent(s, g0) ==> #[trigger] consistent(s, grid@),
            forall|h: int| 0 <= h < 9 ==> #[trigger] area_consistent(grid@, 0, h),
            forall|h: int| 0 <= h < n ==> #[trigger] area_consistent(grid@, 1, h),
            pruned(g0) ==> grid@ == g0,
    {
        let area = Column::new(n);
        let ghost gpre = grid@;
        let ghost cpre = changed;
        let r = prune_house(grid, &area);
        changed = changed || r;
        proof {
            chain_elim(g0, gpre, grid@, cpre, r);
            if pruned(g0) {
                assert(gpre == g0);
                assert(area_consistent(g0, area.kind(), area.num()));
                assert(grid@ == g0);
            }
            assert forall|h: int| 0 <= h < 9 implies #[trigger] area_consistent(grid@, 0, h) by {
                lemma_area_consistent_stable(gpre, grid@, 0, h);
            }
            assert forall|h: int| 0 <= h < n + 1 implies #[trigger] area_consistent(
                grid@,
                1,
                h,
            ) by {
                if h < n {
                    lemma_area_consistent_stable(gpre, grid@, 1, h);
                }
            }
        }
    }
    for n in 0..9usize
        invariant
            grid.wf(),
            g0 == old(grid)@,
            grid_wf(g0),
            elim_step(grid@, g0),
            changed <==> (grid@ != g0),
            forall|s: Seq<u8>|
                valid_solution(s) && consistent(s, g0) ==> #[trigger] consistent(s, grid@),
            forall|h: int| 0 <= h < 9 ==> #[trigger] area_consistent(grid@, 0, h),
            forall|h: int| 0 <= h < 9 ==> #[trigger] area_consistent(grid@, 1, h),
            forall|h: int| 0 <= h < n ==> #[trigger] area_consistent(grid@, 2, h),
            pruned(g0) ==> grid@ == g0,
    {
        let area = Square::new(n);
        let ghost gpre = grid@;
        let ghost cpre = changed;
        let r = prune_house(grid, &area);
        changed = changed || r;
        proof {
            chain_elim(g0, gpre, grid@, cpre, r);
            if pruned(g0) {
                assert(gpre == g0);
                assert(area_consistent(g0, area.kind(), area.num()));
                assert(grid@ == g0);
            }
            assert forall|h: int| 0 <= h < 9 implies #[trigger] area_consistent(grid@, 0, h) by {
                lemma_area_consistent_stable(gpre, grid@, 0, h);
            }
            assert forall|h: int| 0 <= h < 9 implies #[trigger] area_consistent(grid@, 1, h) by {
                lemma_area_consistent_stable(gpre, grid@, 1, h);
            }
            assert forall|h: int| 0 <= h < n + 1 implies #[trigger] area_consistent(
                grid@,
                2,
                h,
            ) by {
                if h < n {
                    lemma_area_consistent_stable(gpre, grid@, 2, h);
                }
            }
        }
    }
    changed
}

/// The orchestrator: runs the propagation pass, the locked-candidate
/// strategy and the single-candidate strategy in turn, until one full
/// sweep changes nothing.
///
/// Termination is by a potential function (total marks plus undetermined
/// cells), which every changing sweep strictly lowers.
pub struct SolverManager {}

impl SolverManager {
    pub fn new() -> (s: SolverManager)
        ensures
            true,
    {
        SolverManager {  }
    }

    /// Run every strategy against the grid until a full sweep makes no
    /// change (a fixed point).  At the fixed point the grid is pruned and
    /// holds no further naked single, and every valid completion of the
    /// input grid is still a completion of the output.
    pub fn solve(&self, grid: Grid) -> (res: SolverResult)
        requires
            grid.wf(),
        ensures
            res.grid.wf(),
            grid_refines(res.grid@, grid@),
            (res.result == SolveResult::Updated) <==> (res.grid@ != grid@),
            pruned(res.grid@),
            no_naked_single(res.grid@),
            (pruned(grid@) && no_naked_single(grid@) && no_locked_candidate(grid@)) ==> (res.grid@
                == grid@ && res.result == SolveResult::NoChange),
            forall|s: Seq<u8>|
                valid_solution(s) && consistent(s, grid@) ==> #[trigger] consistent(s, res.grid@),
    {
        let ghost g0 = grid@;
        let mut current = grid;
        let mut any = false;
        let mut again = true;
        while again
            invariant
                current.wf(),
                grid_wf(g0),
                grid_refines(current@, g0),
                any <==> (current@ != g0),
                forall|s: Seq<u8>|
                    valid_solution(s) && consistent(s, g0) ==> #[trigger] consistent(s, current@),
                !again ==> (pruned(current@) && no_naked_single(current@)),
                (pruned(g0) && no_naked_single(g0) && no_locked_candidate(g0)) ==> (current@ == g0
                    && !any),
            decreases grid_weight(current@), (if again {
                1int
            } else {
                0int
            }),
        {
            let ghost gstart = current@;
            let ghost abefore = any;
            let c1 = propagate_determined(&mut current);
            let ghost ga = current@;
            let r2 = MarkOccupy::solve(&mut current);
            let c2 = r2 == SolveResult::Updated;
            let ghost gb = current@;
            let res3 = DeterminedSolver::new().solve(current);
            current = res3.grid;
            let c3 = res3.result == SolveResult::Updated;
            let swept = c1 || c2 || c3;
            proof {
                let gc = current@;
                lemma_elim_step_refines(ga, gstart);
                lemma_elim_step_refines(gb, ga);
                lemma_det_step_refines(gc, gb);
                lemma_change_step(gstart, ga, gb, c1, c2);
                lemma_change_step(gstart, gb, gc, c1 || c2, c3);
                lemma_grid_refines_trans(gc, gb, gstart);
                lemma_grid_refines_trans(gc, gstart, g0);
                lemma_change_step(g0, gstart, gc, abefore, swept);
                // Consistency through the sweep: the propagation pass
                // leaves the grid pruned, which the locked-candidate
                // strategy's soundness needs.
                assert forall|s: Seq<u8>|
                    valid_solution(s) && consistent(s, g0) implies #[trigger] consistent(
                    s,
                    gc,
                ) by {
                    assert(consistent(s, gstart));
                    assert(consistent(s, ga));
                    assert(pruned(ga));
                    assert(consistent(s, gb));
                    assert(consistent(s, gc));
                }
                if pruned(g0) && no_naked_single(g0) && no_locked_candidate(g0) {
                    assert(gstart == g0);
                    assert(ga == g0);
                    assert(gb == g0);
                    assert(gc == g0);
                    assert(!swept);
                }
                if swept {
                    lemma_grid_weight_decrease(gc, gstart);
                } else {
                    assert(gc == gstart);
                    assert(pruned(gc));
                    assert forall|t: int, n: int, i: int, m: int| !#[trigger] naked_single(
                        gc,
                        t,
                        n,
                        i,
                        m,
                    ) by {
                        if naked_single(gc, t, n, i, m) {
                            lemma_house_bounds(t, n, i);
                            assert(house_done(gb, gc, t, n));
                            assert(gc[house_index(t, n, i)].is_det());
                        }
                    }
                }
            }
            any = any || swept;
            again = swept;
        }
        SolverResult { grid: current, result: SolveResult::from_changed(any) }
    }
}

} // verus!
