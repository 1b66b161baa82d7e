use vstd::prelude::*;

use crate::cell::Cell;
use crate::collection::CellCollection;
use crate::coords::Coord;
use crate::grid::Grid;
use crate::mark::Mark;
use crate::model::{
    blocks, cell_det_step, consistent, det_cell, det_step, full_cell, grid_wf, in_house,
    house_done, house_index, lemma_change_step, lemma_det_step_refines, lemma_det_step_trans,
    lemma_hidden_single_sound, lemma_house_bounds, lemma_house_done_lift, lemma_house_done_mono,
    lemma_naked_single_stable, naked_single, no_naked_single, only_possible_at, singleton_cell,
    solved_grid,
    valid_solution, values_of,
};
use crate::solver::{SolveResult, SolverResult};

verus! {

/// The naked/hidden-single strategy: whenever, within one row, column or
/// square, a mark is possible in exactly one position (no other cell of
/// the area holds that value or still allows it), that cell is forced to
/// the mark's value.
pub struct DeterminedSolver {}

/// Whether, in the area described by (kind, num), no position other than
/// `index` can take `mark`: every other cell is either determined to a
/// different value or no longer allows the mark.
pub fn is_only_possible_at<T: CellCollection>(
    grid: &Grid,
    area: &T,
    mark: Mark,
    index: usize,
) -> (r: bool)
    requires
        grid.wf(),
        area.wf(),
        index < 9,
    ensures
        r == only_possible_at(grid@, area.kind(), area.num(), mark.as_int(), index as int),
{
    proof {
        area.wf_facts();
    }
    let mark_value = mark.to_value();
    for other in 0..9usize
        invariant
            grid.wf(),
            area.wf(),
            index < 9,
            0 <= area.kind() < 3,
            0 <= area.num() < 9,
            mark_value as int == mark.as_int(),
            forall|j: int|
                0 <= j < other && j != index ==> !blocks(
                    #[trigger] grid@[house_index(area.kind(), area.num(), j)],
                    mark.as_int(),
                ),
    {
        if other != index {
            let cell = area.get_cell(grid, other);
            proof {
                assert(cell == grid@[house_index(area.kind(), area.num(), other as int)]);
            }
            let cv = cell.value();
            let mut blocked = false;
            match cv {
                Some(value) => {
                    proof {
                        assert(cell.is_det() && value == cell.value);
                    }
                    if value == mark_value {
                        proof {
                            assert(cell.value as int == mark.as_int());
                        }
                        blocked = true;
                    }
                },
                None => {
                    if cell.is_possible(mark) {
                        proof {
                            assert(!cell.is_det() && cell.has(mark.as_int()));
                        }
                        blocked = true;
                    }
                },
            }
            if blocked {
                proof {
                    assert(blocks(cell, mark.as_int()));
                }
                return false;
            }
            proof {
                assert(!blocks(cell, mark.as_int()));
            }
        }
    }
    true
}

/// Try every mark still possible in `cell`; if one of them is possible
/// nowhere else in the area, determine the cell to it.
pub fn set_if_possible<T: CellCollection>(
    grid: &mut Grid,
    area: &T,
    cell: &Cell,
    index: usize,
) -> (r: bool)
    requires
        old(grid).wf(),
        area.wf(),
        index < 9,
        *cell == old(grid)@[house_index(area.kind(), area.num(), index as int)],
        !cell.is_det(),
    ensures
        final(grid).wf(),
        det_step(final(grid)@, old(grid)@),
        r <==> (final(grid)@ != old(grid)@),
        r ==> final(grid)@[house_index(area.kind(), area.num(), index as int)].is_det(),
        r ==> (exists|m: int|
            1 <= m <= 9 && cell.has(m) && #[trigger] only_possible_at(
                old(grid)@,
                area.kind(),
                area.num(),
                m,
                index as int,
            ) && final(grid)@ == old(grid)@.update(
                house_index(area.kind(), area.num(), index as int),
                det_cell(m as u8),
            )),
        !r ==> (forall|m: int|
            1 <= m <= 9 && cell.has(m) ==> !only_possible_at(
                old(grid)@,
                area.kind(),
                area.num(),
                m,
                index as int,
            )),
        forall|s: Seq<u8>|
            valid_solution(s) && consistent(s, old(grid)@) ==> #[trigger] consistent(
                s,
                final(grid)@,
            ),
{
    proof {
        area.wf_facts();
        lemma_house_bounds(area.kind(), area.num(), index as int);
    }
    let ghost t = area.kind();
    let ghost n = area.num();
    let ghost hi = house_index(t, n, index as int);
    for mval in 1u8..10u8
        invariant
            grid.wf(),
            area.wf(),
            index < 9,
            0 <= t < 3,
            0 <= n < 9,
            t == area.kind(),
            n == area.num(),
            hi == house_index(t, n, index as int),
            0 <= hi < 81,
            grid@ == old(grid)@,
            *cell == old(grid)@[hi],
            !cell.is_det(),
            forall|m: int|
                1 <= m < mval && cell.has(m) ==> !only_possible_at(old(grid)@, t, n, m, index as int),
    {
        let mark = Mark::from_value(mval);
        if cell.is_possible(mark) {
            if is_only_possible_at(grid, area, mark, index) {
                let coord = area.get_coord(index);
                let value = mark.to_value();
                let new_cell = Cell::new_with_value(value);
                grid.set_cell_at(coord, new_cell);
                proof {
                    let gnew = grid@;
                    let g0 = old(grid)@;
                    assert(gnew == g0.update(hi, new_cell));
                    assert(gnew[hi] == new_cell);
                    assert(new_cell == det_cell(mval));
                    assert(1 <= mval as int <= 9 && cell.has(mval as int) && only_possible_at(
                        g0,
                        t,
                        n,
                        mval as int,
                        index as int,
                    ) && gnew == g0.update(hi, det_cell(mval)));
                    assert forall|i: int| 0 <= i < 81 implies cell_det_step(
                        #[trigger] gnew[i],
                        #[trigger] g0[i],
                    ) by {
                        if i != hi {
                            assert(gnew[i] == g0[i]);
                        }
                    }
                    assert forall|i: int| 0 <= i < 81 implies (#[trigger] gnew[i]).wf() by {
                        if i != hi {
                            assert(gnew[i] == g0[i]);
                        }
                    }
                    assert(gnew[hi].is_det() && !g0[hi].is_det());
                    assert(gnew != g0) by {
                        assert(gnew[hi].value != g0[hi].value);
                    }
                    assert forall|s: Seq<u8>|
                        valid_solution(s) && consistent(s, g0) implies #[trigger] consistent(
                        s,
                        gnew,
                    ) by {
                        lemma_hidden_single_sound(s, g0, t, n, mval as int, index as int);
                        assert(s[hi] == mval);
                        assert forall|i: int| 0 <= i < 81 implies crate::model::cell_consistent(
                            s[i],
                            #[trigger] gnew[i],
                        ) by {
                            if i != hi {
                                assert(gnew[i] == g0[i]);
                                assert(crate::model::cell_consistent(s[i], g0[i]));
                            }
                        }
                    }
                }
                return true;
            }
        }
    }
    false
}

/// Run the single-candidate check over every undetermined cell of one
/// area.
pub fn check_searchable<T: CellCollection>(grid: &mut Grid, area: &T) -> (r: bool)
    requires
        old(grid).wf(),
        area.wf(),
    ensures
        final(grid).wf(),
        det_step(final(grid)@, old(grid)@),
        r <==> (final(grid)@ != old(grid)@),
        house_done(old(grid)@, final(grid)@, area.kind(), area.num()),
        (forall|i: int, m: int|
            !#[trigger] naked_single(old(grid)@, area.kind(), area.num(), i, m)) ==> final(grid)@
            == old(grid)@,
        forall|i: int|
            0 <= i < 81 && !#[trigger] in_house(area.kind(), area.num(), i) ==> final(grid)@[i]
                == old(grid)@[i],
        forall|s: Seq<u8>|
            valid_solution(s) && consistent(s, old(grid)@) ==> #[trigger] consistent(
                s,
                final(grid)@,
            ),
{
    proof {
        area.wf_facts();
    }
    let ghost t = area.kind();
    let ghost n = area.num();
    let ghost g0 = old(grid)@;
    let mut result = false;
    for index in 0..9usize
        invariant
            grid.wf(),
            area.wf(),
            0 <= t < 3,
            0 <= n < 9,
            t == area.kind(),
            n == area.num(),
            g0 == old(grid)@,
            grid_wf(g0),
            det_step(grid@, g0),
            result <==> (grid@ != g0),
            forall|s: Seq<u8>|
                valid_solution(s) && consistent(s, g0) ==> #[trigger] consistent(s, grid@),
            forall|i: int, m: int|
                0 <= i < index && #[trigger] naked_single(g0, t, n, i, m) ==> grid@[house_index(
                    t,
                    n,
                    i,
                )].is_det(),
            forall|i: int|
                0 <= i < 81 && !#[trigger] in_house(t, n, i) ==> grid@[i] == g0[i],
            (forall|i: int, m: int| !#[trigger] naked_single(g0, t, n, i, m)) ==> grid@ == g0,
    {
        let cell = area.get_cell(grid, index);
        proof {
            lemma_house_bounds(t, n, index as int);
        }
        if !cell.is_determined() {
            let ghost gpre = grid@;
            let ghost rbefore = result;
            let r = set_if_possible(grid, area, &cell, index);
            result = result || r;
            proof {
                lemma_det_step_trans(grid@, gpre, g0);
                lemma_det_step_refines(gpre, g0);
                lemma_det_step_refines(grid@, gpre);
                lemma_change_step(g0, gpre, grid@, rbefore, r);
                assert forall|i: int|
                    0 <= i < 81 && !#[trigger] in_house(t, n, i) implies grid@[i] == g0[i] by {
                    if grid@[i] != gpre[i] {
                        assert(r);
                        assert(i == house_index(t, n, index as int));
                        assert(in_house(t, n, i));
                    }
                }
                if (forall|i: int, m: int| !#[trigger] naked_single(g0, t, n, i, m)) {
                    assert(gpre == g0);
                    if r {
                        let mw = choose|mm: int|
                            1 <= mm <= 9 && cell.has(mm) && #[trigger] only_possible_at(
                                gpre,
                                t,
                                n,
                                mm,
                                index as int,
                            ) && grid@ == gpre.update(
                                house_index(t, n, index as int),
                                det_cell(mm as u8),
                            );
                        assert(naked_single(g0, t, n, index as int, mw));
                    }
                    assert(grid@ == g0);
                }
                assert forall|i: int, m: int|
                    0 <= i < index + 1 && #[trigger] naked_single(g0, t, n, i, m)
                    implies grid@[house_index(t, n, i)].is_det() by {
                    lemma_house_bounds(t, n, i);
                    if i < index {
                        assert(gpre[house_index(t, n, i)].is_det());
                        assert(cell_det_step(grid@[house_index(t, n, i)], gpre[house_index(
                            t,
                            n,
                            i,
                        )]));
                    } else {
                        if !r {
                            lemma_naked_single_stable(g0, gpre, t, n, i, m);
                            assert(naked_single(gpre, t, n, i, m));
                            assert(cell.has(m) && only_possible_at(gpre, t, n, m, i));
                            assert(only_possible_at(old(grid)@, t, n, m, i));
                            assert(false);
                        }
                    }
                }
            }
        } else {
            proof {
                assert forall|i: int, m: int|
                    0 <= i < index + 1 && #[trigger] naked_single(g0, t, n, i, m)
                    implies grid@[house_index(t, n, i)].is_det() by {
                    lemma_house_bounds(t, n, i);
                    if i == index {
                        assert(grid@[house_index(t, n, i)].is_det());
                    }
                }
            }
        }
    }
    result
}

impl DeterminedSolver {
    pub fn new() -> (s: DeterminedSolver)
        ensures
            true,
    {
        DeterminedSolver {  }
    }

    pub fn new_box() -> (b: Box<DeterminedSolver>)
        ensures
            true,
    {
        Box::new(DeterminedSolver::new())
    }

    /// One full pass: every square, then every row, then every column.
    ///
    /// The contract pins the pass down: it is a pure determination step
    /// (monotone), it reports `Updated` exactly when the grid changed, it
    /// resolves every naked single the input grid had, and it never rules
    /// out a valid completion of the input.
    pub fn solve(&self, grid: Grid) -> (res: SolverResult)
        requires
            grid.wf(),
        ensures
            res.grid.wf(),
            det_step(res.grid@, grid@),
            (res.result == SolveResult::Updated) <==> (res.grid@ != grid@),
            forall|t: int, n: int|
                0 <= t < 3 && 0 <= n < 9 ==> #[trigger] house_done(grid@, res.grid@, t, n),
            forall|s: Seq<u8>|
                valid_solution(s) && consistent(s, grid@) ==> #[trigger] consistent(s, res.grid@),
            no_naked_single(grid@) ==> (res.grid@ == grid@ && res.result == SolveResult::NoChange),
    {
        let ghost g0 = grid@;
        let mut current = grid;
        let mut changed = false;
        for sq in 0..9usize
            invariant
                current.wf(),
                grid_wf(g0),
                det_step(current@, g0),
                changed <==> (current@ != g0),
                forall|s: Seq<u8>|
                    valid_solution(s) && consistent(s, g0) ==> #[trigger] consistent(s, current@),
                forall|h: int| 0 <= h < sq ==> #[trigger] house_done(g0, current@, 2, h),
                no_naked_single(g0) ==> current@ == g0,
        {
            let coord = Coord::new((sq / 3) * 3, (sq % 3) * 3);
            let sqr = current.get_square_at(coord);
            let ghost gpre = current@;
            let ghost cbefore = changed;
            let r = check_searchable(&mut current, &sqr);
            changed = changed || r;
            proof {
                Self::chain(g0, gpre, current@, cbefore, r);
                if no_naked_single(g0) {
                    assert(gpre == g0);
                    assert(current@ == g0);
                }
                assert forall|h: int| 0 <= h < sq + 1 implies #[trigger] house_done(
                    g0,
                    current@,
                    2,
                    h,
                ) by {
                    if h < sq {
                        lemma_house_done_mono(g0, gpre, current@, 2, h);
                    } else {
                        lemma_house_done_lift(g0, gpre, current@, 2, h);
                    }
                }
            }
        }
        for row in 0..9usize
            invariant
                current.wf(),
                grid_wf(g0),
                det_step(current@, g0),
                changed <==> (current@ != g0),
                forall|s: Seq<u8>|
                    valid_solution(s) && consistent(s, g0) ==> #[trigger] consistent(s, current@),
                forall|h: int| 0 <= h < 9 ==> #[trigger] house_done(g0, current@, 2, h),
                forall|h: int| 0 <= h < row ==> #[trigger] house_done(g0, current@, 0, h),
                no_naked_single(g0) ==> current@ == g0,
        {
            let rw = current.get_row(row);
            let ghost gpre = current@;
            let ghost cbefore = changed;
            let r = check_searchable(&mut current, &rw);
            changed = changed || r;
            proof {
                Self::chain(g0, gpre, current@, cbefore, r);
                if no_naked_single(g0) {
                    assert(gpre == g0);
                    assert(current@ == g0);
                }
                assert forall|h: int| 0 <= h < 9 implies #[trigger] house_done(
                    g0,
                    current@,
                    2,
                    h,
                ) by {
                    lemma_house_done_mono(g0, gpre, current@, 2, h);
                }
                assert forall|h: int| 0 <= h < row + 1 implies #[trigger] house_done(
                    g0,
                    current@,
                    0,
                    h,
                ) by {
                    if h < row {
                        lemma_house_done_mono(g0, gpre, current@, 0, h);
                    } else {
                        lemma_house_done_lift(g0, gpre, current@, 0, h);
                    }
                }
            }
        }
        for col in 0..9usize
            invariant
                current.wf(),
                grid_wf(g0),
                det_step(current@, g0),
                changed <==> (current@ != g0),
                forall|s: Seq<u8>|
                    valid_solution(s) && consistent(s, g0) ==> #[trigger] consistent(s, current@),
                forall|h: int| 0 <= h < 9 ==> #[trigger] house_done(g0, current@, 2, h),
                forall|h: int| 0 <= h < 9 ==> #[trigger] house_done(g0, current@, 0, h),
                forall|h: int| 0 <= h < col ==> #[trigger] house_done(g0, current@, 1, h),
                no_naked_single(g0) ==> current@ == g0,
        {
            let cl = current.get_column(col);
            let ghost gpre = current@;
            let ghost cbefore = changed;
            let r = check_searchable(&mut current, &cl);
            changed = changed || r;
            proof {
                Self::chain(g0, gpre, current@, cbefore, r);
                if no_naked_single(g0) {
                    assert(gpre == g0);
                    assert(current@ == g0);
                }
                assert forall|h: int| 0 <= h < 9 implies #[trigger] house_done(
                    g0,
                    current@,
                    2,
                    h,
                ) by {
                    lemma_house_done_mono(g0, gpre, current@, 2, h);
                }
                assert forall|h: int| 0 <= h < 9 implies #[trigger] house_done(
                    g0,
                    current@,
                    0,
                    h,
                ) by {
                    lemma_house_done_mono(g0, gpre, current@, 0, h);
                }
                assert forall|h: int| 0 <= h < col + 1 implies #[trigger] house_done(
                    g0,
                    current@,
                    1,
                    h,
                ) by {
                    if h < col {
                        lemma_house_done_mono(g0, gpre, current@, 1, h);
                    } else {
                        lemma_house_done_lift(g0, gpre, current@, 1, h);
                    }
                }
            }
        }
        let mut result = SolverResult::nothing(current);
        if changed {
            result.result = SolveResult::Updated;
        }
        result
    }

    /// Chain one more area pass into the pass-level book-keeping.
    proof fn chain(g0: Seq<Cell>, gpre: Seq<Cell>, gnew: Seq<Cell>, cbefore: bool, r: bool)
        requires
            grid_wf(g0),
            grid_wf(gpre),
            grid_wf(gnew),
            det_step(gpre, g0),
            det_step(gnew, gpre),
            cbefore <==> (gpre != g0),
            r <==> (gnew != gpre),
        ensures
            det_step(gnew, g0),
            (cbefore || r) <==> (gnew != g0),
    {
        lemma_det_step_trans(gnew, gpre, g0);
        lemma_det_step_refines(gpre, g0);
        lemma_det_step_refines(gnew, gpre);
        lemma_change_step(g0, gpre, gnew, cbefore, r);
    }
}

/// Soundness of the single-candidate strategy on a near-solved grid: if a
/// solved grid has exactly one cell replaced by "undetermined, but
/// restricted to that cell's value", then any pass meeting this
/// strategy's contract restores exactly the solved grid, and reports a
/// change.
pub proof fn lemma_naked_single_restores(
    sol: Seq<Cell>,
    g: Seq<Cell>,
    out: Seq<Cell>,
    updated: bool,
    i: int,
)
    requires
        solved_grid(sol),
        0 <= i < 81,
        g == sol.update(i, singleton_cell(sol[i].value)),
        det_step(out, g),
        updated <==> (out != g),
        forall|t: int, n: int| 0 <= t < 3 && 0 <= n < 9 ==> #[trigger] house_done(g, out, t, n),
        forall|s: Seq<u8>|
            valid_solution(s) && consistent(s, g) ==> #[trigger] consistent(s, out),
    ensures
        out == sol,
        updated,
{
    let v = sol[i].value;
    let vals = values_of(sol);
    assert(sol[i].is_det());
    assert(1 <= v <= 9);
    crate::possibility::lemma_mask_single(v as int);
    let n = i / 9;
    let k = i % 9;
    assert(house_index(0, n, k) == i);
    lemma_house_bounds(0, n, k);
    // The singleton cell is a naked single in its row.
    assert forall|j: int| 0 <= j < 9 && j != k implies !blocks(
        #[trigger] g[house_index(0, n, j)],
        v as int,
    ) by {
        lemma_house_bounds(0, n, j);
        assert(house_index(0, n, j) != i);
        assert(g[house_index(0, n, j)] == sol[house_index(0, n, j)]);
        assert(crate::model::house_distinct(vals, 0, n));
        assert(vals[house_index(0, n, j)] != vals[house_index(0, n, k)]);
        assert(vals[house_index(0, n, j)] == sol[house_index(0, n, j)].value);
        crate::possibility::lemma_empty_mask(v as int);
    }
    assert(naked_single(g, 0, n, k, v as int));
    assert(house_done(g, out, 0, n));
    assert(out[i].is_det());
    // The valid completion of g is exactly the solved grid's values.
    assert(consistent(vals, g)) by {
        assert forall|j: int| 0 <= j < 81 implies crate::model::cell_consistent(
            vals[j],
            #[trigger] g[j],
        ) by {
            if j != i {
                assert(g[j] == sol[j]);
            }
        }
    }
    assert(consistent(vals, out));
    // Hence every cell of the output matches the solved grid.
    assert forall|j: int| 0 <= j < 81 implies out[j] == sol[j] by {
        assert(cell_det_step(out[j], g[j]));
        if j != i {
            assert(g[j] == sol[j]);
            assert(sol[j].is_det());
        } else {
            assert(crate::model::cell_consistent(vals[i], out[i]));
            assert(out[i].value == v);
            assert(out[i].possibilities.bits == 0);
            assert(sol[i].wf());
            assert(sol[i].possibilities.bits == 0);
        }
    }
    assert(out =~= sol);
    assert(out[i] != g[i]);
    assert(out != g);
}

/// Every cell that held digit `d` cleared back to fully possible.
pub open spec fn clear_digit(sol: Seq<Cell>, d: u8) -> Seq<Cell> {
    Seq::new(81, |i: int| if sol[i].value == d {
        full_cell()
    } else {
        sol[i]
    })
}

/// Convergence on digit removal: clearing every cell of one digit from a
/// solved grid leaves nine naked singles, and any pass meeting this
/// strategy's contract restores exactly the solved grid.
pub proof fn lemma_digit_removal_resolved(
    sol: Seq<Cell>,
    g: Seq<Cell>,
    out: Seq<Cell>,
    updated: bool,
    d: u8,
)
    requires
        solved_grid(sol),
        1 <= d <= 9,
        g == clear_digit(sol, d),
        det_step(out, g),
        updated <==> (out != g),
        forall|t: int, n: int| 0 <= t < 3 && 0 <= n < 9 ==> #[trigger] house_done(g, out, t, n),
        forall|s: Seq<u8>|
            valid_solution(s) && consistent(s, g) ==> #[trigger] consistent(s, out),
    ensures
        out == sol,
        updated,
{
    let vals = values_of(sol);
    assert forall|j: int| 0 <= j < 81 implies 1 <= (#[trigger] sol[j]).value <= 9 by {
        assert(sol[j].is_det() && sol[j].wf());
    }
    // The solved grid's values are still a completion of the cleared grid.
    assert(consistent(vals, g)) by {
        assert forall|j: int| 0 <= j < 81 implies crate::model::cell_consistent(
            vals[j],
            #[trigger] g[j],
        ) by {
            if sol[j].value == d {
                crate::possibility::lemma_full_mask(vals[j] as int);
            }
        }
    }
    assert(consistent(vals, out));
    // Each cleared cell is a naked single in its row: every other cell of
    // the row is still determined, and none holds d.
    assert forall|i: int| 0 <= i < 81 && sol[i].value == d implies (#[trigger] out[i]).is_det()
        by {
        let n = i / 9;
        let k = i % 9;
        assert(house_index(0, n, k) == i);
        lemma_house_bounds(0, n, k);
        assert forall|j: int| 0 <= j < 9 && j != k implies !blocks(
            #[trigger] g[house_index(0, n, j)],
            d as int,
        ) by {
            lemma_house_bounds(0, n, j);
            crate::model::lemma_house_injective(0, n, j, k);
            assert(crate::model::house_distinct(vals, 0, n));
            assert(vals[house_index(0, n, j)] != vals[house_index(0, n, k)]);
            assert(vals[house_index(0, n, k)] == d);
            assert(sol[house_index(0, n, j)].value != d);
            assert(g[house_index(0, n, j)] == sol[house_index(0, n, j)]);
            crate::possibility::lemma_empty_mask(d as int);
        }
        crate::possibility::lemma_full_mask(d as int);
        assert(naked_single(g, 0, n, k, d as int));
        assert(house_done(g, out, 0, n));
    }
    assert forall|j: int| 0 <= j < 81 implies out[j] == sol[j] by {
        assert(cell_det_step(out[j], g[j]));
        if sol[j].value == d {
            assert(out[j].is_det());
            assert(crate::model::cell_consistent(vals[j], out[j]));
            assert(out[j].value == d);
            assert(out[j].possibilities.bits == 0);
            assert(sol[j].wf());
        } else {
            assert(g[j] == sol[j]);
            assert(sol[j].is_det());
        }
    }
    assert(out =~= sol);
    // Some cell held d (the first row contains every digit), so the pass
    // changed the grid.
    assert(crate::model::house_contains(vals, 0, 0, d as int));
    let k0 = choose|k: int| 0 <= k < 9 && #[trigger] vals[house_index(0, 0, k)] == d as int;
    lemma_house_bounds(0, 0, k0);
    assert(sol[k0].value == d);
    assert(!g[k0].is_det() && out[k0].is_det());
    assert(out[k0] != g[k0]);
    assert(out != g);
}

} // verus!
