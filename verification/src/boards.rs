use rand::Rng;
use vstd::prelude::*;

use crate::cell::Cell;
use crate::grid::Grid;
use crate::mark::Mark;
use crate::model::{det_cell, full_cell, house_index, singleton_cell};
use crate::possibility::{lemma_mask_single};

verus! {

/// A fixed, fully solved reference board.
pub open spec fn sample_board() -> Seq<Cell> {
    seq![
        det_cell(4u8), det_cell(3u8), det_cell(5u8), det_cell(2u8), det_cell(6u8), det_cell(9u8),
        det_cell(7u8), det_cell(8u8), det_cell(1u8),
        det_cell(6u8), det_cell(8u8), det_cell(2u8), det_cell(5u8), det_cell(7u8), det_cell(1u8),
        det_cell(4u8), det_cell(9u8), det_cell(3u8),
        det_cell(1u8), det_cell(9u8), det_cell(7u8), det_cell(8u8), det_cell(3u8), det_cell(4u8),
        det_cell(5u8), det_cell(6u8), det_cell(2u8),
        det_cell(8u8), det_cell(2u8), det_cell(6u8), det_cell(1u8), det_cell(9u8), det_cell(5u8),
        det_cell(3u8), det_cell(4u8), det_cell(7u8),
        det_cell(3u8), det_cell(7u8), det_cell(4u8), det_cell(6u8), det_cell(8u8), det_cell(2u8),
        det_cell(9u8), det_cell(1u8), det_cell(5u8),
        det_cell(9u8), det_cell(5u8), det_cell(1u8), det_cell(7u8), det_cell(4u8), det_cell(3u8),
        det_cell(6u8), det_cell(2u8), det_cell(8u8),
        det_cell(5u8), det_cell(1u8), det_cell(9u8), det_cell(3u8), det_cell(2u8), det_cell(6u8),
        det_cell(8u8), det_cell(7u8), det_cell(4u8),
        det_cell(2u8), det_cell(4u8), det_cell(8u8), det_cell(9u8), det_cell(5u8), det_cell(7u8),
        det_cell(1u8), det_cell(3u8), det_cell(6u8),
        det_cell(7u8), det_cell(6u8), det_cell(3u8), det_cell(4u8), det_cell(1u8), det_cell(8u8),
        det_cell(2u8), det_cell(5u8), det_cell(9u8),
    ]
}

/// The reference board as a grid, every cell determined.
#[verifier::rlimit(100)]
pub fn filled_sudoku() -> (g: Grid)
    ensures
        g.wf(),
        g@ == sample_board(),
{
    let mut v: Vec<Cell> = Vec::new();
    v.push(Cell::new_with_value(4));
    v.push(Cell::new_with_value(3));
    v.push(Cell::new_with_value(5));
    v.push(Cell::new_with_value(2));
    v.push(Cell::new_with_value(6));
    v.push(Cell::new_with_value(9));
    v.push(Cell::new_with_value(7));
    v.push(Cell::new_with_value(8));
    v.push(Cell::new_with_value(1));
    v.push(Cell::new_with_value(6));
    v.push(Cell::new_with_value(8));
    v.push(Cell::new_with_value(2));
    v.push(Cell::new_with_value(5));
    v.push(Cell::new_with_value(7));
    v.push(Cell::new_with_value(1));
    v.push(Cell::new_with_value(4));
    v.push(Cell::new_with_value(9));
    v.push(Cell::new_with_value(3));
    v.push(Cell::new_with_value(1));
    v.push(Cell::new_with_value(9));
    v.push(Cell::new_with_value(7));
    v.push(Cell::new_with_value(8));
    v.push(Cell::new_with_value(3));
    v.push(Cell::new_with_value(4));
    v.push(Cell::new_with_value(5));
    v.push(Cell::new_with_value(6));
    v.push(Cell::new_with_value(2));
    v.push(Cell::new_with_value(8));
    v.push(Cell::new_with_value(2));
    v.push(Cell::new_with_value(6));
    v.push(Cell::new_with_value(1));
    v.push(Cell::new_with_value(9));
    v.push(Cell::new_with_value(5));
    v.push(Cell::new_with_value(3));
    v.push(Cell::new_with_value(4));
    v.push(Cell::new_with_value(7));
    v.push(Cell::new_with_value(3));
    v.push(Cell::new_with_value(7));
    v.push(Cell::new_with_value(4));
    v.push(Cell::new_with_value(6));
    v.push(Cell::new_with_value(8));
    v.push(Cell::new_with_value(2));
    v.push(Cell::new_with_value(9));
    v.push(Cell::new_with_value(1));
    v.push(Cell::new_with_value(5));
    v.push(Cell::new_with_value(9));
    v.push(Cell::new_with_value(5));
    v.push(Cell::new_with_value(1));
    v.push(Cell::new_with_value(7));
    v.push(Cell::new_with_value(4));
    v.push(Cell::new_with_value(3));
    v.push(Cell::new_with_value(6));
    v.push(Cell::new_with_value(2));
    v.push(Cell::new_with_value(8));
    v.push(Cell::new_with_value(5));
    v.push(Cell::new_with_value(1));
    v.push(Cell::new_with_value(9));
    v.push(Cell::new_with_value(3));
    v.push(Cell::new_with_value(2));
    v.push(Cell::new_with_value(6));
    v.push(Cell::new_with_value(8));
    v.push(Cell::new_with_value(7));
    v.push(Cell::new_with_value(4));
    v.push(Cell::new_with_value(2));
    v.push(Cell::new_with_value(4));
    v.push(Cell::new_with_value(8));
    v.push(Cell::new_with_value(9));
    v.push(Cell::new_with_value(5));
    v.push(Cell::new_with_value(7));
    v.push(Cell::new_with_value(1));
    v.push(Cell::new_with_value(3));
    v.push(Cell::new_with_value(6));
    v.push(Cell::new_with_value(7));
    v.push(Cell::new_with_value(6));
    v.push(Cell::new_with_value(3));
    v.push(Cell::new_with_value(4));
    v.push(Cell::new_with_value(1));
    v.push(Cell::new_with_value(8));
    v.push(Cell::new_with_value(2));
    v.push(Cell::new_with_value(5));
    v.push(Cell::new_with_value(9));
    proof {
        assert(v@ =~= sample_board());
    }
    Grid::from_vec(v)
}

/// The fixed reference board is a solved grid: fully determined, well
/// formed, and valid in every row, column and square.
#[verifier::rlimit(100)]
pub proof fn lemma_sample_board_solved()
    ensures
        crate::model::solved_grid(sample_board()),
{
    let g = sample_board();
    let vals = crate::model::values_of(g);
    assert forall|i: int| 0 <= i < 81 implies (#[trigger] g[i]).is_det() && g[i].wf() by {}
    assert forall|i: int| 0 <= i < 81 implies 1 <= #[trigger] vals[i] <= 9 by {}
    assert forall|t: int, n: int|
        0 <= t < 3 && 0 <= n < 9 implies #[trigger] crate::model::house_distinct(
        vals,
        t,
        n,
    ) by {
        assert forall|j: int, k: int|
            0 <= j < 9 && 0 <= k < 9 && j != k implies #[trigger] vals[house_index(t, n, j)]
            != #[trigger] vals[house_index(t, n, k)] by {
            crate::model::lemma_house_bounds(t, n, j);
            crate::model::lemma_house_bounds(t, n, k);
        }
    }
    assert forall|t: int, n: int, v: int|
        0 <= t < 3 && 0 <= n < 9 && 1 <= v <= 9 implies #[trigger] crate::model::house_contains(
        vals,
        t,
        n,
        v,
    ) by {
        crate::model::lemma_distinct_house_contains(vals, t, n);
    }
}

/// Reset every cell holding `value` to an undetermined cell whose only
/// remaining candidate is that same value.
pub fn remove_number(grid: &mut Grid, value: u8)
    requires
        old(grid).wf(),
    ensures
        final(grid).wf(),
        forall|i: int|
            0 <= i < 81 ==> #[trigger] final(grid)@[i] == (if old(grid)@[i].is_det() && old(
                grid,
            )@[i].value == value {
                singleton_cell(value)
            } else {
                old(grid)@[i]
            }),
{
    let ghost g0 = old(grid)@;
    for index in 0..81usize
        invariant
            grid.wf(),
            g0 == old(grid)@,
            crate::model::grid_wf(g0),
            forall|i: int|
                0 <= i < index ==> #[trigger] grid@[i] == (if g0[i].is_det() && g0[i].value
                    == value {
                    singleton_cell(value)
                } else {
                    g0[i]
                }),
            forall|i: int| index <= i < 81 ==> #[trigger] grid@[i] == g0[i],
    {
        let cell = grid.get_cell(index);
        if cell.is_determined() && cell.value == value {
            let mut replacement = Cell::new_empty();
            replacement.set_possible(Mark::from_value(value));
            proof {
                lemma_mask_single(value as int);
                assert forall|k: int|
                    1 <= k <= 9 implies (crate::possibility::mask_has(
                    replacement.possibilities.bits,
                    k,
                ) <==> crate::possibility::mask_has(singleton_cell(value).possibilities.bits, k))
                    by {
                    assert(replacement.has(k) <==> k == value as int);
                }
                crate::possibility::lemma_mask_ext(
                    replacement.possibilities.bits,
                    singleton_cell(value).possibilities.bits,
                );
                assert(replacement == singleton_cell(value));
            }
            grid.set_cell(index, &replacement);
            proof {
                assert forall|i: int| 0 <= i < 81 implies (#[trigger] grid@[i]).wf() by {
                    if i != index {
                        assert(grid@[i] == old(grid)@[i] || grid@[i] == singleton_cell(value));
                    }
                }
            }
        }
    }
}

/// The number of determined cells among the first `i` of the grid.
pub open spec fn det_below(g: Seq<Cell>, i: int) -> nat
    decreases i,
{
    if i <= 0 {
        0
    } else {
        det_below(g, i - 1) + (if g[i - 1].is_det() {
            1nat
        } else {
            0nat
        })
    }
}

/// Relies on rand::Rng::gen_range over `0..n`: a uniformly drawn value
/// below `n` (the call panics when the range is empty).
#[verifier::external_body]
fn random_below(n: usize) -> (r: usize)
    requires
        n > 0,
    ensures
        r < n,
{
    rand::thread_rng().gen_range(0..n)
}

/// Count the determined cells.
fn count_determined(grid: &Grid) -> (c: usize)
    requires
        grid.wf(),
    ensures
        c == det_below(grid@, 81),
        c <= 81,
{
    let mut c: usize = 0;
    for i in 0..81usize
        invariant
            grid.wf(),
            c == det_below(grid@, i as int),
            c <= i,
    {
        if grid.get_cell(i).is_determined() {
            c = c + 1;
        }
    }
    c
}

proof fn lemma_det_below_update(g: Seq<Cell>, g2: Seq<Cell>, idx: int, i: int)
    requires
        g.len() == 81,
        0 <= idx < 81,
        g[idx].is_det(),
        g2 == g.update(idx, full_cell()),
        0 <= i <= 81,
    ensures
        det_below(g2, i) == det_below(g, i) - (if idx < i {
            1int
        } else {
            0int
        }),
    decreases i,
{
    if i > 0 {
        lemma_det_below_update(g, g2, idx, i - 1);
    }
}

/// Clear the `r`-th determined cell (in index order) back to fully
/// possible.
fn clear_nth_determined(grid: &mut Grid, r: usize)
    requires
        old(grid).wf(),
        r < det_below(old(grid)@, 81),
    ensures
        final(grid).wf(),
        exists|idx: int|
            0 <= idx < 81 && old(grid)@[idx].is_det() && final(grid)@ == old(grid)@.update(
                idx,
                full_cell(),
            ),
        det_below(final(grid)@, 81) == det_below(old(grid)@, 81) - 1,
{
    let mut seen: usize = 0;
    for idx in 0..81usize
        invariant
            grid.wf(),
            grid@ == old(grid)@,
            r < det_below(grid@, 81),
            seen == det_below(grid@, idx as int),
            seen <= r,
    {
        let cell = grid.get_cell(idx);
        if cell.is_determined() {
            if seen == r {
                grid.set_cell(idx, &Cell::new());
                proof {
                    let g0 = old(grid)@;
                    assert(grid@ == g0.update(idx as int, full_cell()));
                    lemma_det_below_update(g0, grid@, idx as int, 81);
                    assert forall|i: int| 0 <= i < 81 implies (#[trigger] grid@[i]).wf() by {
                        if i != idx {
                            assert(grid@[i] == g0[i]);
                        }
                    }
                }
                return ;
            }
            seen = seen + 1;
        }
    }
    proof {
        assert(seen == det_below(grid@, 81));
        assert(false);
    }
}

/// Clear `amount` randomly chosen determined cells back to fully
/// possible.
pub fn remove_cells_amount(grid: &mut Grid, amount: usize)
    requires
        old(grid).wf(),
        amount <= det_below(old(grid)@, 81),
    ensures
        final(grid).wf(),
        det_below(final(grid)@, 81) == det_below(old(grid)@, 81) - amount,
        forall|i: int|
            0 <= i < 81 ==> (#[trigger] final(grid)@[i] == old(grid)@[i] || (old(
                grid,
            )@[i].is_det() && final(grid)@[i] == full_cell())),
{
    let ghost g0 = old(grid)@;
    let mut removed: usize = 0;
    while removed < amount
        invariant
            grid.wf(),
            g0 == old(grid)@,
            crate::model::grid_wf(g0),
            removed <= amount,
            amount <= det_below(g0, 81),
            det_below(grid@, 81) == det_below(g0, 81) - removed,
            forall|i: int|
                0 <= i < 81 ==> (#[trigger] grid@[i] == g0[i] || (g0[i].is_det() && grid@[i]
                    == full_cell())),
        decreases amount - removed,
    {
        let remaining = count_determined(grid);
        let r = random_below(remaining);
        let ghost gpre = grid@;
        clear_nth_determined(grid, r);
        removed = removed + 1;
        proof {
            let idx = choose|idx: int|
                0 <= idx < 81 && gpre[idx].is_det() && grid@ == gpre.update(idx, full_cell());
            assert forall|i: int|
                0 <= i < 81 implies (#[trigger] grid@[i] == g0[i] || (g0[i].is_det() && grid@[i]
                == full_cell())) by {
                if i != idx {
                    assert(grid@[i] == gpre[i]);
                } else {
                    assert(gpre[idx].is_det());
                    assert(gpre[idx] == g0[idx] || gpre[idx] == full_cell());
                }
            }
        }
    }
}

/// Clear a random number of cells (at least half the board) from a fully
/// determined grid.
pub fn remove_cells(grid: &mut Grid)
    requires
        old(grid).wf(),
        det_below(old(grid)@, 81) == 81,
    ensures
        final(grid).wf(),
        1 <= det_below(final(grid)@, 81) <= 41,
        forall|i: int|
            0 <= i < 81 ==> (#[trigger] final(grid)@[i] == old(grid)@[i] || (old(
                grid,
            )@[i].is_det() && final(grid)@[i] == full_cell())),
{
    let amount = 40 + random_below(41);
    remove_cells_amount(grid, amount);
}

} // verus!
