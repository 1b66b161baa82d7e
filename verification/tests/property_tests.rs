use sudoku::boards::{filled_sudoku, remove_cells, remove_cells_amount, remove_number};
use sudoku::cell::Cell;
use sudoku::coords::Coord;
use sudoku::determined_solver::DeterminedSolver;
use sudoku::grid::Grid;
use sudoku::mark::Mark;
use sudoku::mark_occupy::MarkOccupy;
use sudoku::solver::{SolveResult, SolverManager};

fn grids_equal(a: &Grid, b: &Grid) -> bool {
    for index in 0..81 {
        if a.get_cell(index) != b.get_cell(index) {
            return false;
        }
    }
    true
}

#[test]
fn test_saturated_grid_is_fixed_point() {
    // A fully determined grid is already at a fixed point: every strategy
    // and the orchestrator report no change and leave it identical.
    let grid = filled_sudoku();

    let ds = DeterminedSolver::new().solve(grid.clone());
    assert_eq!(ds.result, SolveResult::NoChange);
    assert!(grids_equal(&ds.grid, &grid));

    let mut mo_grid = grid.clone();
    let mo = MarkOccupy::solve(&mut mo_grid);
    assert_eq!(mo, SolveResult::NoChange);
    assert!(grids_equal(&mo_grid, &grid));

    let manager = SolverManager::new();
    let res = manager.solve(grid.clone());
    assert_eq!(res.result, SolveResult::NoChange);
    assert!(grids_equal(&res.grid, &grid));
}

#[test]
fn test_orchestrator_reaches_fixed_point() {
    // Running the orchestrator on its own output reports no change.
    let mut grid = filled_sudoku();
    remove_number(&mut grid, 9);
    let manager = SolverManager::new();
    let first = manager.solve(grid);
    let second = manager.solve(first.grid.clone());
    assert_eq!(second.result, SolveResult::NoChange);
    assert!(grids_equal(&second.grid, &first.grid));
}

#[test]
fn test_strategies_are_monotonic() {
    // No strategy ever adds a candidate back: every mark possible after a
    // pass was possible before it.
    let mut grid = Grid::new();
    // Give the grid some structure first.
    grid.set_cell_at(Coord::new(4, 1), Cell::new_with_value(9));
    for c in 3..9 {
        grid.unset_possible_at(Coord::new(0, c), Mark::N5);
    }
    let before = grid.clone();

    let mut mo_grid = grid.clone();
    MarkOccupy::solve(&mut mo_grid);
    let ds = DeterminedSolver::new().solve(grid.clone());

    for index in 0..81 {
        let b = before.get_cell(index);
        for v in 1..10u8 {
            let mark = Mark::from_value(v);
            if mo_grid.get_cell(index).is_possible(mark) {
                assert!(b.is_possible(mark));
            }
            if ds.grid.get_cell(index).is_possible(mark) {
                assert!(b.is_possible(mark));
            }
        }
    }
}

#[test]
fn test_naked_single_restores_value() {
    // A solved grid with one cell reduced to a singleton possibility set
    // is restored by one naked-single pass.
    for index in [0usize, 13, 40, 64, 80] {
        let mut grid = filled_sudoku();
        let coord = grid.get_coord(index);
        let cell = grid.get_cell_at(coord);
        let value = cell.value().expect("reference board is solved");
        let mut replacement = Cell::new_empty();
        replacement.set_possible(Mark::from_value(value));
        grid.set_cell_at(coord, replacement);

        let result = DeterminedSolver::new().solve(grid);
        assert_eq!(result.result, SolveResult::Updated);
        assert_eq!(result.grid.get_cell_at(coord), cell);
    }
}

#[test]
fn test_single_digit_cleared_to_full_is_resolved() {
    // The reference grid with every cell of one digit cleared to fully
    // possible is re-solved by the naked-single strategy alone.
    for digit in 1..10u8 {
        let solved = filled_sudoku();
        let mut grid = solved.clone();
        for index in 0..81 {
            if grid.get_cell(index).value() == Some(digit) {
                grid.set_cell(index, &Cell::new());
            }
        }
        let result = DeterminedSolver::new().solve(grid);
        assert_eq!(result.result, SolveResult::Updated);
        assert!(grids_equal(&result.grid, &solved));
    }
}

#[test]
fn test_locked_candidate_clears_band() {
    // Mark 9 is possible in row 0 only within the first square, so the
    // occupy strategy removes it from the first square's cells of rows 1
    // and 2.
    let mut grid = Grid::new();
    for c in 3..9 {
        grid.unset_possible_at(Coord::new(0, c), Mark::N9);
    }
    let result = MarkOccupy::solve(&mut grid);
    assert_eq!(result, SolveResult::Updated);
    for r in 1..3 {
        for c in 0..3 {
            assert!(
                !grid.get_cell_at(Coord::new(r, c)).is_possible(Mark::N9),
                "mark 9 should be gone at ({}, {})",
                r,
                c
            );
        }
    }
    // The check row itself keeps its candidates.
    for c in 0..3 {
        assert!(grid.get_cell_at(Coord::new(0, c)).is_possible(Mark::N9));
    }
}

#[test]
fn test_locked_candidate_clears_column_band() {
    // Mark 9 is possible in column 0 only within the top square, so the
    // occupy strategy removes it from the top square's cells of columns
    // 1 and 2.
    let mut grid = Grid::new();
    for r in 3..9 {
        grid.unset_possible_at(Coord::new(r, 0), Mark::N9);
    }
    let result = MarkOccupy::solve(&mut grid);
    assert_eq!(result, SolveResult::Updated);
    for r in 0..3 {
        for c in 1..3 {
            assert!(
                !grid.get_cell_at(Coord::new(r, c)).is_possible(Mark::N9),
                "mark 9 should be gone at ({}, {})",
                r,
                c
            );
        }
    }
    // The check column itself keeps its candidates.
    for r in 0..3 {
        assert!(grid.get_cell_at(Coord::new(r, 0)).is_possible(Mark::N9));
    }
}

#[test]
fn test_cleared_nines_come_back_unchanged() {
    // A solved board with every 9-cell reset to fully possible: after the
    // orchestrator runs to its fixed point, each of those cells is
    // determined to 9 again and no other cell's value changed.
    let solved = filled_sudoku();
    let mut grid = solved.clone();
    let mut cleared = Vec::new();
    for index in 0..81 {
        if grid.get_cell(index).value() == Some(9) {
            grid.set_cell(index, &Cell::new());
            cleared.push(index);
        }
    }
    assert_eq!(cleared.len(), 9);

    let res = SolverManager::new().solve(grid);
    assert_eq!(res.result, SolveResult::Updated);
    for index in 0..81 {
        let cell = res.grid.get_cell(index);
        let expected = solved.get_cell(index);
        assert!(cell.is_determined());
        assert_eq!(cell.value(), expected.value());
    }
}

#[test]
fn test_remove_cells_amount_removes_exactly() {
    let mut grid = filled_sudoku();
    remove_cells_amount(&mut grid, 40);
    let mut determined = 0;
    for index in grid.iter() {
        if grid.get_cell(index).is_determined() {
            determined += 1;
        }
    }
    assert_eq!(determined, 41);
}

#[test]
fn test_remove_cells_leaves_at_most_half() {
    let mut grid = filled_sudoku();
    remove_cells(&mut grid);
    let mut determined = 0;
    for index in grid.iter() {
        if grid.get_cell(index).is_determined() {
            determined += 1;
        }
    }
    assert!(determined >= 1 && determined <= 41);
}
