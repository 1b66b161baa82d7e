use sudoku::boards::{filled_sudoku, remove_number};
use sudoku::cell::Cell;
use sudoku::coords::Coord;
use sudoku::determined_solver::DeterminedSolver;
use sudoku::format::{ascii_grid, parse_from_ascii};
use sudoku::mark::Mark;
use sudoku::possibility::Possibility;
use sudoku::solver::{SolveResult, SolverManager};

#[test]
fn test_can_solve() {
    let grid = &mut filled_sudoku();

    let index = 64;
    let coord = grid.get_coord(index);

    let cell = grid.get_cell_at(coord);
    let mut new_cell;

    if let Some(value) = cell.value() {
        new_cell = Cell::new_empty();
        new_cell.set_possible(Mark::from_value(value));
    } else {
        panic!("Cell should be determined");
    }

    grid.set_cell_at(coord, new_cell);

    let solver = DeterminedSolver::new();
    let output = solver.solve(grid.clone());

    assert_eq!(output.result, SolveResult::Updated);

    let check_cell = output.grid.get_cell_at(coord);

    assert_eq!(check_cell, cell);
}

#[test]
fn test_single_missing_number() {
    let mut grid = filled_sudoku();

    remove_number(&mut grid, 5);

    println!("{}", ascii_grid(&grid));
    let solver = DeterminedSolver::new();
    let result = solver.solve(grid);

    assert_eq!(result.result, SolveResult::Updated);

    // Check that all cells with value 5 are determined
    for index in result.grid.iter() {
        let cell = result.grid.get_cell(index);

        assert!(cell.is_determined(), "Cell at {} is not determined", index)
    }
}

#[test]
fn test_double_missing_number() {
    let mut grid = filled_sudoku();

    remove_number(&mut grid, 5);
    remove_number(&mut grid, 1);

    println!("{}", ascii_grid(&grid));

    let result = DeterminedSolver::new().solve(grid);

    println!("{}", ascii_grid(&result.grid));

    assert_eq!(result.result, SolveResult::Updated);

    // Check that all cells with value 5 are determined
    for index in result.grid.iter() {
        let cell = result.grid.get_cell(index);

        assert!(cell.is_determined(), "Cell at {} is not determined", index)
    }
}

#[test]
fn test_only_1_possible() {
    let mut grid = filled_sudoku();

    for i in 0..10 {
        remove_number(&mut grid, i);
    }

    println!("{}", ascii_grid(&grid));
    let result = DeterminedSolver::new().solve(grid);

    println!("{}", ascii_grid(&result.grid));
    assert_eq!(result.result, SolveResult::Updated);

    // Check that all cells with value 5 are determined
    for index in result.grid.iter() {
        let cell = result.grid.get_cell(index);

        assert!(cell.is_determined(), "Cell at {} is not determined", index)
    }
}

#[test]
fn test_possible_when_only_1_item_is_set() {
    let grid = parse_from_ascii(
        ". . . | . . . | . . .\n\
         . . . | . . . | . . .\n\
         . . . | . . . | . . .\n\
         ------|-------|------\n\
         . . . | . . . | . . .\n\
         . 9 . | . . . | . . .\n\
         . . . | . . . | . . .\n\
         ------|-------|------\n\
         . . . | . . . | . . .\n\
         . . . | . . . | . . .\n\
         . . . | . . . | . . .",
    );

    let solver = SolverManager::new();
    let result = solver.solve(grid).grid;

    let mut pos = Possibility::new();
    pos.unset_possible(Mark::N9);

    // Col 2 should have no possible 9
    for r in 0..9 {
        let c = Coord::new(r, 1);
        let cell = result.get_cell_at(c);
        if cell.is_determined() {
            continue;
        }

        assert_eq!(
            cell.possibilities,
            pos,
            "Cell at {} should have no possible 9",
            c.get_index()
        );
    }

    // Row 4 should have no possible 9
    for c in 0..9 {
        let c = Coord::new(4, c);
        let cell = result.get_cell_at(c);
        if cell.is_determined() {
            continue;
        }

        assert_eq!(
            cell.possibilities,
            pos,
            "Cell at {} should have no possible 9",
            c.get_index()
        );
    }

    // Square at (row 1, col 0) should have no possible 9
    for r in 0..3 {
        for c in 0..3 {
            let c = Coord::new(r + 3, c);
            let cell = result.get_cell_at(c);
            if cell.is_determined() {
                continue;
            }

            assert_eq!(
                cell.possibilities,
                pos,
                "Cell at {} should have no possible 9",
                c.get_index()
            );
        }
    }
}
