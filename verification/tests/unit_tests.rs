use sudoku::boards::filled_sudoku;
use sudoku::cell::Cell;
use sudoku::coords::Coord;
use sudoku::format::{ascii_grid, parse_from_ascii};
use sudoku::grid::Grid;
use sudoku::mark::Mark;
use sudoku::mark_occupy::{count, only_possible_in, unset_three};
use sudoku::possibility::Possibility;

#[test]
fn test_possibility_set_and_unset() {
    let mut pos = Possibility::new();
    for v in 1..10u8 {
        assert!(pos.is_possible(Mark::from_value(v)));
    }
    pos.unset_possible(Mark::N4);
    assert!(!pos.is_possible(Mark::N4));
    assert!(pos.is_possible(Mark::N5));
    pos.set_possible(Mark::N4);
    assert!(pos.is_possible(Mark::N4));
}

#[test]
fn test_only_possible_finds_singleton() {
    let mut pos = Possibility::new_empty();
    assert_eq!(pos.only_possible(), None);
    pos.set_possible(Mark::N7);
    assert_eq!(pos.only_possible(), Some(Mark::N7));
    pos.set_possible(Mark::N2);
    assert_eq!(pos.only_possible(), None);
}

#[test]
fn test_cell_states() {
    let empty = Cell::new();
    assert!(!empty.is_determined());
    assert_eq!(empty.value(), None);
    assert!(empty.is_possible(Mark::N1));

    let det = Cell::new_with_value(6);
    assert!(det.is_determined());
    assert_eq!(det.value(), Some(6));
    assert!(!det.is_possible(Mark::N6));

    let bare = Cell::new_empty();
    assert!(!bare.is_determined());
    assert!(!bare.is_possible(Mark::N1));
}

#[test]
fn test_count_and_only_possible_in() {
    let full = Cell::new();
    let det = Cell::new_with_value(3);
    let bare = Cell::new_empty();

    assert_eq!(count(Mark::N5, full, det, bare), 1);
    assert_eq!(count(Mark::N5, full, full, full), 3);
    assert_eq!(count(Mark::N5, det, det, bare), 0);

    assert_eq!(only_possible_in(Mark::N5, full, det, bare), Some(0));
    assert_eq!(only_possible_in(Mark::N5, det, full, bare), Some(1));
    assert_eq!(only_possible_in(Mark::N5, det, bare, full), Some(2));
    assert_eq!(only_possible_in(Mark::N5, full, full, bare), None);
    assert_eq!(only_possible_in(Mark::N5, det, bare, bare), None);
}

#[test]
fn test_unset_three_clears_marks() {
    let mut grid = Grid::new();
    let row = grid.get_row(2);
    let changed = unset_three(&mut grid, 3, &row, Mark::N8);
    assert!(changed);
    for c in 3..6 {
        assert!(!grid.get_cell_at(Coord::new(2, c)).is_possible(Mark::N8));
    }
    assert!(grid.get_cell_at(Coord::new(2, 0)).is_possible(Mark::N8));
    assert!(grid.get_cell_at(Coord::new(2, 6)).is_possible(Mark::N8));
    // Doing it again changes nothing.
    let again = unset_three(&mut grid, 3, &row, Mark::N8);
    assert!(!again);
}

#[test]
fn test_coord_and_grid_indexing() {
    let grid = filled_sudoku();
    assert_eq!(grid.max(), 81);
    let coord = Coord::new(7, 2);
    assert_eq!(coord.get_index(), 65);
    assert_eq!(grid.get_cell(65), grid.get_cell_at(coord));
    assert_eq!(grid.get_coord(65).row, 7);
    assert_eq!(grid.get_coord(65).col, 2);
}

#[test]
fn test_ascii_grid_renders_reference_board() {
    let grid = filled_sudoku();
    let expected = "4 3 5 | 2 6 9 | 7 8 1 \n\
                    6 8 2 | 5 7 1 | 4 9 3 \n\
                    1 9 7 | 8 3 4 | 5 6 2 \n\
                    ------|-------|------\n\
                    8 2 6 | 1 9 5 | 3 4 7 \n\
                    3 7 4 | 6 8 2 | 9 1 5 \n\
                    9 5 1 | 7 4 3 | 6 2 8 \n\
                    ------|-------|------\n\
                    5 1 9 | 3 2 6 | 8 7 4 \n\
                    2 4 8 | 9 5 7 | 1 3 6 \n\
                    7 6 3 | 4 1 8 | 2 5 9 \n";
    assert_eq!(ascii_grid(&grid), expected);
}

#[test]
fn test_parse_round_trip() {
    let grid = filled_sudoku();
    let text = ascii_grid(&grid);
    let parsed = parse_from_ascii(&text);
    for index in 0..81 {
        assert_eq!(parsed.get_cell(index), grid.get_cell(index));
    }
}

#[test]
fn test_parse_mixed_board() {
    let grid = parse_from_ascii("1 2 . | 0 5");
    assert_eq!(grid.get_cell(0).value(), Some(1));
    assert_eq!(grid.get_cell(1).value(), Some(2));
    assert_eq!(grid.get_cell(2).value(), None);
    assert_eq!(grid.get_cell(3).value(), None);
    assert_eq!(grid.get_cell(4).value(), Some(5));
    assert!(grid.get_cell(2).is_possible(Mark::N9));
    assert!(grid.get_cell(80).is_possible(Mark::N1));
}

#[test]
fn test_iter_possible_lists_marks() {
    let mut pos = Possibility::new_empty();
    assert_eq!(pos.iter_possible(), vec![]);
    pos.set_possible(Mark::N2);
    pos.set_possible(Mark::N7);
    pos.set_possible(Mark::N9);
    assert_eq!(pos.iter_possible(), vec![Mark::N2, Mark::N7, Mark::N9]);
    let full = Cell::new();
    assert_eq!(full.iter_possible().len(), 9);
    let det = Cell::new_with_value(4);
    assert_eq!(det.iter_possible(), vec![]);
}
