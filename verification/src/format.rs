use vstd::prelude::*;
use vstd::string::{StrSliceExecFns, StringExecFns};

use crate::cell::Cell;
use crate::grid::Grid;
use crate::model::{det_cell, full_cell};

verus! {

/// What one character of a board text stands for: an empty cell (0), a
/// given digit (1..=9), or layout to be skipped.
pub open spec fn token_of(c: char) -> Option<u8> {
    if c == '.' || c == '0' {
        Some(0u8)
    } else if c == '1' {
        Some(1u8)
    } else if c == '2' {
        Some(2u8)
    } else if c == '3' {
        Some(3u8)
    } else if c == '4' {
        Some(4u8)
    } else if c == '5' {
        Some(5u8)
    } else if c == '6' {
        Some(6u8)
    } else if c == '7' {
        Some(7u8)
    } else if c == '8' {
        Some(8u8)
    } else if c == '9' {
        Some(9u8)
    } else {
        None
    }
}

/// The cell a token stands for.
pub open spec fn cell_of_token(v: u8) -> Cell {
    if v == 0 {
        full_cell()
    } else {
        det_cell(v)
    }
}

/// The sequence of cell tokens in `s` from position `i` on, layout
/// characters skipped.
pub open spec fn tokens_from(s: Seq<char>, i: int) -> Seq<u8>
    decreases s.len() - i,
{
    if i < 0 || i >= s.len() {
        Seq::empty()
    } else {
        match token_of(s[i]) {
            Some(v) => seq![v] + tokens_from(s, i + 1),
            None => tokens_from(s, i + 1),
        }
    }
}

/// All cell tokens of a board text, in reading order.
pub open spec fn tokens(s: Seq<char>) -> Seq<u8> {
    tokens_from(s, 0)
}

/// Parse a board text: `.` or `0` is an empty cell, a digit a given, and
/// every other character (spaces, pipes, separator lines, newlines) is
/// skipped.  Cells fill the grid in row-major order; unmentioned trailing
/// cells stay empty.
pub fn parse_from_ascii(ascii: &str) -> (g: Grid)
    requires
        tokens(ascii@).len() <= 81,
    ensures
        g.wf(),
        forall|i: int|
            0 <= i < tokens(ascii@).len() ==> #[trigger] g@[i] == cell_of_token(tokens(ascii@)[i]),
        forall|i: int| tokens(ascii@).len() <= i < 81 ==> #[trigger] g@[i] == full_cell(),
{
    let mut grid = Grid::new();
    let mut index: usize = 0;
    let n = ascii.unicode_len();
    let ghost s = ascii@;
    let ghost mut done: Seq<u8> = Seq::empty();
    let mut i: usize = 0;
    proof {
        assert(done + tokens_from(s, 0) =~= tokens(s));
    }
    while i < n
        invariant
            grid.wf(),
            s == ascii@,
            n == s.len(),
            i <= n,
            tokens(s).len() <= 81,
            done.len() == index,
            done + tokens_from(s, i as int) == tokens(s),
            forall|j: int| 0 <= j < index ==> #[trigger] grid@[j] == cell_of_token(done[j]),
            forall|j: int| index <= j < 81 ==> #[trigger] grid@[j] == full_cell(),
        decreases n - i,
    {
        let c = ascii.get_char(i);
        let tok: Option<u8> = if c == '.' || c == '0' {
            Some(0)
        } else if c == '1' {
            Some(1)
        } else if c == '2' {
            Some(2)
        } else if c == '3' {
            Some(3)
        } else if c == '4' {
            Some(4)
        } else if c == '5' {
            Some(5)
        } else if c == '6' {
            Some(6)
        } else if c == '7' {
            Some(7)
        } else if c == '8' {
            Some(8)
        } else if c == '9' {
            Some(9)
        } else {
            None
        };
        proof {
            assert(tok == token_of(s[i as int]));
        }
        match tok {
            Some(v) => {
                proof {
                    assert(tokens_from(s, i as int) == seq![v] + tokens_from(s, i as int + 1));
                    assert(done + tokens_from(s, i as int) == tokens(s));
                    assert((done + (seq![v] + tokens_from(s, i as int + 1))) =~= ((done.push(v))
                        + tokens_from(s, i as int + 1)));
                    // The written prefix stays within the board.
                    assert(tokens(s).len() == done.len() + 1 + tokens_from(s, i as int + 1).len());
                }
                let cell = if v == 0 {
                    Cell::new()
                } else {
                    Cell::new_with_value(v)
                };
                proof {
                    assert(cell == cell_of_token(v));
                }
                let ghost gpre = grid@;
                grid.set_cell(index, &cell);
                index = index + 1;
                proof {
                    done = done.push(v);
                    assert forall|j: int| 0 <= j < 81 implies (#[trigger] grid@[j]).wf() by {
                        if j != index - 1 {
                            assert(grid@[j] == gpre[j]);
                        }
                    }
                }
            },
            None => {
                proof {
                    assert(tokens_from(s, i as int) == tokens_from(s, i as int + 1));
                }
            },
        }
        i = i + 1;
    }
    proof {
        assert(tokens_from(s, n as int) =~= Seq::<u8>::empty());
        assert(done + tokens_from(s, n as int) =~= done);
        assert(done =~= tokens(s));
    }
    grid
}

/// One cell as it is printed: its digit for a determined cell, a dot
/// otherwise, each followed by a space.
pub open spec fn cell_chars(c: Cell) -> Seq<char> {
    if !c.is_det() {
        ". "@
    } else if c.value == 1 {
        "1 "@
    } else if c.value == 2 {
        "2 "@
    } else if c.value == 3 {
        "3 "@
    } else if c.value == 4 {
        "4 "@
    } else if c.value == 5 {
        "5 "@
    } else if c.value == 6 {
        "6 "@
    } else if c.value == 7 {
        "7 "@
    } else if c.value == 8 {
        "8 "@
    } else {
        "9 "@
    }
}

/// The band separator line.
pub open spec fn sep_chars() -> Seq<char> {
    "------|-------|------\n"@
}

/// One printed row from column `col` on: cells, `| ` after columns 2 and
/// 5, and the final newline.
pub open spec fn row_chars_from(g: Seq<Cell>, row: int, col: int) -> Seq<char>
    decreases 9 - col,
{
    if col < 0 || col >= 9 {
        "\n"@
    } else {
        cell_chars(g[row * 9 + col]) + (if col == 2 || col == 5 {
            "| "@
        } else {
            Seq::empty()
        }) + row_chars_from(g, row, col + 1)
    }
}

/// The printed board from row `row` on, with separator lines after rows
/// 2 and 5.
pub open spec fn grid_chars_from(g: Seq<Cell>, row: int) -> Seq<char>
    decreases 9 - row,
{
    if row < 0 || row >= 9 {
        Seq::empty()
    } else {
        row_chars_from(g, row, 0) + (if row == 2 || row == 5 {
            sep_chars()
        } else {
            Seq::empty()
        }) + grid_chars_from(g, row + 1)
    }
}

/// Render the grid as its debugging text: digits and dots in nine rows,
/// with pipe separators after columns 2 and 5 and separator lines after
/// rows 2 and 5.
pub fn ascii_grid(grid: &Grid) -> (out: String)
    requires
        grid.wf(),
    ensures
        out@ == grid_chars_from(grid@, 0),
{
    let mut result = String::new();
    let ghost g = grid@;
    for row in 0..9usize
        invariant
            grid.wf(),
            g == grid@,
            result@ + grid_chars_from(g, row as int) == grid_chars_from(g, 0),
    {
        let ghost row_start = result@;
        for col in 0..9usize
            invariant
                grid.wf(),
                g == grid@,
                row < 9,
                row_start + grid_chars_from(g, row as int) == grid_chars_from(g, 0),
                result@ + row_chars_from(g, row as int, col as int) == row_start + row_chars_from(
                    g,
                    row as int,
                    0,
                ),
        {
            let coord = crate::coords::Coord::new(row, col);
            let cell = grid.get_cell_at(coord);
            proof {
                assert(cell == g[row as int * 9 + col as int]);
            }
            match cell.value() {
                Some(v) => {
                    if v == 1 {
                        result.append("1 ");
                    } else if v == 2 {
                        result.append("2 ");
                    } else if v == 3 {
                        result.append("3 ");
                    } else if v == 4 {
                        result.append("4 ");
                    } else if v == 5 {
                        result.append("5 ");
                    } else if v == 6 {
                        result.append("6 ");
                    } else if v == 7 {
                        result.append("7 ");
                    } else if v == 8 {
                        result.append("8 ");
                    } else {
                        result.append("9 ");
                    }
                },
                None => {
                    result.append(". ");
                },
            }
            if col == 2 || col == 5 {
                result.append("| ");
            }
            proof {
                assert(row_chars_from(g, row as int, col as int) == cell_chars(
                    g[row as int * 9 + col as int],
                ) + (if col == 2 || col == 5 {
                    "| "@
                } else {
                    Seq::<char>::empty()
                }) + row_chars_from(g, row as int, col as int + 1));
                assert(result@ + row_chars_from(g, row as int, col as int + 1) =~= row_start
                    + row_chars_from(g, row as int, 0));
            }
        }
        result.append("\n");
        if row == 2 || row == 5 {
            result.append("------|-------|------\n");
        }
        proof {
            assert(row_chars_from(g, row as int, 9) == "\n"@);
            assert(grid_chars_from(g, row as int) == row_chars_from(g, row as int, 0) + (if row
                == 2 || row == 5 {
                sep_chars()
            } else {
                Seq::<char>::empty()
            }) + grid_chars_from(g, row as int + 1));
            assert(result@ + grid_chars_from(g, row as int + 1) =~= grid_chars_from(g, 0));
        }
    }
    proof {
        assert(grid_chars_from(g, 9) =~= Seq::<char>::empty());
        assert(result@ + grid_chars_from(g, 9) =~= result@);
    }
    result
}

} // verus!
