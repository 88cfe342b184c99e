//! The text form of a board: one row per line, one cell per character.

use vstd::prelude::*;
use crate::grid::{Cell, Grid};
use crate::string::{chars_of, lines_of, rows_of, split_lines};
use crate::torus::{index, is_state, lemma_index_in_range, CELLS, SIDE};

verus! {

/// The state that a character stands for: a space or a full stop is a dead cell, any
/// other character a living one.
pub open spec fn state_of(c: char) -> int {
    if c == ' ' || c == '.' {
        0
    } else {
        1
    }
}

/// The board after the first `upto` characters of `line` have been written to row `y`,
/// each at the column of its position. A line longer than the board wraps around.
pub open spec fn with_line(board: Seq<int>, line: Seq<char>, y: int, upto: int) -> Seq<int>
    decreases upto,
{
    if upto <= 0 {
        board
    } else {
        with_line(board, line, y, upto - 1).update(index(upto - 1, y), state_of(line[upto - 1]))
    }
}

/// The board after the first `upto` of `lines` have been written, each to the row of its
/// number. More lines than the board has rows wrap around.
pub open spec fn with_lines(board: Seq<int>, lines: Seq<Seq<char>>, upto: int) -> Seq<int>
    decreases upto,
{
    if upto <= 0 {
        board
    } else {
        with_line(
            with_lines(board, lines, upto - 1),
            lines[upto - 1],
            upto - 1,
            lines[upto - 1].len() as int,
        )
    }
}

/// The board that `text` describes: every cell is dead but those that the text sets.
pub open spec fn board_of(text: Seq<char>) -> Seq<int> {
    with_lines(Seq::new(CELLS as nat, |i: int| 0int), lines_of(text), lines_of(text).len() as int)
}

impl Grid {
    /// Reads a board from its text form: see [`board_of`].
    pub fn parse(text: &str) -> (grid: Grid)
        ensures
            grid@ == board_of(text@),
            is_state(grid@),
    {
        let lines = split_lines(&chars_of(text));
        let mut grid = Grid::default();
        let ghost rows = lines_of(text@);
        let mut y: usize = 0;
        while y < lines.len()
            invariant
                y <= lines.len(),
                rows == rows_of(lines@),
                is_state(grid@),
                grid@ == with_lines(Seq::new(CELLS as nat, |i: int| 0int), rows, y as int),
            decreases lines.len() - y,
        {
            let line = &lines[y];
            let ghost above = grid@;
            let mut x: usize = 0;
            proof {
                assert(rows[y as int] == line@);
            }
            while x < line.len()
                invariant
                    x <= line.len(),
                    is_state(grid@),
                    grid@ == with_line(above, line@, y as int, x as int),
                decreases line.len() - x,
            {
                let c = line[x];
                let value: i32 = if c == ' ' || c == '.' {
                    0
                } else {
                    1
                };
                let column = (x % SIDE) as i32;
                let row = (y % SIDE) as i32;
                proof {
                    lemma_index_in_range(x as int, y as int);
                    assert(index(column as int, row as int) == index(x as int, y as int));
                }
                grid.set(column, row, Cell { value });
                x = x + 1;
            }
            y = y + 1;
        }
        grid
    }
}

} // verus!
