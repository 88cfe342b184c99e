//! Boards and guesses drawn as text in a frame.

use vstd::prelude::*;
use vstd::string::StringExecFns;
use crate::chain::{boards_of, Sequence};
use crate::grid::{cell_at, Grid};
use crate::guess::Guess;
use crate::propagation::Knowledge;
use crate::string::{decimal, digit, digit_char, push_decimal};
use crate::torus::{index, lemma_cell_of_index, CELLS, SIDE, SIZE};

verus! {

/// A number flush right in two columns.
pub open spec fn two_wide(n: nat) -> Seq<char> {
    if n < 10 {
        seq![' ', digit(n as int)]
    } else {
        decimal(n)
    }
}

/// `piece`, `n` times over.
pub open spec fn repeated(piece: Seq<char>, n: nat) -> Seq<char>
    decreases n,
{
    if n == 0 {
        Seq::empty()
    } else {
        repeated(piece, (n - 1) as nat) + piece
    }
}

/// The numbers of the first `n` columns, two characters each.
pub open spec fn column_numbers(n: nat) -> Seq<char>
    decreases n,
{
    if n == 0 {
        Seq::empty()
    } else {
        column_numbers((n - 1) as nat) + two_wide((n - 1) as nat)
    }
}

/// The line of column numbers and the upper edge of the frame.
pub open spec fn frame_top() -> Seq<char> {
    "    "@ + column_numbers(SIZE as nat) + " \n   ┌"@ + repeated("─"@, 2 * SIZE as nat) + "┐\n"@
}

/// The lower edge of the frame.
pub open spec fn frame_bottom() -> Seq<char> {
    "   └"@ + repeated("─"@, 2 * SIZE as nat) + "┘"@
}

/// The pictures of the first `upto` cells of row `y`.
pub open spec fn row_cells(pictures: Seq<Seq<char>>, y: int, upto: nat) -> Seq<char>
    decreases upto,
{
    if upto == 0 {
        Seq::empty()
    } else {
        row_cells(pictures, y, (upto - 1) as nat) + pictures[index(upto - 1, y)]
    }
}

/// Row `y` with its number and between the edges of the frame.
pub open spec fn framed_row(pictures: Seq<Seq<char>>, y: int) -> Seq<char> {
    two_wide(y as nat) + " │"@ + row_cells(pictures, y, SIZE as nat) + "│\n"@
}

/// The first `upto` rows, framed.
pub open spec fn framed_rows(pictures: Seq<Seq<char>>, upto: nat) -> Seq<char>
    decreases upto,
{
    if upto == 0 {
        Seq::empty()
    } else {
        framed_rows(pictures, (upto - 1) as nat) + framed_row(pictures, upto - 1)
    }
}

/// The board whose cells look as `pictures` say, in a frame: column numbers above, row
/// numbers on the left.
pub open spec fn framed(pictures: Seq<Seq<char>>) -> Seq<char> {
    frame_top() + framed_rows(pictures, SIZE as nat) + frame_bottom()
}

/// What the cells of a board look like: a dead cell is blank, a living one is a block.
pub open spec fn grid_pictures(board: Seq<int>) -> Seq<Seq<char>> {
    Seq::new(
        CELLS as nat,
        |i: int|
            if board[i] == 0 {
                "  "@
            } else {
                "██"@
            },
    )
}

/// What the cells of a guess look like: a cell known alive is a block, a cell known dead
/// is blank, and an undecided one is shaded.
pub open spec fn guess_pictures(known: Knowledge) -> Seq<Seq<char>> {
    Seq::new(
        CELLS as nat,
        |i: int|
            if known.alive[i] == 1 {
                "██"@
            } else if known.dead[i] == 1 {
                "  "@
            } else {
                "▒▒"@
            },
    )
}

/// The pictures as plain sequences.
pub open spec fn shown(pictures: Seq<&str>) -> Seq<Seq<char>> {
    Seq::new(pictures.len(), |i: int| pictures[i]@)
}

/// Appends `n` flush right in two columns.
fn push_two_wide(text: &mut String, n: usize)
    ensures
        final(text)@ == old(text)@ + two_wide(n as nat),
{
    if n < 10 {
        text.push(' ');
        text.push(digit_char(n));
        proof {
            assert(text@ =~= old(text)@ + two_wide(n as nat));
        }
    } else {
        push_decimal(text, n);
    }
}

/// Appends an edge of the frame: two strokes for every column.
fn push_edge(text: &mut String)
    ensures
        final(text)@ == old(text)@ + repeated("─"@, 2 * SIZE as nat),
{
    let mut i: usize = 0;
    proof {
        assert(text@ =~= old(text)@ + repeated("─"@, 0));
    }
    while i < 2 * SIDE
        invariant
            i <= 2 * SIDE,
            text@ == old(text)@ + repeated("─"@, i as nat),
        decreases 2 * SIDE - i,
    {
        text.append("─");
        proof {
            assert(text@ =~= old(text)@ + repeated("─"@, (i + 1) as nat));
        }
        i = i + 1;
    }
}

/// Draws the board whose cells look as `pictures` say: see [`framed`].
fn frame(pictures: &Vec<&str>) -> (text: String)
    requires
        pictures.len() == CELLS,
    ensures
        text@ == framed(shown(pictures@)),
{
    let ghost cells = shown(pictures@);
    let mut text = String::new();
    text.append("    ");
    let mut x: usize = 0;
    proof {
        assert(text@ =~= "    "@ + column_numbers(0));
    }
    while x < SIDE
        invariant
            x <= SIDE,
            text@ == "    "@ + column_numbers(x as nat),
        decreases SIDE - x,
    {
        push_two_wide(&mut text, x);
        proof {
            assert(text@ =~= "    "@ + column_numbers((x + 1) as nat));
        }
        x = x + 1;
    }
    text.append(" \n   ┌");
    push_edge(&mut text);
    text.append("┐\n");
    let mut y: usize = 0;
    proof {
        assert(text@ =~= frame_top() + framed_rows(cells, 0));
    }
    while y < SIDE
        invariant
            y <= SIDE,
            pictures.len() == CELLS,
            cells == shown(pictures@),
            text@ == frame_top() + framed_rows(cells, y as nat),
        decreases SIDE - y,
    {
        let ghost above = text@;
        push_two_wide(&mut text, y);
        text.append(" │");
        let mut x: usize = 0;
        proof {
            assert(text@ =~= above + two_wide(y as nat) + " │"@ + row_cells(cells, y as int, 0));
        }
        while x < SIDE
            invariant
                x <= SIDE,
                y < SIDE,
                pictures.len() == CELLS,
                cells == shown(pictures@),
                text@ == above + two_wide(y as nat) + " │"@ + row_cells(cells, y as int, x as nat),
            decreases SIDE - x,
        {
            proof {
                lemma_cell_of_index(x as int, y as int);
            }
            text.append(pictures[x + y * SIDE]);
            proof {
                assert(cells[index(x as int, y as int)] == pictures@[x + y * SIDE]@);
                assert(text@ =~= above + two_wide(y as nat) + " │"@ + row_cells(
                    cells,
                    y as int,
                    (x + 1) as nat,
                ));
            }
            x = x + 1;
        }
        text.append("│\n");
        proof {
            assert(text@ =~= above + framed_row(cells, y as int));
            assert(text@ =~= frame_top() + framed_rows(cells, (y + 1) as nat));
        }
        y = y + 1;
    }
    text.append("   └");
    push_edge(&mut text);
    text.append("┘");
    proof {
        assert(text@ =~= framed(cells));
    }
    text
}

impl Grid {
    /// Renders the grid to a string: each living cell as a block two characters wide,
    /// each dead cell as two spaces, in a frame with the numbers of columns and rows.
    pub fn render(&self) -> (text: String)
        ensures
            text@ == framed(grid_pictures(self@)),
    {
        let mut pictures: Vec<&str> = Vec::new();
        let mut i: usize = 0;
        while i < CELLS
            invariant
                i <= CELLS,
                pictures.len() == i,
                forall|j: int| 0 <= j < i ==> (#[trigger] pictures@[j])@ == grid_pictures(self@)[j],
            decreases CELLS - i,
        {
            let (x, y) = cell_at(i);
            proof {
                lemma_cell_of_index(x as int, y as int);
            }
            if self.get(x, y).value == 0 {
                pictures.push("  ");
            } else {
                pictures.push("██");
            }
            i = i + 1;
        }
        proof {
            assert(shown(pictures@) =~= grid_pictures(self@));
        }
        frame(&pictures)
    }
}

impl Guess {
    /// Renders the guess to a string: each cell known alive as a block, each cell known
    /// dead as two spaces, each undecided cell shaded, in the same frame as a grid.
    pub fn render(&self) -> (text: String)
        ensures
            text@ == framed(guess_pictures(self@)),
    {
        let alive = self.alive();
        let dead = self.dead();
        let mut pictures: Vec<&str> = Vec::new();
        let mut i: usize = 0;
        while i < CELLS
            invariant
                i <= CELLS,
                pictures.len() == i,
                alive@ == self@.alive,
                dead@ == self@.dead,
                forall|j: int|
                    0 <= j < i ==> (#[trigger] pictures@[j])@ == guess_pictures(self@)[j],
            decreases CELLS - i,
        {
            let (x, y) = cell_at(i);
            proof {
                lemma_cell_of_index(x as int, y as int);
            }
            if alive.get(x, y).value == 1 {
                pictures.push("██");
            } else if dead.get(x, y).value == 1 {
                pictures.push("  ");
            } else {
                pictures.push("▒▒");
            }
            i = i + 1;
        }
        proof {
            assert(shown(pictures@) =~= guess_pictures(self@));
        }
        frame(&pictures)
    }
}

/// The first `upto` frames of a chain, each drawn as a grid, with a blank line between
/// every two of them.
pub open spec fn chain_text(boards: Seq<Seq<int>>, upto: int) -> Seq<char>
    decreases upto,
{
    if upto <= 0 {
        Seq::empty()
    } else if upto == 1 {
        framed(grid_pictures(boards[0]))
    } else {
        chain_text(boards, upto - 1) + "\n\n"@ + framed(grid_pictures(boards[upto - 1]))
    }
}

/// Renders a chain to a string: its frames in their order, each as a grid, with a blank
/// line between every two of them.
pub fn render_chain(grids: &Vec<Grid>) -> (text: String)
    ensures
        text@ == chain_text(boards_of(grids@), grids.len() as int),
{
    let ghost boards = boards_of(grids@);
    let mut text = String::new();
    let mut i: usize = 0;
    while i < grids.len()
        invariant
            i <= grids.len(),
            boards == boards_of(grids@),
            text@ == chain_text(boards, i as int),
        decreases grids.len() - i,
    {
        let ghost before = text@;
        if i > 0 {
            text.append("\n\n");
        }
        let picture = grids[i].render();
        text.append(picture.as_str());
        proof {
            assert(boards[i as int] == grids@[i as int]@);
            if i > 0 {
                assert(text@ =~= before + "\n\n"@ + framed(grid_pictures(boards[i as int])));
            } else {
                assert(text@ =~= framed(grid_pictures(boards[0])));
            }
        }
        i = i + 1;
    }
    text
}

impl Sequence {
    /// Renders the chain of the sequence: see [`render_chain`].
    pub fn render(&self) -> (text: String)
        ensures
            text@ == chain_text(self@.grids, self@.grids.len() as int),
    {
        render_chain(&self.grids())
    }
}

} // verus!
