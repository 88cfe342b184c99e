//! Cells and the fixed-size toroidal board that holds them.

use std::ops::{Add, AddAssign, Sub, SubAssign};
use vstd::prelude::*;
use vstd::std_specs::cmp::PartialEqSpecImpl;
use vstd::std_specs::ops::{AddSpecImpl, SubSpecImpl};
pub use crate::torus::{CELLS, SIZE};
use crate::torus::{
    at, column, index, in_bounds, is_state, lemma_cell_of_index, lemma_index_in_range,
    lemma_index_of_cell, lemma_neighbour_sum_bounded, lemma_sum_of_three_bounded,
    lemma_wrap_negative, lemma_wrap_step, neighbour, neighbour_sums, row, step_of, wrap, SIDE,
};

verus! {

/// One entry of a board: a state (0 dead, at least 1 alive), a count or a bound.
#[derive(Copy, Clone, Debug, PartialEq, Eq, Structural, PartialOrd, Ord, Hash)]
pub struct Cell {
    pub value: i32,
}

impl Cell {
    /// The cell that takes one away where it is added.
    pub fn neg_one() -> (c: Cell)
        ensures
            c.value == -1,
    {
        Cell { value: -1 }
    }

    /// A dead cell, or a count of nothing.
    pub fn zero() -> (c: Cell)
        ensures
            c.value == 0,
    {
        Cell { value: 0 }
    }

    /// A living cell, or a count of one.
    pub fn one() -> (c: Cell)
        ensures
            c.value == 1,
    {
        Cell { value: 1 }
    }
}

impl Default for Cell {
    /// A dead cell.
    fn default() -> (c: Cell)
        ensures
            c.value == 0,
    {
        Cell { value: 0 }
    }
}

impl Add for Cell {
    type Output = Cell;

    fn add(self, rhs: Cell) -> (sum: Cell) {
        Cell { value: self.value + rhs.value }
    }
}

impl AddSpecImpl for Cell {
    open spec fn obeys_add_spec() -> bool {
        true
    }

    open spec fn add_req(self, rhs: Cell) -> bool {
        i32::MIN <= self.value + rhs.value <= i32::MAX
    }

    open spec fn add_spec(self, rhs: Cell) -> Cell {
        Cell { value: (self.value + rhs.value) as i32 }
    }
}

impl Sub for Cell {
    type Output = Cell;

    fn sub(self, rhs: Cell) -> (difference: Cell) {
        Cell { value: self.value - rhs.value }
    }
}

impl SubSpecImpl for Cell {
    open spec fn obeys_sub_spec() -> bool {
        true
    }

    open spec fn sub_req(self, rhs: Cell) -> bool {
        i32::MIN <= self.value - rhs.value <= i32::MAX
    }

    open spec fn sub_spec(self, rhs: Cell) -> Cell {
        Cell { value: (self.value - rhs.value) as i32 }
    }
}

impl AddAssign for Cell {
    fn add_assign(&mut self, rhs: Cell)
        requires
            i32::MIN <= old(self).value + rhs.value <= i32::MAX,
        ensures
            final(self).value == old(self).value + rhs.value,
    {
        self.value = self.value + rhs.value;
    }
}

impl SubAssign for Cell {
    fn sub_assign(&mut self, rhs: Cell)
        requires
            i32::MIN <= old(self).value - rhs.value <= i32::MAX,
        ensures
            final(self).value == old(self).value - rhs.value,
    {
        self.value = self.value - rhs.value;
    }
}

/// A coordinate reduced to `0..SIZE`.
pub fn wrap_coordinate(x: i32) -> (r: i32)
    ensures
        r == wrap(x as int),
{
    if x >= 0 {
        x % SIZE
    } else {
        proof {
            lemma_wrap_negative(x as int);
        }
        SIZE - 1 - (-(x + 1)) % SIZE
    }
}

/// The coordinates of the cell stored at `i`.
pub(crate) fn cell_at(i: usize) -> (cell: (i32, i32))
    requires
        i < CELLS,
    ensures
        cell.0 == column(i as int),
        cell.1 == row(i as int),
        in_bounds(cell.0 as int, cell.1 as int),
        index(cell.0 as int, cell.1 as int) == i,
{
    ((i % SIDE) as i32, (i / SIDE) as i32)
}

/// The coordinates of the `n`-th cell of the [`scan`].
pub(crate) fn scanned(n: usize) -> (cell: (i32, i32))
    requires
        n < CELLS,
    ensures
        scan()[n as int] == (cell.0 as int, cell.1 as int),
        in_bounds(cell.0 as int, cell.1 as int),
        cell.0 * SIZE + cell.1 == n,
{
    ((n / SIDE) as i32, (n % SIDE) as i32)
}

/// The cellwise sum of two boards.
pub open spec fn sum_of(a: Seq<int>, b: Seq<int>) -> Seq<int> {
    Seq::new(CELLS as nat, |i: int| a[i] + b[i])
}

/// The cellwise difference of two boards.
pub open spec fn difference_of(a: Seq<int>, b: Seq<int>) -> Seq<int> {
    Seq::new(CELLS as nat, |i: int| a[i] - b[i])
}

/// The largest magnitude of a cell for which the sums over a cell and its eight
/// neighbours fit the cell type.
pub const SUM_LIMIT: i32 = 238_609_294;

/// Every cell of the board lies within `limit` of zero.
pub open spec fn bounded_by(s: Seq<int>, limit: int) -> bool {
    forall|i: int| 0 <= i < CELLS ==> -limit <= #[trigger] s[i] <= limit
}

/// The board that holds at every cell the sum of that cell and its two horizontal neighbours.
pub open spec fn row_sums(s: Seq<int>) -> Seq<int> {
    Seq::new(
        CELLS as nat,
        |i: int| at(s, column(i) - 1, row(i)) + s[i] + at(s, column(i) + 1, row(i)),
    )
}

/// The board that holds at every cell the sum of that cell and its two vertical neighbours.
pub open spec fn column_sums(s: Seq<int>) -> Seq<int> {
    Seq::new(
        CELLS as nat,
        |i: int| at(s, column(i), row(i) - 1) + s[i] + at(s, column(i), row(i) + 1),
    )
}

/// All positions of the board, column by column: `(0, 0)`, `(0, 1)`, ..., `(SIZE - 1, SIZE - 1)`.
pub open spec fn scan() -> Seq<(int, int)> {
    Seq::new(CELLS as nat, |n: int| (n / (SIZE as int), n % (SIZE as int)))
}

/// The positions at which the board `s` holds a living cell, in the order of [`scan`].
pub open spec fn alive_positions(s: Seq<int>) -> Seq<(int, int)> {
    scan().filter(|p: (int, int)| at(s, p.0, p.1) > 0)
}

/// A list of machine coordinates read as mathematical positions.
pub open spec fn positions(v: Seq<(i32, i32)>) -> Seq<(int, int)> {
    Seq::new(v.len(), |i: int| (v[i].0 as int, v[i].1 as int))
}

/// The sums over a cell and its two horizontal neighbours are at most three times the
/// largest magnitude on the board.
pub proof fn lemma_row_sums_bounded(s: Seq<int>, limit: int)
    requires
        s.len() == CELLS,
        bounded_by(s, limit),
    ensures
        bounded_by(row_sums(s), 3 * limit),
{
    assert forall|i: int| 0 <= i < CELLS implies -3 * limit <= #[trigger] row_sums(s)[i] <= 3
        * limit by {
        lemma_index_in_range(column(i) - 1, row(i));
        lemma_index_in_range(column(i) + 1, row(i));
        lemma_sum_of_three_bounded(
            s,
            index(column(i) - 1, row(i)),
            i,
            index(column(i) + 1, row(i)),
            limit,
        );
    }
}

/// The sums over the neighbours are at most eight times the largest magnitude on the board.
pub proof fn lemma_neighbour_sums_bounded(s: Seq<int>, limit: int)
    requires
        bounded_by(s, limit),
    ensures
        bounded_by(neighbour_sums(s), 8 * limit),
{
    assert forall|i: int| 0 <= i < CELLS implies -8 * limit <= #[trigger] neighbour_sums(s)[i] <= 8
        * limit by {
        lemma_neighbour_sum_bounded(s, column(i), row(i), limit);
    }
}

/// The sum of a row of three, for any coordinates.
proof fn lemma_row_sum_at(s: Seq<int>, x: int, y: int)
    requires
        s.len() == CELLS,
    ensures
        row_sums(s)[index(x, y)] == at(s, x - 1, y) + at(s, x, y) + at(s, x + 1, y),
{
    let i = index(x, y);
    lemma_index_in_range(x, y);
    lemma_cell_of_index(wrap(x), wrap(y));
    assert(column(i) == wrap(x) && row(i) == wrap(y));
    lemma_wrap_step(x, -1);
    lemma_wrap_step(x, 1);
    lemma_wrap_step(y, 0);
    assert(index(wrap(x) - 1, wrap(y)) == index(x - 1, y));
    assert(index(wrap(x) + 1, wrap(y)) == index(x + 1, y));
}

/// Summing rows and then columns counts a cell and its eight neighbours, so taking the
/// cell away again leaves the sum over the neighbours.
pub proof fn lemma_separable_sums(s: Seq<int>)
    requires
        s.len() == CELLS,
    ensures
        difference_of(column_sums(row_sums(s)), s) == neighbour_sums(s),
{
    let h = row_sums(s);
    let v = column_sums(h);
    assert forall|i: int| 0 <= i < CELLS implies v[i] - s[i] == neighbour_sums(s)[i] by {
        let x = column(i);
        let y = row(i);
        lemma_index_of_cell(i);
        assert(at(h, x, y - 1) == at(s, x - 1, y - 1) + at(s, x, y - 1) + at(s, x + 1, y - 1)) by {
            lemma_row_sum_at(s, x, y - 1);
        }
        assert(at(h, x, y + 1) == at(s, x - 1, y + 1) + at(s, x, y + 1) + at(s, x + 1, y + 1)) by {
            lemma_row_sum_at(s, x, y + 1);
        }
        assert(h[i] == at(s, x - 1, y) + at(s, x, y) + at(s, x + 1, y)) by {
            lemma_row_sum_at(s, x, y);
        }
        assert(at(s, x, y) == s[i]);
        assert(v[i] == at(h, x, y - 1) + h[i] + at(h, x, y + 1));
    }
    assert(difference_of(v, s) =~= neighbour_sums(s));
}

/// A toroidal grid for Life, stored row by row: the cell `(x, y)` is at `x + y * SIZE`.
#[derive(Debug, Eq, PartialOrd, Ord)]
pub struct Grid {
    cells: [Cell; CELLS],
}

impl View for Grid {
    type V = Seq<int>;

    /// The values of the cells in storage order.
    open spec fn view(&self) -> Seq<int> {
        Seq::new(CELLS as nat, |i: int| self.cell(i).value as int)
    }
}

impl Clone for Grid {
    fn clone(&self) -> (copy: Grid)
        ensures
            copy == *self,
    {
        Grid { cells: self.cells }
    }
}

impl PartialEq for Grid {
    fn eq(&self, other: &Grid) -> (equal: bool) {
        let mut i: usize = 0;
        while i < CELLS
            invariant
                i <= CELLS,
                forall|j: int| 0 <= j < i ==> self@[j] == other@[j],
            decreases CELLS - i,
        {
            if self.cells[i].value != other.cells[i].value {
                assert(self@[i as int] != other@[i as int]);
                return false;
            }
            i = i + 1;
        }
        assert(self@ =~= other@);
        true
    }
}

impl PartialEqSpecImpl for Grid {
    open spec fn obeys_eq_spec() -> bool {
        true
    }

    open spec fn eq_spec(&self, other: &Grid) -> bool {
        self@ == other@
    }
}

impl Default for Grid {
    /// The board on which every cell is 0.
    fn default() -> (grid: Grid)
        ensures
            grid@ == Seq::new(CELLS as nat, |i: int| 0int),
    {
        let grid = Grid { cells: [Cell { value: 0 }; CELLS] };
        assert(grid@ =~= Seq::new(CELLS as nat, |i: int| 0int));
        grid
    }
}

impl<'a> AddAssign<&'a Grid> for Grid {
    /// Adds `rhs` cell by cell.
    fn add_assign(&mut self, rhs: &'a Grid)
        requires
            forall|i: int|
                0 <= i < CELLS ==> i32::MIN <= old(self)@[i] + #[trigger] rhs@[i] <= i32::MAX,
        ensures
            final(self)@ == sum_of(old(self)@, rhs@),
    {
        let mut i: usize = 0;
        while i < CELLS
            invariant
                i <= CELLS,
                forall|j: int|
                    0 <= j < CELLS ==> i32::MIN <= old(self)@[j] + #[trigger] rhs@[j] <= i32::MAX,
                forall|j: int| 0 <= j < i ==> #[trigger] self@[j] == old(self)@[j] + rhs@[j],
                forall|j: int| i <= j < CELLS ==> self@[j] == old(self)@[j],
            decreases CELLS - i,
        {
            assert(self@[i as int] == old(self)@[i as int]);
            assert(rhs@[i as int] == rhs.cells[i as int].value);
            assert(self@[i as int] == self.cells[i as int].value);
            let ghost before = *self;
            let sum = Cell { value: self.cells[i].value + rhs.cells[i].value };
            self.cells[i] = sum;
            assert forall|j: int| 0 <= j < CELLS && j != i implies self@[j] == before@[j] by {
                assert(self.cells[j] == before.cells[j]);
            }
            assert(self@[i as int] == sum.value);
            assert forall|j: int| 0 <= j < i implies self@[j] == old(self)@[j] + rhs@[j] by {
                assert(self@[j] == before@[j]);
            }
            i = i + 1;
        }
        assert(self@ =~= sum_of(old(self)@, rhs@));
    }
}

impl<'a> SubAssign<&'a Grid> for Grid {
    /// Subtracts `rhs` cell by cell.
    fn sub_assign(&mut self, rhs: &'a Grid)
        requires
            forall|i: int|
                0 <= i < CELLS ==> i32::MIN <= old(self)@[i] - #[trigger] rhs@[i] <= i32::MAX,
        ensures
            final(self)@ == difference_of(old(self)@, rhs@),
    {
        let mut i: usize = 0;
        while i < CELLS
            invariant
                i <= CELLS,
                forall|j: int|
                    0 <= j < CELLS ==> i32::MIN <= old(self)@[j] - #[trigger] rhs@[j] <= i32::MAX,
                forall|j: int| 0 <= j < i ==> #[trigger] self@[j] == old(self)@[j] - rhs@[j],
                forall|j: int| i <= j < CELLS ==> self@[j] == old(self)@[j],
            decreases CELLS - i,
        {
            assert(self@[i as int] == old(self)@[i as int]);
            assert(rhs@[i as int] == rhs.cells[i as int].value);
            assert(self@[i as int] == self.cells[i as int].value);
            let ghost before = *self;
            let difference = Cell { value: self.cells[i].value - rhs.cells[i].value };
            self.cells[i] = difference;
            assert forall|j: int| 0 <= j < CELLS && j != i implies self@[j] == before@[j] by {
                assert(self.cells[j] == before.cells[j]);
            }
            assert(self@[i as int] == difference.value);
            assert forall|j: int| 0 <= j < i implies self@[j] == old(self)@[j] - rhs@[j] by {
                assert(self@[j] == before@[j]);
            }
            i = i + 1;
        }
        assert(self@ =~= difference_of(old(self)@, rhs@));
    }
}

impl Grid {
    /// The cell stored at `i`.
    pub closed spec fn cell(&self, i: int) -> Cell {
        self.cells[i]
    }

    /// Two grids with the same values are the same grid.
    pub proof fn lemma_view_determines(self, other: Grid)
        requires
            self@ == other@,
        ensures
            self == other,
    {
        assert forall|i: int| 0 <= i < CELLS implies self.cells[i] == other.cells[i] by {
            assert(self@[i] == self.cells[i].value);
            assert(other@[i] == other.cells[i].value);
        }
        assert(self.cells =~= other.cells);
    }

    /// The board on which every cell is `cell`.
    pub fn fill(cell: Cell) -> (grid: Grid)
        ensures
            grid@ == Seq::new(CELLS as nat, |i: int| cell.value as int),
    {
        let grid = Grid { cells: [cell; CELLS] };
        assert(grid@ =~= Seq::new(CELLS as nat, |i: int| cell.value as int));
        grid
    }

    /// Whether the grid holds states only: every cell is 0 or 1.
    pub fn is_state(&self) -> (state: bool)
        ensures
            state == is_state(self@),
    {
        let mut i: usize = 0;
        while i < CELLS
            invariant
                i <= CELLS,
                forall|j: int| 0 <= j < i ==> 0 <= #[trigger] self@[j] <= 1,
            decreases CELLS - i,
        {
            let value = self.cells[i].value;
            assert(self@[i as int] == value);
            if value < 0 || value > 1 {
                return false;
            }
            i = i + 1;
        }
        true
    }

    /// The number of living cells: those with a value of at least 1.
    pub fn population(&self) -> (count: usize)
        ensures
            count == alive_positions(self@).len(),
    {
        self.alive_cells().len()
    }

    /// The cell at the reduced coordinates `(x, y)`.
    pub fn get(&self, x: i32, y: i32) -> (cell: Cell)
        requires
            in_bounds(x as int, y as int),
        ensures
            cell.value == at(self@, x as int, y as int),
    {
        self.cells[(x + y * SIZE) as usize]
    }

    /// Stores `cell` at the reduced coordinates `(x, y)`.
    pub fn set(&mut self, x: i32, y: i32, cell: Cell)
        requires
            in_bounds(x as int, y as int),
        ensures
            final(self)@ == old(self)@.update(index(x as int, y as int), cell.value as int),
    {
        self.cells[(x + y * SIZE) as usize] = cell;
        assert(self@ =~= old(self)@.update(index(x as int, y as int), cell.value as int));
    }

    /// The cell at `(x, y)`, for any coordinates, read toroidally.
    pub fn get_wrapped(&self, x: i32, y: i32) -> (cell: Cell)
        ensures
            cell.value == at(self@, x as int, y as int),
    {
        self.get(wrap_coordinate(x), wrap_coordinate(y))
    }

    /// Stores `cell` at `(x, y)`, for any coordinates, reduced toroidally.
    pub fn set_wrapped(&mut self, x: i32, y: i32, cell: Cell)
        ensures
            final(self)@ == old(self)@.update(index(x as int, y as int), cell.value as int),
    {
        self.set(wrap_coordinate(x), wrap_coordinate(y), cell)
    }

    /// Adds `cell` to the cell at the reduced coordinates `(x, y)`.
    pub fn set_add(&mut self, x: i32, y: i32, cell: Cell)
        requires
            in_bounds(x as int, y as int),
            i32::MIN <= at(old(self)@, x as int, y as int) + cell.value <= i32::MAX,
        ensures
            final(self)@ == old(self)@.update(
                index(x as int, y as int),
                at(old(self)@, x as int, y as int) + cell.value,
            ),
    {
        let i = (x + y * SIZE) as usize;
        let sum = Cell { value: self.cells[i].value + cell.value };
        self.cells[i] = sum;
        assert(self@ =~= old(self)@.update(
            index(x as int, y as int),
            at(old(self)@, x as int, y as int) + cell.value,
        ));
    }

    /// Adds `cell` to the cell at `(x, y)`, for any coordinates, reduced toroidally.
    pub fn set_add_wrapped(&mut self, x: i32, y: i32, cell: Cell)
        requires
            i32::MIN <= at(old(self)@, x as int, y as int) + cell.value <= i32::MAX,
        ensures
            final(self)@ == old(self)@.update(
                index(x as int, y as int),
                at(old(self)@, x as int, y as int) + cell.value,
            ),
    {
        let x = wrap_coordinate(x);
        let y = wrap_coordinate(y);
        self.set_add(x, y, cell);
    }

    /// The positions of the living cells, those with a value of at least 1, column by column.
    pub fn alive_cells(&self) -> (cells: Vec<(i32, i32)>)
        ensures
            positions(cells@) == alive_positions(self@),
            forall|i: int|
                0 <= i < cells.len() ==> in_bounds((#[trigger] cells@[i]).0 as int, cells@[i].1 as int),
    {
        let mut cells: Vec<(i32, i32)> = Vec::new();
        let ghost alive = |p: (int, int)| at(self@, p.0, p.1) > 0;
        let mut n: usize = 0;
        proof {
            assert(scan().take(0) =~= Seq::<(int, int)>::empty());
            reveal(Seq::filter);
            assert(positions(cells@) =~= scan().take(0).filter(alive));
        }
        while n < CELLS
            invariant
                n <= CELLS,
                alive == |p: (int, int)| at(self@, p.0, p.1) > 0,
                positions(cells@) == scan().take(n as int).filter(alive),
                forall|i: int|
                    0 <= i < cells.len() ==> in_bounds(
                        (#[trigger] cells@[i]).0 as int,
                        cells@[i].1 as int,
                    ),
            decreases CELLS - n,
        {
            let (x, y) = scanned(n);
            let ghost before = cells@;
            let living = self.get(x, y).value > 0;
            if living {
                cells.push((x, y));
            }
            proof {
                let shorter = scan().take(n as int);
                let longer = scan().take(n + 1);
                assert(longer.drop_last() =~= shorter);
                assert(longer.last() == (x as int, y as int));
                reveal(Seq::filter);
                if living {
                    assert(positions(cells@) =~= positions(before).push((x as int, y as int)));
                }
            }
            n = n + 1;
        }
        assert(scan().take(CELLS as int) =~= scan());
        cells
    }

    /// Each cell of the result is the sum of the cell and its two horizontal neighbours.
    fn hcount(&self) -> (sums: Grid)
        requires
            bounded_by(self@, SUM_LIMIT as int),
        ensures
            sums@ == row_sums(self@),
    {
        let mut sums = Grid::default();
        let mut i: usize = 0;
        while i < CELLS
            invariant
                i <= CELLS,
                bounded_by(self@, SUM_LIMIT as int),
                forall|j: int| 0 <= j < i ==> #[trigger] sums@[j] == row_sums(self@)[j],
            decreases CELLS - i,
        {
            let (x, y) = cell_at(i);
            proof {
                lemma_index_in_range(x - 1, y as int);
                lemma_index_in_range(x + 1, y as int);
                lemma_cell_of_index(x as int, y as int);
            }
            let left = self.get_wrapped(x - 1, y).value;
            let here = self.get(x, y).value;
            let right = self.get_wrapped(x + 1, y).value;
            sums.set(x, y, Cell { value: left + here + right });
            i = i + 1;
        }
        assert(sums@ =~= row_sums(self@));
        sums
    }

    /// Each cell of the result is the sum of the cell and its two vertical neighbours.
    fn vcount(&self) -> (sums: Grid)
        requires
            bounded_by(self@, 3 * SUM_LIMIT),
        ensures
            sums@ == column_sums(self@),
    {
        let mut sums = Grid::default();
        let mut i: usize = 0;
        while i < CELLS
            invariant
                i <= CELLS,
                bounded_by(self@, 3 * SUM_LIMIT),
                forall|j: int| 0 <= j < i ==> #[trigger] sums@[j] == column_sums(self@)[j],
            decreases CELLS - i,
        {
            let (x, y) = cell_at(i);
            proof {
                lemma_index_in_range(x as int, y - 1);
                lemma_index_in_range(x as int, y + 1);
                lemma_cell_of_index(x as int, y as int);
            }
            let up = self.get_wrapped(x, y - 1).value;
            let here = self.get(x, y).value;
            let down = self.get_wrapped(x, y + 1).value;
            sums.set(x, y, Cell { value: up + here + down });
            i = i + 1;
        }
        assert(sums@ =~= column_sums(self@));
        sums
    }

    /// For every cell, the sum of the values of its eight proper neighbours: on a board
    /// of states, the number of its living neighbours.
    pub fn neighbours(&self) -> (counts: Grid)
        requires
            bounded_by(self@, SUM_LIMIT as int),
        ensures
            counts@ == neighbour_sums(self@),
    {
        let rows = self.hcount();
        proof {
            lemma_row_sums_bounded(self@, SUM_LIMIT as int);
        }
        let mut counts = rows.vcount();
        proof {
            lemma_separable_sums(self@);
            lemma_neighbour_sums_bounded(self@, SUM_LIMIT as int);
            assert forall|i: int| 0 <= i < CELLS implies i32::MIN <= counts@[i] - #[trigger] self@[i]
                <= i32::MAX by {
                assert(counts@[i] - self@[i] == neighbour_sums(self@)[i]);
            }
        }
        counts.sub_assign(self);
        counts
    }

    /// Replaces the board by its successor under one step of Life.
    pub fn step(&mut self)
        requires
            bounded_by(old(self)@, SUM_LIMIT as int),
        ensures
            final(self)@ == step_of(old(self)@),
    {
        let neighbours = self.neighbours();
        let mut i: usize = 0;
        while i < CELLS
            invariant
                i <= CELLS,
                neighbours@ == neighbour_sums(old(self)@),
                forall|j: int| 0 <= j < i ==> #[trigger] self@[j] == step_of(old(self)@)[j],
                forall|j: int| i <= j < CELLS ==> #[trigger] self@[j] == old(self)@[j],
            decreases CELLS - i,
        {
            let (x, y) = cell_at(i);
            proof {
                lemma_cell_of_index(x as int, y as int);
            }
            let current = self.get(x, y);
            let count = neighbours.get(x, y);
            let value: i32 = if count.value == 3 {
                1
            } else if count.value == 2 && current.value > 0 {
                1
            } else {
                0
            };
            self.set(x, y, Cell { value });
            i = i + 1;
        }
        assert(self@ =~= step_of(old(self)@));
    }

    /// The eight proper neighbours of `(x, y)`, reduced to the board, in their fixed order.
    pub fn neighbour_positions(x: i32, y: i32) -> (positions: [(i32, i32); 8])
        ensures
            forall|k: int|
                0 <= k < 8 ==> (#[trigger] positions@[k]).0 == neighbour(x as int, y as int, k).0
                    && positions@[k].1 == neighbour(x as int, y as int, k).1,
    {
        let ghost (x0, y0) = (x as int, y as int);
        let x = wrap_coordinate(x);
        let y = wrap_coordinate(y);
        let left = wrap_coordinate(x - 1);
        let right = wrap_coordinate(x + 1);
        let up = wrap_coordinate(y - 1);
        let down = wrap_coordinate(y + 1);
        let positions = [
            (left, up),
            (left, y),
            (left, down),
            (x, up),
            (x, down),
            (right, up),
            (right, y),
            (right, down),
        ];
        proof {
            lemma_wrap_step(x0, -1);
            lemma_wrap_step(x0, 0);
            lemma_wrap_step(x0, 1);
            lemma_wrap_step(y0, -1);
            lemma_wrap_step(y0, 0);
            lemma_wrap_step(y0, 1);
            assert(left == wrap(x0 - 1) && x == wrap(x0 + 0) && right == wrap(x0 + 1));
            assert(up == wrap(y0 - 1) && y == wrap(y0 + 0) && down == wrap(y0 + 1));
            assert(positions@[0] == (left, up));
            assert(positions@[1] == (left, y));
            assert(positions@[2] == (left, down));
            assert(positions@[3] == (x, up));
            assert(positions@[4] == (x, down));
            assert(positions@[5] == (right, up));
            assert(positions@[6] == (right, y));
            assert(positions@[7] == (right, down));
        }
        positions
    }
}

} // verus!
