//! Geometry of the board: a square torus of side [`SIZE`], stored row by row.
//!
//! Everything here is ghost code: coordinates are mathematical integers and a board is
//! a sequence of [`CELLS`] integers, the cell `(x, y)` at `x + y * SIZE`.

use vstd::arithmetic::div_mod::{
    lemma_fundamental_div_mod, lemma_fundamental_div_mod_converse, lemma_mod_bound,
};
use vstd::prelude::*;

verus! {

/// Side length of the board.
pub const SIZE: i32 = 12;

/// Side length of the board, as a number of cells.
pub const SIDE: usize = 12;

/// Number of cells of the board, `SIZE * SIZE`.
pub const CELLS: usize = 144;

/// A coordinate reduced to `0..SIZE`, so that `-1` is `SIZE - 1`.
pub open spec fn wrap(x: int) -> int {
    x % (SIZE as int)
}

/// Whether `(x, y)` is already reduced.
pub open spec fn in_bounds(x: int, y: int) -> bool {
    0 <= x < SIZE && 0 <= y < SIZE
}

/// Where the cell `(x, y)` is stored, for any integers `x` and `y`.
pub open spec fn index(x: int, y: int) -> int {
    wrap(x) + wrap(y) * SIZE
}

/// The column of the cell stored at `i`.
pub open spec fn column(i: int) -> int {
    i % (SIZE as int)
}

/// The row of the cell stored at `i`.
pub open spec fn row(i: int) -> int {
    i / (SIZE as int)
}

/// The value that the board `s` holds at `(x, y)`, read toroidally.
pub open spec fn at(s: Seq<int>, x: int, y: int) -> int {
    s[index(x, y)]
}

/// The eight directions to a proper neighbour, in the order in which neighbours are listed.
pub open spec fn offset(k: int) -> (int, int) {
    if k == 0 {
        (-1, -1)
    } else if k == 1 {
        (-1, 0)
    } else if k == 2 {
        (-1, 1)
    } else if k == 3 {
        (0, -1)
    } else if k == 4 {
        (0, 1)
    } else if k == 5 {
        (1, -1)
    } else if k == 6 {
        (1, 0)
    } else {
        (1, 1)
    }
}

/// The `k`-th proper neighbour of `(x, y)`, reduced to the board.
pub open spec fn neighbour(x: int, y: int, k: int) -> (int, int) {
    (wrap(x + offset(k).0), wrap(y + offset(k).1))
}

/// Where the `k`-th proper neighbour of `(x, y)` is stored.
pub open spec fn neighbour_index(x: int, y: int, k: int) -> int {
    index(x + offset(k).0, y + offset(k).1)
}

/// The eight proper neighbours of `(x, y)` in their fixed order.
pub open spec fn neighbours_of(x: int, y: int) -> Seq<(int, int)> {
    Seq::new(8, |k: int| neighbour(x, y, k))
}

/// Sum of the values that `s` holds at the eight proper neighbours of `(x, y)`.
pub open spec fn neighbour_sum(s: Seq<int>, x: int, y: int) -> int {
    at(s, x - 1, y - 1) + at(s, x - 1, y) + at(s, x - 1, y + 1) + at(s, x, y - 1) + at(
        s,
        x,
        y + 1,
    ) + at(s, x + 1, y - 1) + at(s, x + 1, y) + at(s, x + 1, y + 1)
}

/// The board that holds at every cell the sum over that cell's proper neighbours in `s`.
pub open spec fn neighbour_sums(s: Seq<int>) -> Seq<int> {
    Seq::new(CELLS as nat, |i: int| neighbour_sum(s, column(i), row(i)))
}

/// A board of states: every cell is 0 (dead) or 1 (alive).
pub open spec fn is_state(s: Seq<int>) -> bool {
    &&& s.len() == CELLS
    &&& forall|i: int| 0 <= i < CELLS ==> 0 <= #[trigger] s[i] <= 1
}

/// Conway's rule: a cell is alive in the next frame when it has three living neighbours,
/// or two and is alive now.
pub open spec fn life_rule(count: int, current: int) -> int {
    if count == 3 {
        1
    } else if count == 2 && current > 0 {
        1
    } else {
        0
    }
}

/// The successor of the board `s` under one step of Life.
pub open spec fn step_of(s: Seq<int>) -> Seq<int> {
    Seq::new(CELLS as nat, |i: int| life_rule(neighbour_sums(s)[i], s[i]))
}

/// `p` is a predecessor of `target`: a board of states whose successor is `target`.
pub open spec fn is_predecessor(p: Seq<int>, target: Seq<int>) -> bool {
    is_state(p) && step_of(p) == target
}

/// Every index decomposes into its column and row, and those are reduced coordinates.
pub proof fn lemma_index_of_cell(i: int)
    requires
        0 <= i < CELLS,
    ensures
        in_bounds(column(i), row(i)),
        index(column(i), row(i)) == i,
{
}

/// A reduced pair is stored at `x + y * SIZE`, and gives back its own column and row.
pub proof fn lemma_cell_of_index(x: int, y: int)
    requires
        in_bounds(x, y),
    ensures
        index(x, y) == x + y * SIZE,
        0 <= index(x, y) < CELLS,
        column(index(x, y)) == x,
        row(index(x, y)) == y,
{
}

/// Any pair of integers is stored somewhere on the board.
pub proof fn lemma_index_in_range(x: int, y: int)
    ensures
        0 <= index(x, y) < CELLS,
        index(x, y) == index(wrap(x), wrap(y)),
        in_bounds(wrap(x), wrap(y)),
{
}

/// The sum over the neighbours of a board of states counts the living ones: it lies in `0..=8`.
pub proof fn lemma_neighbour_sum_of_state(s: Seq<int>, x: int, y: int)
    requires
        is_state(s),
    ensures
        0 <= neighbour_sum(s, x, y) <= 8,
{
    lemma_index_in_range(x - 1, y - 1);
    lemma_index_in_range(x - 1, y);
    lemma_index_in_range(x - 1, y + 1);
    lemma_index_in_range(x, y - 1);
    lemma_index_in_range(x, y + 1);
    lemma_index_in_range(x + 1, y - 1);
    lemma_index_in_range(x + 1, y);
    lemma_index_in_range(x + 1, y + 1);
}

/// The sum over the neighbours is at most eight times the largest magnitude on the board.
pub proof fn lemma_neighbour_sum_bounded(s: Seq<int>, x: int, y: int, limit: int)
    requires
        forall|i: int| 0 <= i < CELLS ==> -limit <= #[trigger] s[i] <= limit,
    ensures
        -8 * limit <= neighbour_sum(s, x, y) <= 8 * limit,
{
    lemma_index_in_range(x - 1, y - 1);
    lemma_index_in_range(x - 1, y);
    lemma_index_in_range(x - 1, y + 1);
    lemma_index_in_range(x, y - 1);
    lemma_index_in_range(x, y + 1);
    lemma_index_in_range(x + 1, y - 1);
    lemma_index_in_range(x + 1, y);
    lemma_index_in_range(x + 1, y + 1);
}

/// One step of Life always yields a board of states.
pub proof fn lemma_step_is_state(s: Seq<int>)
    ensures
        is_state(step_of(s)),
{
}

/// Whatever the board, the neighbour counts of its successor lie in `0..=8`.
pub proof fn lemma_successor_counts_in_range(s: Seq<int>, i: int)
    requires
        0 <= i < CELLS,
    ensures
        0 <= neighbour_sums(step_of(s))[i] <= 8,
{
    lemma_step_is_state(s);
    lemma_neighbour_sum_of_state(step_of(s), column(i), row(i));
}

/// Below zero, a coordinate reduces to what its mirror image lacks to the last column.
pub proof fn lemma_wrap_negative(x: int)
    requires
        x < 0,
    ensures
        wrap(x) == SIZE - 1 - (-(x + 1)) % (SIZE as int),
{
    let mirrored = -(x + 1);
    let q = mirrored / (SIZE as int);
    let r = mirrored % (SIZE as int);
    lemma_fundamental_div_mod(mirrored, SIZE as int);
    lemma_mod_bound(mirrored, SIZE as int);
    assert(x == (-q - 1) * SIZE + (SIZE - 1 - r)) by (nonlinear_arith)
        requires
            mirrored == SIZE * q + r,
            mirrored == -(x + 1),
    ;
    lemma_fundamental_div_mod_converse(x, SIZE as int, -q - 1, SIZE - 1 - r);
}

/// The sums over rows of three are at most three times the largest magnitude.
pub proof fn lemma_sum_of_three_bounded(s: Seq<int>, a: int, b: int, c: int, limit: int)
    requires
        forall|i: int| 0 <= i < CELLS ==> -limit <= #[trigger] s[i] <= limit,
        0 <= a < CELLS,
        0 <= b < CELLS,
        0 <= c < CELLS,
    ensures
        -3 * limit <= s[a] + s[b] + s[c] <= 3 * limit,
{
}

/// Reducing a coordinate before a step changes nothing.
pub proof fn lemma_wrap_step(x: int, d: int)
    ensures
        wrap(wrap(x) + d) == wrap(x + d),
        0 <= wrap(x) < SIZE,
{
}

/// How many of the first `k` neighbours of `(x, y)` are stored at `i`.
pub open spec fn hits(x: int, y: int, k: int, i: int) -> int
    decreases k,
{
    if k <= 0 {
        0
    } else {
        hits(x, y, k - 1, i) + if neighbour_index(x, y, k - 1) == i {
            1int
        } else {
            0int
        }
    }
}

/// A cell is stored where the `k`-th neighbour of `(x, y)` is stored.
pub proof fn lemma_neighbour_stored(x: int, y: int, k: int)
    ensures
        neighbour_index(x, y, k) == index(neighbour(x, y, k).0, neighbour(x, y, k).1),
        in_bounds(neighbour(x, y, k).0, neighbour(x, y, k).1),
        0 <= neighbour_index(x, y, k) < CELLS,
{
}

/// Among the first `k` neighbours, between none and `k` are stored at `i`.
pub proof fn lemma_hits_bounds(x: int, y: int, k: int, i: int)
    requires
        0 <= k,
    ensures
        0 <= hits(x, y, k, i) <= k,
    decreases k,
{
    if k > 0 {
        lemma_hits_bounds(x, y, k - 1, i);
    }
}

/// Two pairs are stored at the same place exactly when they reduce to the same cell.
pub proof fn lemma_index_injective(a: int, b: int, c: int, d: int)
    ensures
        (index(a, b) == index(c, d)) == (wrap(a) == wrap(c) && wrap(b) == wrap(d)),
{
    let wa = wrap(a);
    let wb = wrap(b);
    let wc = wrap(c);
    let wd = wrap(d);
    assert(0 <= wa < 12 && 0 <= wb < 12 && 0 <= wc < 12 && 0 <= wd < 12);
    if wa + wb * 12 == wc + wd * 12 {
        assert(wa == wc && wb == wd);
    }
}

/// Along one axis, a step reaches a coordinate exactly when the opposite step leads back.
proof fn lemma_opposite_step(x: int, px: int, dx: int)
    requires
        0 <= x < SIZE,
        0 <= px < SIZE,
        -1 <= dx <= 1,
    ensures
        (wrap(px + dx) == x) == (wrap(x - dx) == px),
{
    if dx == 0 {
    } else if dx == 1 {
        assert(wrap(px + 1) == if px == 11 { 0 } else { px + 1 });
        assert(wrap(x - 1) == if x == 0 { 11 } else { x - 1 });
    } else {
        assert(wrap(px - 1) == if px == 0 { 11 } else { px - 1 });
        assert(wrap(x + 1) == if x == 11 { 0 } else { x + 1 });
    }
}

/// Stepping from one cell reaches another exactly when the opposite step leads back.
pub proof fn lemma_opposite(x: int, y: int, px: int, py: int, dx: int, dy: int)
    requires
        in_bounds(x, y),
        in_bounds(px, py),
        -1 <= dx <= 1,
        -1 <= dy <= 1,
    ensures
        (index(px + dx, py + dy) == index(x, y)) == (index(x - dx, y - dy) == index(px, py)),
{
    lemma_index_injective(px + dx, py + dy, x, y);
    lemma_index_injective(x - dx, y - dy, px, py);
    lemma_opposite_step(x, px, dx);
    lemma_opposite_step(y, py, dy);
    assert(wrap(x) == x && wrap(y) == y && wrap(px) == px && wrap(py) == py);
}

/// Raising the cell `(x, y)` by one raises what is read at `(ax, ay)`, one step from the
/// cell stored at `i`, exactly when the opposite step from `(x, y)` leads to that cell.
proof fn lemma_raise_moves_term(
    s: Seq<int>,
    x: int,
    y: int,
    i: int,
    dx: int,
    dy: int,
    ax: int,
    ay: int,
    bx: int,
    by: int,
)
    requires
        s.len() == CELLS,
        in_bounds(x, y),
        0 <= i < CELLS,
        -1 <= dx <= 1,
        -1 <= dy <= 1,
        ax == column(i) + dx,
        ay == row(i) + dy,
        bx == x - dx,
        by == y - dy,
    ensures
        at(s.update(index(x, y), s[index(x, y)] + 1), ax, ay) == at(s, ax, ay) + if index(bx, by)
            == i {
            1int
        } else {
            0int
        },
{
    lemma_index_of_cell(i);
    lemma_opposite(x, y, column(i), row(i), dx, dy);
    lemma_index_in_range(ax, ay);
    lemma_index_in_range(x, y);
}

/// The neighbours of `(x, y)` stored at `i`, counted one by one.
proof fn lemma_hits_unfolded(x: int, y: int, i: int)
    ensures
        hits(x, y, 8, i) == (if index(x - 1, y - 1) == i {
            1int
        } else {
            0int
        }) + (if index(x - 1, y) == i {
            1int
        } else {
            0int
        }) + (if index(x - 1, y + 1) == i {
            1int
        } else {
            0int
        }) + (if index(x, y - 1) == i {
            1int
        } else {
            0int
        }) + (if index(x, y + 1) == i {
            1int
        } else {
            0int
        }) + (if index(x + 1, y - 1) == i {
            1int
        } else {
            0int
        }) + (if index(x + 1, y) == i {
            1int
        } else {
            0int
        }) + (if index(x + 1, y + 1) == i {
            1int
        } else {
            0int
        }),
{
    reveal_with_fuel(hits, 9);
}

/// Raising the cell `(x, y)` by one raises the sum over the neighbours of exactly those
/// cells that are neighbours of `(x, y)`.
pub proof fn lemma_raise_moves_sums(s: Seq<int>, x: int, y: int, i: int)
    requires
        s.len() == CELLS,
        in_bounds(x, y),
        0 <= i < CELLS,
    ensures
        neighbour_sums(s.update(index(x, y), s[index(x, y)] + 1))[i] == neighbour_sums(s)[i]
            + hits(x, y, 8, i),
{
    let px = column(i);
    let py = row(i);
    let t = s.update(index(x, y), s[index(x, y)] + 1);
    let h = |bx: int, by: int| if index(bx, by) == i { 1int } else { 0int };
    assert(at(t, px - 1, py - 1) == at(s, px - 1, py - 1) + h(x + 1, y + 1)) by {
        lemma_raise_moves_term(s, x, y, i, -1, -1, px - 1, py - 1, x + 1, y + 1);
    }
    assert(at(t, px - 1, py) == at(s, px - 1, py) + h(x + 1, y)) by {
        lemma_raise_moves_term(s, x, y, i, -1, 0, px - 1, py, x + 1, y);
    }
    assert(at(t, px - 1, py + 1) == at(s, px - 1, py + 1) + h(x + 1, y - 1)) by {
        lemma_raise_moves_term(s, x, y, i, -1, 1, px - 1, py + 1, x + 1, y - 1);
    }
    assert(at(t, px, py - 1) == at(s, px, py - 1) + h(x, y + 1)) by {
        lemma_raise_moves_term(s, x, y, i, 0, -1, px, py - 1, x, y + 1);
    }
    assert(at(t, px, py + 1) == at(s, px, py + 1) + h(x, y - 1)) by {
        lemma_raise_moves_term(s, x, y, i, 0, 1, px, py + 1, x, y - 1);
    }
    assert(at(t, px + 1, py - 1) == at(s, px + 1, py - 1) + h(x - 1, y + 1)) by {
        lemma_raise_moves_term(s, x, y, i, 1, -1, px + 1, py - 1, x - 1, y + 1);
    }
    assert(at(t, px + 1, py) == at(s, px + 1, py) + h(x - 1, y)) by {
        lemma_raise_moves_term(s, x, y, i, 1, 0, px + 1, py, x - 1, y);
    }
    assert(at(t, px + 1, py + 1) == at(s, px + 1, py + 1) + h(x - 1, y - 1)) by {
        lemma_raise_moves_term(s, x, y, i, 1, 1, px + 1, py + 1, x - 1, y - 1);
    }
    assert(hits(x, y, 8, i) == h(x - 1, y - 1) + h(x - 1, y) + h(x - 1, y + 1) + h(x, y - 1) + h(
        x,
        y + 1,
    ) + h(x + 1, y - 1) + h(x + 1, y) + h(x + 1, y + 1)) by {
        lemma_hits_unfolded(x, y, i);
    }
}

/// A cell that is a neighbour of `(x, y)` is listed among its neighbours.
pub proof fn lemma_hit_is_listed(x: int, y: int, i: int)
    requires
        0 <= i < CELLS,
        hits(x, y, 8, i) != 0,
    ensures
        neighbours_of(x, y).contains((column(i), row(i))),
{
    reveal_with_fuel(hits, 9);
    let k = if neighbour_index(x, y, 0) == i {
        0int
    } else if neighbour_index(x, y, 1) == i {
        1int
    } else if neighbour_index(x, y, 2) == i {
        2int
    } else if neighbour_index(x, y, 3) == i {
        3int
    } else if neighbour_index(x, y, 4) == i {
        4int
    } else if neighbour_index(x, y, 5) == i {
        5int
    } else if neighbour_index(x, y, 6) == i {
        6int
    } else {
        7int
    };
    assert(neighbour_index(x, y, k) == i);
    lemma_neighbour_stored(x, y, k);
    lemma_cell_of_index(neighbour(x, y, k).0, neighbour(x, y, k).1);
    assert(neighbours_of(x, y)[k] == (column(i), row(i)));
}

/// No cell is its own neighbour.
pub proof fn lemma_no_self_hit(x: int, y: int)
    requires
        in_bounds(x, y),
    ensures
        hits(x, y, 8, index(x, y)) == 0,
{
    lemma_hits_unfolded(x, y, index(x, y));
    lemma_index_injective(x - 1, y - 1, x, y);
    lemma_index_injective(x - 1, y, x, y);
    lemma_index_injective(x - 1, y + 1, x, y);
    lemma_index_injective(x, y - 1, x, y);
    lemma_index_injective(x, y + 1, x, y);
    lemma_index_injective(x + 1, y - 1, x, y);
    lemma_index_injective(x + 1, y, x, y);
    lemma_index_injective(x + 1, y + 1, x, y);
    assert(wrap(x - 1) != x && wrap(x + 1) != x && wrap(y - 1) != y && wrap(y + 1) != y
        && wrap(x) == x && wrap(y) == y);
}

/// What the board `s` holds at the eight proper neighbours of `(x, y)`, in their order.
pub open spec fn around(s: Seq<int>, x: int, y: int) -> Seq<int> {
    Seq::new(8, |k: int| at(s, neighbour(x, y, k).0, neighbour(x, y, k).1))
}

/// The sum over the neighbours is the sum of what the board holds around the cell.
pub proof fn lemma_sum_around(s: Seq<int>, x: int, y: int)
    ensures
        neighbour_sum(s, x, y) == around(s, x, y)[0] + around(s, x, y)[1] + around(s, x, y)[2]
            + around(s, x, y)[3] + around(s, x, y)[4] + around(s, x, y)[5] + around(s, x, y)[6]
            + around(s, x, y)[7],
{
    let r = around(s, x, y);
    assert(r[0] == at(s, x - 1, y - 1)) by {
        lemma_neighbour_stored(x, y, 0);
    }
    assert(r[1] == at(s, x - 1, y)) by {
        lemma_neighbour_stored(x, y, 1);
    }
    assert(r[2] == at(s, x - 1, y + 1)) by {
        lemma_neighbour_stored(x, y, 2);
    }
    assert(r[3] == at(s, x, y - 1)) by {
        lemma_neighbour_stored(x, y, 3);
    }
    assert(r[4] == at(s, x, y + 1)) by {
        lemma_neighbour_stored(x, y, 4);
    }
    assert(r[5] == at(s, x + 1, y - 1)) by {
        lemma_neighbour_stored(x, y, 5);
    }
    assert(r[6] == at(s, x + 1, y)) by {
        lemma_neighbour_stored(x, y, 6);
    }
    assert(r[7] == at(s, x + 1, y + 1)) by {
        lemma_neighbour_stored(x, y, 7);
    }
}

} // verus!
