use reverse_life::grid::{wrap_coordinate, Cell, Grid};
use reverse_life::grid::SIZE;
use reverse_life::torus::CELLS;
use std::ops::{AddAssign, SubAssign};

fn board(living: &[(i32, i32)]) -> Grid {
    let mut grid = Grid::default();
    for &(x, y) in living {
        grid.set(x, y, Cell::one());
    }
    grid
}

#[test]
fn cell_constants_and_arithmetic() {
    assert_eq!(Cell::neg_one().value, -1);
    assert_eq!(Cell::zero().value, 0);
    assert_eq!(Cell::one().value, 1);
    assert_eq!(Cell::default(), Cell::zero());
    assert_eq!((Cell { value: 5 } + Cell { value: 3 }).value, 8);
    assert_eq!((Cell { value: 5 } - Cell { value: 8 }).value, -3);
    let mut cell = Cell { value: 2 };
    cell += Cell::one();
    assert_eq!(cell.value, 3);
    cell -= Cell { value: 5 };
    assert_eq!(cell.value, -2);
    assert!(Cell::zero() < Cell::one());
}

#[test]
fn board_has_the_stated_size() {
    assert_eq!(SIZE, 12);
    assert_eq!(CELLS, 144);
}

#[test]
fn fill_and_default() {
    let eights = Grid::fill(Cell { value: 8 });
    let zeros = Grid::default();
    for x in 0..SIZE {
        for y in 0..SIZE {
            assert_eq!(eights.get(x, y).value, 8);
            assert_eq!(zeros.get(x, y).value, 0);
        }
    }
    assert_eq!(zeros, Grid::fill(Cell::zero()));
    assert_ne!(zeros, eights);
    assert_eq!(eights.clone(), eights);
}

#[test]
fn set_changes_one_cell() {
    let mut grid = Grid::default();
    grid.set(3, 7, Cell { value: 5 });
    for x in 0..SIZE {
        for y in 0..SIZE {
            let expected = if (x, y) == (3, 7) { 5 } else { 0 };
            assert_eq!(grid.get(x, y).value, expected);
        }
    }
}

#[test]
fn wrapped_access_reduces_coordinates() {
    let mut grid = Grid::default();
    grid.set_wrapped(-1, 12, Cell { value: 7 });
    assert_eq!(grid.get(11, 0).value, 7);
    assert_eq!(grid.get_wrapped(-1, 0).value, 7);
    assert_eq!(grid.get_wrapped(11, -12).value, 7);
    assert_eq!(grid.get_wrapped(23, 24).value, 7);
    assert_eq!(grid.get_wrapped(-13, -24).value, 7);
    assert_eq!(grid.get_wrapped(i32::MAX, 0).value, 0);
    assert_eq!(grid.get_wrapped(i32::MIN, i32::MIN).value, 0);
    // 2147483647 = 12 * 178956970 + 7 and -2147483648 = 12 * -178956971 + 4.
    grid.set_wrapped(i32::MAX, i32::MIN, Cell { value: 9 });
    assert_eq!(grid.get(7, 4).value, 9);
}

#[test]
fn set_add_adds_to_one_cell() {
    let mut grid = Grid::fill(Cell { value: 2 });
    grid.set_add(4, 5, Cell { value: 3 });
    grid.set_add_wrapped(-8, 17, Cell::neg_one());
    assert_eq!(grid.get(4, 5).value, 4);
    grid.set_add_wrapped(12, 12, Cell { value: 10 });
    assert_eq!(grid.get(0, 0).value, 12);
    assert_eq!(grid.get(1, 1).value, 2);
}

#[test]
fn grids_add_and_subtract_cell_by_cell() {
    let mut grid = Grid::fill(Cell { value: 3 });
    let mut other = Grid::default();
    other.set(2, 9, Cell { value: 4 });
    grid += &other;
    assert_eq!(grid.get(2, 9).value, 7);
    assert_eq!(grid.get(9, 2).value, 3);
    grid -= &other;
    grid -= &other;
    assert_eq!(grid.get(2, 9).value, -1);
    assert_eq!(grid.get(9, 2).value, 3);
    grid.add_assign(&other);
    grid.sub_assign(&Grid::fill(Cell { value: 3 }));
    assert_eq!(grid, Grid::default());
}

#[test]
fn neighbour_positions_come_in_a_fixed_order() {
    assert_eq!(
        Grid::neighbour_positions(5, 7),
        [(4, 6), (4, 7), (4, 8), (5, 6), (5, 8), (6, 6), (6, 7), (6, 8)]
    );
}

#[test]
fn neighbour_positions_wrap_at_every_edge() {
    assert_eq!(
        Grid::neighbour_positions(0, 0),
        [(11, 11), (11, 0), (11, 1), (0, 11), (0, 1), (1, 11), (1, 0), (1, 1)]
    );
    assert_eq!(
        Grid::neighbour_positions(11, 11),
        [(10, 10), (10, 11), (10, 0), (11, 10), (11, 0), (0, 10), (0, 11), (0, 0)]
    );
    assert_eq!(Grid::neighbour_positions(12, -12), Grid::neighbour_positions(0, 0));
}

#[test]
fn alive_cells_are_listed_column_by_column() {
    let mut grid = board(&[(3, 1), (0, 5), (3, 0), (11, 11)]);
    grid.set(7, 7, Cell { value: 4 });
    grid.set(8, 8, Cell::neg_one());
    assert_eq!(grid.alive_cells(), vec![(0, 5), (3, 0), (3, 1), (7, 7), (11, 11)]);
    assert!(Grid::default().alive_cells().is_empty());
}

#[test]
fn neighbours_count_the_living_cells_around() {
    let grid = board(&[(5, 5), (6, 5), (5, 6)]);
    let counts = grid.neighbours();
    assert_eq!(counts.get(5, 5).value, 2);
    assert_eq!(counts.get(6, 6).value, 3);
    assert_eq!(counts.get(4, 4).value, 1);
    assert_eq!(counts.get(7, 5).value, 1);
    assert_eq!(counts.get(8, 8).value, 0);
}

#[test]
fn neighbours_at_the_edges_are_those_across_the_torus() {
    // The same three cells around the corner and in the middle of the board.
    let corner = board(&[(0, 0), (11, 0), (0, 11)]).neighbours();
    let middle = board(&[(6, 6), (5, 6), (6, 5)]).neighbours();
    for dx in -2..=2 {
        for dy in -2..=2 {
            assert_eq!(
                corner.get_wrapped(dx, dy).value,
                middle.get_wrapped(6 + dx, 6 + dy).value
            );
        }
    }
    assert_eq!(corner.get(11, 11).value, 3);
    assert_eq!(corner.get(0, 0).value, 2);
    // A full board: every cell has eight living neighbours.
    assert_eq!(Grid::fill(Cell::one()).neighbours(), Grid::fill(Cell { value: 8 }));
}

#[test]
fn neighbours_are_sums_of_values() {
    let mut grid = Grid::default();
    grid.set(2, 2, Cell { value: 5 });
    grid.set(3, 3, Cell { value: -2 });
    let sums = grid.neighbours();
    assert_eq!(sums.get(2, 3).value, 3);
    assert_eq!(sums.get(2, 2).value, -2);
    assert_eq!(sums.get(3, 3).value, 5);
    assert_eq!(sums.get(1, 1).value, 5);
}

#[test]
fn step_turns_a_blinker() {
    let mut grid = board(&[(4, 5), (5, 5), (6, 5)]);
    grid.step();
    assert_eq!(grid, board(&[(5, 4), (5, 5), (5, 6)]));
    grid.step();
    assert_eq!(grid, board(&[(4, 5), (5, 5), (6, 5)]));
}

#[test]
fn step_follows_the_rule_for_every_count() {
    // A living cell with two neighbours survives, a dead one with three is born.
    let mut grid = board(&[(0, 0), (11, 11), (1, 1)]);
    grid.step();
    assert_eq!(grid, board(&[(0, 0)]));
    let mut crowded = board(&[(5, 5), (4, 4), (6, 4), (4, 6), (6, 6)]);
    crowded.step();
    assert_eq!(crowded.get(5, 5).value, 0);
    // Values above one count as alive, and the result holds states only.
    let mut heavy = Grid::default();
    heavy.set(5, 5, Cell { value: 7 });
    heavy.set(4, 5, Cell::one());
    heavy.set(6, 5, Cell::one());
    heavy.step();
    assert_eq!(heavy.get(5, 5).value, 1);
}

#[test]
fn successor_has_counts_between_zero_and_eight() {
    let mut grid = Grid::default();
    for x in 0..SIZE {
        for y in 0..SIZE {
            grid.set(x, y, Cell { value: (x * 7 + y * 3) % 5 - 1 });
        }
    }
    grid.step();
    let counts = grid.neighbours();
    for x in 0..SIZE {
        for y in 0..SIZE {
            assert!(grid.get(x, y).value == 0 || grid.get(x, y).value == 1);
            assert!((0..=8).contains(&counts.get(x, y).value));
        }
    }
}

#[test]
fn parse_reads_spaces_and_full_stops_as_dead() {
    let grid = Grid::parse(".O.\n..#\nxxx\n");
    assert_eq!(grid, board(&[(1, 0), (2, 1), (0, 2), (1, 2), (2, 2)]));
    assert_eq!(Grid::parse(" . \n\n.. ."), Grid::default());
    assert_eq!(Grid::parse(""), Grid::default());
}

#[test]
fn parse_wraps_long_lines_and_many_rows() {
    // The thirteenth character of a line falls on the first column again.
    assert_eq!(Grid::parse("............O"), board(&[(0, 0)]));
    assert_eq!(Grid::parse("O...........  "), Grid::default());
    assert_eq!(Grid::parse("O............"), Grid::default());
    // The thirteenth line falls on the first row again.
    let text = "\n".repeat(12) + ".O";
    assert_eq!(Grid::parse(&text), board(&[(1, 0)]));
    let text = "OO\n".to_string() + &"\n".repeat(11) + ".";
    assert_eq!(Grid::parse(&text), board(&[(1, 0)]));
}

#[test]
fn parse_takes_line_ends_of_both_kinds() {
    assert_eq!(Grid::parse("O.\r\n.O\r\n"), board(&[(0, 0), (1, 1)]));
    // A carriage return that ends the text is a character like any other.
    assert_eq!(Grid::parse(".\n.\r"), board(&[(1, 1)]));
    // Characters of more than one byte are one cell each.
    assert_eq!(Grid::parse("█.█"), board(&[(0, 0), (2, 0)]));
}

#[test]
fn coordinates_reduce_to_the_board() {
    assert_eq!(wrap_coordinate(0), 0);
    assert_eq!(wrap_coordinate(11), 11);
    assert_eq!(wrap_coordinate(12), 0);
    assert_eq!(wrap_coordinate(25), 1);
    assert_eq!(wrap_coordinate(-1), 11);
    assert_eq!(wrap_coordinate(-12), 0);
    assert_eq!(wrap_coordinate(-13), 11);
    assert_eq!(wrap_coordinate(i32::MAX), 7);
    assert_eq!(wrap_coordinate(i32::MIN), 4);
}

#[test]
fn states_and_population() {
    let mut grid = board(&[(1, 1), (2, 2), (11, 0)]);
    assert!(grid.is_state());
    assert!(Grid::default().is_state());
    assert_eq!(grid.population(), 3);
    assert_eq!(Grid::default().population(), 0);
    grid.set(5, 5, Cell { value: 2 });
    assert!(!grid.is_state());
    assert_eq!(grid.population(), 4);
    grid.set(5, 5, Cell::neg_one());
    assert!(!grid.is_state());
    assert_eq!(grid.population(), 3);
    assert!(Grid::parse("ab.\n c").is_state());
}

#[test]
fn grids_are_ordered_cell_by_cell() {
    let empty = Grid::default();
    let early = board(&[(1, 0)]);
    let late = board(&[(0, 1)]);
    assert!(empty < early);
    assert!(empty < late);
    // The cell (1, 0) is stored before the cell (0, 1), and decides.
    assert!(late < early);
    assert!(early >= early.clone());
    assert_eq!(empty.cmp(&early), std::cmp::Ordering::Less);
    assert_eq!(early.partial_cmp(&late), Some(std::cmp::Ordering::Greater));
    assert_eq!(late.clone().max(early.clone()), early);
    let mut grids = vec![early.clone(), empty.clone(), late.clone()];
    grids.sort();
    assert_eq!(grids, vec![empty, late, early]);
}
