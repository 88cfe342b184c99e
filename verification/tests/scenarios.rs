use reverse_life::grid::{Cell, Grid};
use reverse_life::guess::Guess;
use reverse_life::searcher::{SearchResult, Searcher};
use reverse_life::torus::SIZE;

fn board(living: &[(i32, i32)]) -> Grid {
    let mut grid = Grid::default();
    for &(x, y) in living {
        grid.set(x, y, Cell::one());
    }
    grid
}

fn successor(grid: &Grid) -> Grid {
    let mut next = grid.clone();
    next.step();
    next
}

/// Runs the search until it finds a predecessor or gives up.
fn next_solution(searcher: &mut Searcher, rounds: usize) -> Option<Grid> {
    for _ in 0..rounds {
        match searcher.search(100_000) {
            SearchResult::Found(grid, _) => return Some(grid),
            SearchResult::Working(_) => {}
            SearchResult::Unsatisfiable => return None,
        }
    }
    panic!("the search did not come to an end");
}

#[test]
fn empty_target_has_the_empty_board_as_first_predecessor() {
    let target = Grid::default();
    let mut searcher = Searcher::new(target.clone());
    match searcher.search(100_000) {
        SearchResult::Found(grid, iterations) => {
            assert_eq!(grid, Grid::default());
            assert_eq!(iterations, 289);
        }
        _ => panic!("no predecessor found"),
    }
    // The search goes on with other boards that die out.
    let second = next_solution(&mut searcher, 10).expect("a second predecessor");
    assert_ne!(second, Grid::default());
    assert_eq!(successor(&second), target);
    assert_eq!(second.alive_cells(), vec![(SIZE - 1, SIZE - 1)]);
}

#[test]
fn all_dead_guess_has_exact_zero_bounds() {
    let next = Grid::default();
    let mut guess = Guess::default();
    for x in 0..SIZE {
        for y in 0..SIZE {
            guess.guess_dead(&next, x, y);
        }
    }
    assert!(!guess.found_contradiction());
    assert_eq!(guess.min_neighbours(), Grid::fill(Cell::zero()));
    assert_eq!(guess.max_neighbours(), Grid::fill(Cell::zero()));
    assert_eq!(guess.dead(), Grid::fill(Cell::one()));
    assert_eq!(guess.alive(), Grid::default());
    assert_eq!(successor(&guess.alive()), next);
}

/// Marks every cell of `board` in a fresh guess, in scan order.
fn guess_of(board: &Grid, next: &Grid) -> Guess {
    let mut guess = Guess::default();
    for x in 0..SIZE {
        for y in 0..SIZE {
            if board.get(x, y).value > 0 {
                guess.guess_alive(next, x, y);
            } else {
                guess.guess_dead(next, x, y);
            }
        }
    }
    guess
}

#[test]
fn glider_target_has_a_predecessor() {
    let glider = board(&[(2, 1), (3, 2), (1, 3), (2, 3), (3, 3)]);
    // The phase of the glider one step earlier.
    let earlier = board(&[(1, 1), (2, 2), (3, 2), (1, 3), (2, 3)]);
    assert_eq!(successor(&earlier), glider);
    // Propagation has nothing to object to a true predecessor.
    let guess = guess_of(&earlier, &glider);
    assert!(!guess.found_contradiction());
    assert_eq!(guess.alive(), earlier);

    let mut searcher = Searcher::new(glider.clone());
    let found = next_solution(&mut searcher, 100).expect("a predecessor of the glider");
    assert_eq!(successor(&found), glider);
    assert_eq!(found.alive_cells(), vec![(1, 2), (2, 3), (2, 4), (3, 1), (3, 2)]);
    // The earlier phase is the next one to be found.
    let second = next_solution(&mut searcher, 100).expect("a second predecessor");
    assert_eq!(second, earlier);
}

#[test]
fn single_live_cell_target() {
    let target = board(&[(5, 5)]);
    // Three cells that each die alone, around a cell that is born of them.
    let parents = board(&[(4, 4), (6, 4), (5, 6)]);
    assert_eq!(successor(&parents), target);
    let guess = guess_of(&parents, &target);
    assert!(!guess.found_contradiction());

    let mut searcher = Searcher::new(target.clone());
    let found = next_solution(&mut searcher, 1000).expect("a predecessor of the single cell");
    assert_eq!(successor(&found), target);
    assert!(!searcher.is_exhausted());
}

#[test]
fn block_target_has_the_block_as_predecessor() {
    let block = board(&[(4, 4), (5, 4), (4, 5), (5, 5)]);
    assert_eq!(successor(&block), block);
    let mut searcher = Searcher::new(block.clone());
    let mut seen = false;
    for _ in 0..50 {
        match next_solution(&mut searcher, 100) {
            Some(found) => {
                assert_eq!(successor(&found), block);
                if found == block {
                    seen = true;
                    break;
                }
            }
            None => break,
        }
    }
    assert!(seen);
}

#[test]
fn block_in_the_corner_comes_before_itself() {
    let block = board(&[(1, 1), (2, 1), (1, 2), (2, 2)]);
    assert_eq!(successor(&block), block);
    let guess = guess_of(&block, &block);
    assert!(!guess.found_contradiction());
    let mut searcher = Searcher::new(block.clone());
    let mut seen = false;
    for _ in 0..50 {
        match next_solution(&mut searcher, 100) {
            Some(found) => {
                assert_eq!(successor(&found), block);
                if found == block {
                    seen = true;
                    break;
                }
            }
            None => break,
        }
    }
    assert!(seen);
}

#[test]
fn living_cell_without_neighbours_is_a_contradiction() {
    let next = board(&[(5, 5)]);
    let mut guess = Guess::default();
    let around = Grid::neighbour_positions(5, 5);
    for &(x, y) in &around[..6] {
        guess.guess_dead(&next, x, y);
        assert!(!guess.found_contradiction());
    }
    // With one neighbour left the cell can no longer be alive on the next frame.
    guess.guess_dead(&next, around[6].0, around[6].1);
    assert!(guess.found_contradiction());
    guess.guess_dead(&next, around[7].0, around[7].1);
    guess.guess_alive(&next, 5, 5);
    assert!(guess.found_contradiction());
}
