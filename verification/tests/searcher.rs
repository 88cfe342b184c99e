use reverse_life::grid::{Cell, Grid};
use reverse_life::searcher::{SearchResult, Searcher};
use reverse_life::torus::SIZE;

fn board(living: &[(i32, i32)]) -> Grid {
    let mut grid = Grid::default();
    for &(x, y) in living {
        grid.set(x, y, Cell::one());
    }
    grid
}

#[test]
fn fresh_searcher_knows_nothing() {
    let searcher = Searcher::new(board(&[(1, 1)]));
    assert!(!searcher.is_exhausted());
    let guess = searcher.current_guess();
    assert_eq!(guess.alive(), Grid::default());
    assert_eq!(guess.dead(), Grid::default());
    assert!(!guess.found_contradiction());
}

#[test]
fn budget_counts_actions() {
    let mut searcher = Searcher::new(Grid::default());
    assert!(matches!(searcher.search(1), SearchResult::Working(1)));
    assert!(matches!(searcher.search(10), SearchResult::Working(10)));
    // After eleven actions: a choice, then five cells guessed, each with the next choice.
    let guess = searcher.current_guess();
    assert_eq!(guess.dead().alive_cells(), vec![(0, 0), (0, 1), (0, 2), (0, 3), (0, 4)]);
    match searcher.search(1_000) {
        SearchResult::Found(grid, iterations) => {
            assert_eq!(grid, Grid::default());
            assert_eq!(iterations, 289 - 11);
        }
        _ => panic!("no predecessor found"),
    }
}

#[test]
fn budget_of_nothing_does_nothing() {
    let mut searcher = Searcher::new(Grid::default());
    assert!(matches!(searcher.search(0), SearchResult::Working(0)));
    assert_eq!(searcher.current_guess().dead(), Grid::default());
    assert!(matches!(searcher.search(2), SearchResult::Working(2)));
    let before = searcher.current_guess();
    assert_eq!(before.dead().alive_cells(), vec![(0, 0)]);
    assert!(matches!(searcher.search(0), SearchResult::Working(0)));
    assert!(matches!(searcher.search(0), SearchResult::Working(0)));
    let after = searcher.current_guess();
    assert_eq!(after.dead(), before.dead());
    assert_eq!(after.alive(), before.alive());
    // The search goes on as if nothing had been asked: 289 actions in all.
    match searcher.search(287) {
        SearchResult::Found(grid, iterations) => {
            assert_eq!(grid, Grid::default());
            assert_eq!(iterations, 287);
        }
        _ => panic!("no predecessor found"),
    }
}

#[test]
fn budget_is_never_exceeded() {
    for budget in [1usize, 2, 3, 10, 288, 289, 290] {
        let mut searcher = Searcher::new(Grid::default());
        match searcher.search(budget) {
            SearchResult::Found(_, iterations) => {
                assert!(budget >= 289);
                assert_eq!(iterations, 289);
            }
            SearchResult::Working(iterations) => {
                assert!(budget < 289);
                assert_eq!(iterations, budget);
            }
            SearchResult::Unsatisfiable => panic!("the search has only begun"),
        }
    }
}

#[test]
fn search_can_be_cut_anywhere() {
    let target = board(&[(5, 5), (6, 5), (5, 6), (6, 6)]);
    let mut whole = Searcher::new(target.clone());
    let (expected, total) = match whole.search(1_000_000) {
        SearchResult::Found(grid, iterations) => (grid, iterations),
        _ => panic!("no predecessor found"),
    };
    let mut pieces = Searcher::new(target.clone());
    let mut used = 0;
    let found = loop {
        match pieces.search(7) {
            SearchResult::Found(grid, iterations) => {
                used += iterations;
                break grid;
            }
            SearchResult::Working(iterations) => {
                assert_eq!(iterations, 7);
                used += iterations;
            }
            SearchResult::Unsatisfiable => panic!("no predecessor found"),
        }
    };
    assert_eq!(found, expected);
    assert_eq!(used, total);
}

#[test]
fn cells_far_from_the_living_are_decided_first() {
    let mut searcher = Searcher::new(board(&[(0, 0)]));
    // A choice and a guess: the first cell decided is the one furthest from (0, 0).
    assert!(matches!(searcher.search(2), SearchResult::Working(2)));
    let guess = searcher.current_guess();
    assert_eq!(guess.dead().alive_cells(), vec![(6, 6)]);
    assert_eq!(guess.alive(), Grid::default());
    // Next come the cells at distance eleven, in lexicographic order.
    assert!(matches!(searcher.search(4), SearchResult::Working(4)));
    let guess = searcher.current_guess();
    assert_eq!(guess.dead().alive_cells(), vec![(5, 6), (6, 5), (6, 6)]);
}

#[test]
fn every_solution_is_a_predecessor() {
    let target = board(&[(2, 1), (3, 2), (1, 3), (2, 3), (3, 3)]);
    let mut searcher = Searcher::new(target.clone());
    let mut solutions = Vec::new();
    let mut rounds = 0;
    while solutions.len() < 5 && rounds < 200 {
        rounds += 1;
        match searcher.search(50_000) {
            SearchResult::Found(mut grid, _) => {
                for x in 0..SIZE {
                    for y in 0..SIZE {
                        assert!(grid.get(x, y).value == 0 || grid.get(x, y).value == 1);
                    }
                }
                assert!(!solutions.contains(&grid));
                solutions.push(grid.clone());
                grid.step();
                assert_eq!(grid, target);
            }
            SearchResult::Working(_) => {}
            SearchResult::Unsatisfiable => break,
        }
    }
    assert!(!solutions.is_empty());
}
