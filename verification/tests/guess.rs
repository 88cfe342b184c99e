use reverse_life::grid::{Cell, Grid};
use reverse_life::guess::Guess;
use reverse_life::torus::SIZE;
use std::ops::SubAssign;

fn board(living: &[(i32, i32)]) -> Grid {
    let mut grid = Grid::default();
    for &(x, y) in living {
        grid.set(x, y, Cell::one());
    }
    grid
}

/// Checks that no cell is both alive and dead and that the bounds are exact and ordered.
fn assert_invariants(guess: &Guess) {
    let alive = guess.alive();
    let dead = guess.dead();
    let mut upper = Grid::fill(Cell { value: 8 });
    upper.sub_assign(&dead.neighbours());
    assert_eq!(guess.min_neighbours(), alive.neighbours());
    assert_eq!(guess.max_neighbours(), upper);
    for x in 0..SIZE {
        for y in 0..SIZE {
            let a = alive.get(x, y).value;
            let d = dead.get(x, y).value;
            assert!(a == 0 || a == 1);
            assert!(d == 0 || d == 1);
            assert!(a + d <= 1);
            assert!(guess.min_neighbours().get(x, y).value <= guess.max_neighbours().get(x, y).value);
            assert_eq!(guess.guessed_alive(x, y), a == 1);
            assert_eq!(guess.guessed_dead(x, y), d == 1);
        }
    }
}

fn same(a: &Guess, b: &Guess) -> bool {
    a.alive() == b.alive() && a.dead() == b.dead() && a.min_neighbours() == b.min_neighbours()
        && a.max_neighbours() == b.max_neighbours() && a.try_alive() == b.try_alive()
        && a.try_dead() == b.try_dead() && a.found_contradiction() == b.found_contradiction()
}

#[test]
fn fresh_guess_knows_nothing() {
    let guess = Guess::default();
    assert!(!guess.found_contradiction());
    assert_eq!(guess.alive(), Grid::default());
    assert_eq!(guess.dead(), Grid::default());
    assert_eq!(guess.min_neighbours(), Grid::default());
    assert_eq!(guess.max_neighbours(), Grid::fill(Cell { value: 8 }));
    assert_eq!(guess.try_alive(), Grid::default());
    assert_eq!(guess.try_dead(), Grid::default());
    assert_invariants(&guess);
}

#[test]
fn one_guess_moves_the_bounds_of_the_neighbours() {
    let next = Grid::default();
    let mut guess = Guess::default();
    guess.guess_alive(&next, 0, 0);
    assert!(!guess.found_contradiction());
    assert!(guess.guessed_alive(0, 0));
    assert_eq!(guess.alive(), board(&[(0, 0)]));
    assert_eq!(guess.dead(), Grid::default());
    for (x, y) in Grid::neighbour_positions(0, 0) {
        assert_eq!(guess.min_neighbours().get(x, y).value, 1);
    }
    assert_eq!(guess.min_neighbours().get(0, 0).value, 0);
    assert_eq!(guess.min_neighbours().get(2, 2).value, 0);
    assert_eq!(guess.max_neighbours(), Grid::fill(Cell { value: 8 }));
    guess.guess_dead(&next, 11, 11);
    assert!(guess.guessed_dead(11, 11));
    assert_eq!(guess.max_neighbours().get(0, 0).value, 7);
    assert_eq!(guess.max_neighbours().get(10, 10).value, 7);
    assert_eq!(guess.max_neighbours().get(11, 11).value, 8);
    assert_invariants(&guess);
}

#[test]
fn invariants_hold_along_a_row_of_guesses() {
    let next = board(&[(2, 1), (3, 2), (1, 3), (2, 3), (3, 3)]);
    let earlier = board(&[(1, 1), (2, 2), (3, 2), (1, 3), (2, 3)]);
    let mut guess = Guess::default();
    for x in 0..SIZE {
        for y in 0..SIZE {
            if earlier.get(x, y).value > 0 {
                guess.guess_alive(&next, x, y);
            } else {
                guess.guess_dead(&next, x, y);
            }
            assert!(!guess.found_contradiction());
            assert_invariants(&guess);
        }
    }
    assert_eq!(guess.alive(), earlier);
}

#[test]
fn guessing_twice_is_guessing_once() {
    let next = board(&[(5, 5), (6, 5), (5, 6), (6, 6)]);
    let mut guess = Guess::default();
    for (x, y, alive) in [(5, 5, true), (0, 0, false), (6, 5, true), (4, 4, false), (7, 7, true)] {
        if alive {
            guess.guess_alive(&next, x, y);
        } else {
            guess.guess_dead(&next, x, y);
        }
        let once = guess.clone();
        if alive {
            guess.guess_alive(&next, x, y);
        } else {
            guess.guess_dead(&next, x, y);
        }
        assert!(same(&once, &guess));
        assert_invariants(&guess);
    }
}

#[test]
fn opposite_guess_is_a_contradiction_that_stays() {
    let next = Grid::default();
    let mut guess = Guess::default();
    guess.guess_alive(&next, 3, 3);
    assert!(!guess.found_contradiction());
    let before = guess.clone();
    guess.guess_dead(&next, 3, 3);
    assert!(guess.found_contradiction());
    // Nothing else has changed, and the contradiction is there to stay.
    assert_eq!(guess.alive(), before.alive());
    assert_eq!(guess.dead(), before.dead());
    assert_eq!(guess.min_neighbours(), before.min_neighbours());
    assert_eq!(guess.max_neighbours(), before.max_neighbours());
    let contradicted = guess.clone();
    guess.guess_dead(&next, 3, 3);
    assert!(same(&contradicted, &guess));
    guess.guess_alive(&next, 8, 8);
    assert!(guess.found_contradiction());
    assert_invariants(&guess);
}

#[test]
fn three_living_neighbours_must_give_birth() {
    // The target is empty, so a cell whose neighbours are decided with three alive is
    // a contradiction.
    let next = Grid::default();
    let mut guess = Guess::default();
    let around = Grid::neighbour_positions(5, 5);
    for &(x, y) in &around[..3] {
        guess.guess_alive(&next, x, y);
    }
    for &(x, y) in &around[3..7] {
        guess.guess_dead(&next, x, y);
    }
    assert_invariants(&guess);
    // With bounds of three and four, a cell that is dead next has four neighbours: the
    // one neighbour left is forced alive, which others cannot bear.
    assert!(guess.found_contradiction() || guess.guessed_alive(around[7].0, around[7].1));
}

#[test]
fn two_neighbours_at_most_force_the_cell_and_its_neighbours() {
    // The cell (5, 5) lives on; once six of its neighbours are dead it has at most two,
    // so it was alive and the two neighbours left were alive as well.
    let next = board(&[(5, 5)]);
    let mut guess = Guess::default();
    let around = Grid::neighbour_positions(5, 5);
    for &(x, y) in &around[..6] {
        guess.guess_dead(&next, x, y);
    }
    assert!(!guess.found_contradiction());
    assert!(guess.guessed_alive(5, 5));
    assert!(guess.guessed_alive(around[6].0, around[6].1));
    assert!(guess.guessed_alive(around[7].0, around[7].1));
    assert_invariants(&guess);
}

#[test]
fn exact_count_of_two_keeps_the_state() {
    // All neighbours of (5, 5) decided with two alive: the cell was what it is next.
    for lives_on in [true, false] {
        let next = if lives_on { board(&[(5, 5)]) } else { Grid::default() };
        // Far neighbours keep the target from objecting to the two living cells.
        let mut guess = Guess::default();
        let around = Grid::neighbour_positions(5, 5);
        guess.guess_alive(&next, around[0].0, around[0].1);
        guess.guess_alive(&next, around[7].0, around[7].1);
        for &(x, y) in &around[1..7] {
            guess.guess_dead(&next, x, y);
        }
        if !guess.found_contradiction() {
            assert_eq!(guess.guessed_alive(5, 5), lives_on);
            assert_eq!(guess.guessed_dead(5, 5), !lives_on);
        }
        assert_invariants(&guess);
    }
}

#[test]
fn born_cell_with_two_known_neighbours_gives_advice() {
    // (5, 5) is alive next and was dead; with two neighbours known alive the others
    // are worth trying alive.
    let next = board(&[(5, 5)]);
    let mut guess = Guess::default();
    guess.guess_dead(&next, 5, 5);
    guess.guess_alive(&next, 4, 4);
    assert_eq!(guess.try_alive(), Grid::default());
    guess.guess_alive(&next, 6, 4);
    assert!(!guess.found_contradiction());
    let advised = guess.try_alive();
    for (x, y) in Grid::neighbour_positions(5, 5) {
        let undecided = !guess.guessed_alive(x, y) && !guess.guessed_dead(x, y);
        if undecided {
            assert_eq!(advised.get(x, y).value, 1);
        }
    }
    assert_eq!(advised.get(5, 5).value, 0);
    assert_eq!(advised.get(9, 9).value, 0);
    assert_invariants(&guess);
}
