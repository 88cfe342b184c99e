use reverse_life::chain::{Population, Sequence};
use reverse_life::grid::{Cell, Grid};
use reverse_life::render::render_chain;

fn board(living: &[(i32, i32)]) -> Grid {
    let mut grid = Grid::default();
    for &(x, y) in living {
        grid.set(x, y, Cell::one());
    }
    grid
}

fn successor(grid: &Grid) -> Grid {
    let mut next = grid.clone();
    next.step();
    next
}

fn assert_linked(grids: &[Grid]) {
    for pair in grids.windows(2) {
        assert_eq!(successor(&pair[1]), pair[0]);
    }
}

#[test]
fn new_sequence_is_the_target_alone() {
    let glider = board(&[(2, 1), (3, 2), (1, 3), (2, 3), (3, 3)]);
    let sequence = Sequence::new(glider.clone());
    assert_eq!(sequence.len(), 1);
    assert_eq!(sequence.grids(), vec![glider.clone()]);
    assert!(!sequence.is_terminated());
    // Five living cells and one frame.
    assert_eq!(sequence.key(), 4);
    assert_eq!(Sequence::new(Grid::default()).key(), -1);
    assert_eq!(sequence.render(), glider.render());
}

#[test]
fn turn_without_a_find_changes_no_chain() {
    let mut sequence = Sequence::new(Grid::default());
    let turn = sequence.advance(10);
    assert!(turn.child.is_none());
    assert_eq!(turn.iterations, 10);
    assert_eq!(sequence.len(), 1);
    assert!(!sequence.is_terminated());
}

#[test]
fn find_starts_a_longer_chain() {
    let target = Grid::default();
    let mut sequence = Sequence::new(target.clone());
    let turn = sequence.advance(1_000);
    assert_eq!(turn.iterations, 289);
    let child = turn.child.expect("a predecessor");
    assert_eq!(sequence.grids(), vec![target.clone()]);
    assert_eq!(child.grids(), vec![target.clone(), Grid::default()]);
    assert_eq!(child.len(), 2);
    assert_eq!(child.key(), -2);
    assert!(!child.is_terminated());
    // The sequence goes on with the next predecessor of its own.
    let turn = sequence.advance(1_000);
    let second = turn.child.expect("a second predecessor");
    assert_eq!(second.grids(), vec![target, board(&[(11, 11)])]);
    assert_eq!(second.key(), -1);
}

#[test]
fn population_grows_by_what_is_found() {
    let glider = board(&[(2, 1), (3, 2), (1, 3), (2, 3), (3, 3)]);
    let mut population = Population::new(glider.clone());
    assert_eq!(population.running(), 1);
    assert_eq!(population.terminated(), 0);
    assert_eq!(population.longest(), 1);
    assert_eq!(population.longest_chain(), Some(vec![glider.clone()]));
    let mut total = 0;
    for _ in 0..30 {
        let before = population.running();
        let report = population.macro_step(100, 20_000);
        total += report.iterations;
        assert_eq!(report.running, population.running());
        assert_eq!(report.terminated, population.terminated());
        assert_eq!(report.longest, population.longest());
        assert!(report.running >= before);
        assert!(report.running <= 2 * before);
        assert!(report.iterations <= 20_000 * before as u128);
        let chain = population.longest_chain().expect("a chain");
        assert_eq!(chain.len(), report.longest);
        assert_eq!(chain[0], glider);
        assert_linked(&chain);
        if report.longest >= 3 {
            break;
        }
    }
    assert!(population.longest() >= 3);
    assert!(total > 0);
}

#[test]
fn only_the_most_promising_have_a_turn() {
    let mut population = Population::new(Grid::default());
    // Two finds: the chains of the empty board and of a single cell come up.
    population.macro_step(10, 289);
    population.macro_step(10, 1_000);
    assert_eq!(population.running(), 4);
    assert_eq!(population.longest(), 3);
    // Keys: the target alone -1, with the empty board -2, with one cell -1, and two
    // empty boards -3. With room for two, the two longest chains of empty boards stay.
    let report = population.macro_step(2, 1);
    assert_eq!(report.running, 2);
    assert_eq!(report.iterations, 2);
    assert_eq!(report.longest, 3);
    population.macro_step(0, 1_000);
    assert_eq!(population.running(), 0);
    assert_eq!(population.longest(), 0);
    assert_eq!(population.longest_chain(), None);
}

#[test]
fn chain_renders_frame_after_frame() {
    let first = board(&[(1, 1)]);
    let second = board(&[(2, 2), (3, 3)]);
    assert_eq!(render_chain(&vec![]), "");
    assert_eq!(render_chain(&vec![first.clone()]), first.render());
    assert_eq!(
        render_chain(&vec![first.clone(), second.clone(), first.clone()]),
        format!("{}\n\n{}\n\n{}", first.render(), second.render(), first.render())
    );
}

#[test]
fn turn_without_a_budget_changes_nothing() {
    let mut sequence = Sequence::new(Grid::default());
    let turn = sequence.advance(0);
    assert!(turn.child.is_none());
    assert_eq!(turn.iterations, 0);
    assert!(!sequence.is_terminated());
    let turn = sequence.advance(289);
    assert_eq!(turn.iterations, 289);
    assert!(turn.child.is_some());
    let mut population = Population::new(Grid::default());
    let report = population.macro_step(10, 0);
    assert_eq!(report.iterations, 0);
    assert_eq!(report.running, 1);
    assert_eq!(report.longest, 1);
}

#[test]
fn first_of_the_longest_chains_is_shown() {
    let target = Grid::default();
    let mut population = Population::new(target.clone());
    population.macro_step(10, 289);
    population.macro_step(10, 1_000);
    assert_eq!(population.running(), 4);
    // The chain of three empty boards goes first and finds nothing in five actions; the
    // chain of two empty boards finds its second predecessor, a single cell, and so
    // starts another chain of three frames, which comes after it.
    let report = population.macro_step(10, 5);
    assert!(report.running >= 5);
    assert_eq!(report.longest, 3);
    assert_eq!(
        population.longest_chain(),
        Some(vec![target.clone(), Grid::default(), Grid::default()])
    );
    // The same turns, taken one by one.
    let mut first = Sequence::new(target.clone());
    let mut second = first.advance(289).child.expect("a predecessor");
    let third = second.advance(1_000).child.expect("a predecessor");
    assert_eq!(third.grids(), vec![target.clone(), Grid::default(), Grid::default()]);
    let other = second.advance(5).child.expect("a second predecessor");
    assert_eq!(other.grids(), vec![target.clone(), Grid::default(), board(&[(11, 11)])]);
}
