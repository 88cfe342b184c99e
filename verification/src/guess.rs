//! A guess at the previous frame: what is known of each cell, and the bounds on the
//! number of living neighbours that follow from it.

use vstd::prelude::*;
use crate::grid::{positions, Cell, Grid};
use crate::propagation::{
    complement, constant, drain, hinted, hints_at, lemma_assign_orderly, lemma_drain_done,
    lemma_drain_step, lemma_fail_orderly, lemma_hint_orderly, lemma_rest_orderly,
    lemma_undecided_among_bounds, lemma_visit_orderly, propagate, range_rule, state_rule, visit,
    Knowledge, Work,
};
use crate::soundness::{extends, lemma_propagate_extends, lemma_propagate_settles, settled};
use crate::torus::{
    at, column, hits, in_bounds, index, lemma_cell_of_index, lemma_hits_bounds,
    lemma_index_in_range, lemma_neighbour_stored, lemma_neighbour_sum_of_state,
    lemma_raise_moves_sums, neighbour, neighbour_sum, neighbour_sums, neighbours_of, row, CELLS,
};

verus! {

/// A guess for what the previous frame could look like.
pub struct Guess {
    /// The cells known to have been alive on the previous frame.
    alive: Grid,
    /// The cells known to have been dead on the previous frame.
    dead: Grid,
    /// The least number of living neighbours that each cell can have had.
    min_neighbours: Grid,
    /// The greatest number of living neighbours that each cell can have had.
    max_neighbours: Grid,
    /// True once the guess is known to lead to a logical contradiction.
    found_contradiction: bool,
    /// The cells that the search should try alive.
    try_alive: Grid,
    /// The cells that the search should try dead.
    try_dead: Grid,
}

impl View for Guess {
    type V = Knowledge;

    closed spec fn view(&self) -> Knowledge {
        Knowledge {
            alive: self.alive@,
            dead: self.dead@,
            min_neighbours: self.min_neighbours@,
            max_neighbours: self.max_neighbours@,
            try_alive: self.try_alive@,
            try_dead: self.try_dead@,
            contradiction: self.found_contradiction,
        }
    }
}

/// A propagation as the code holds it: the queue is a vector of machine coordinates.
pub open spec fn working(known: Knowledge, queue: Seq<(i32, i32)>, failed: bool) -> Work {
    Work { known, queue: positions(queue), failed }
}

/// With nothing known, the bounds count no neighbour alive and none dead.
pub proof fn lemma_nothing_well_formed()
    ensures
        Knowledge::nothing().well_formed(),
        Knowledge::nothing().bounds_ordered(),
{
    let nothing = Knowledge::nothing();
    assert forall|i: int| 0 <= i < CELLS implies neighbour_sums(constant(0))[i] == 0 by {
        lemma_neighbour_sum_of_state(constant(0), column(i), row(i));
        lemma_zero_sum(column(i), row(i));
    }
    assert(nothing.min_neighbours =~= neighbour_sums(nothing.alive));
    assert(nothing.max_neighbours =~= complement(neighbour_sums(nothing.dead)));
}

/// The neighbours of a cell of the empty board sum to nothing.
proof fn lemma_zero_sum(x: int, y: int)
    ensures
        neighbour_sum(constant(0), x, y) == 0,
{
    lemma_index_in_range(x - 1, y - 1);
    lemma_index_in_range(x - 1, y);
    lemma_index_in_range(x - 1, y + 1);
    lemma_index_in_range(x, y - 1);
    lemma_index_in_range(x, y + 1);
    lemma_index_in_range(x + 1, y - 1);
    lemma_index_in_range(x + 1, y);
    lemma_index_in_range(x + 1, y + 1);
}

/// Exact bounds are ordered: a neighbour counts as alive or as dead, never as both.
pub proof fn lemma_bounds_ordered(known: Knowledge)
    requires
        known.well_formed(),
    ensures
        known.bounds_ordered(),
        forall|i: int| 0 <= i < CELLS ==> 0 <= #[trigger] known.min_neighbours[i] <= 8,
        forall|i: int| 0 <= i < CELLS ==> 0 <= #[trigger] known.max_neighbours[i] <= 8,
{
    assert forall|i: int| 0 <= i < CELLS implies 0 <= #[trigger] known.min_neighbours[i]
        <= known.max_neighbours[i] <= 8 by {
        let x = column(i);
        let y = row(i);
        lemma_index_in_range(x - 1, y - 1);
        lemma_index_in_range(x - 1, y);
        lemma_index_in_range(x - 1, y + 1);
        lemma_index_in_range(x, y - 1);
        lemma_index_in_range(x, y + 1);
        lemma_index_in_range(x + 1, y - 1);
        lemma_index_in_range(x + 1, y);
        lemma_index_in_range(x + 1, y + 1);
        assert(known.min_neighbours[i] == neighbour_sum(known.alive, x, y));
        assert(known.max_neighbours[i] == 8 - neighbour_sum(known.dead, x, y));
    }
}

impl Default for Guess {
    /// The guess that knows nothing.
    fn default() -> (guess: Guess)
        ensures
            guess@ == Knowledge::nothing(),
            guess.wf(),
    {
        let guess = Guess {
            alive: Grid::default(),
            dead: Grid::default(),
            min_neighbours: Grid::default(),
            max_neighbours: Grid::fill(Cell { value: 8 }),
            found_contradiction: false,
            try_alive: Grid::default(),
            try_dead: Grid::default(),
        };
        proof {
            lemma_nothing_well_formed();
        }
        guess
    }
}

impl Clone for Guess {
    fn clone(&self) -> (copy: Guess)
        ensures
            copy == *self,
    {
        Guess {
            alive: self.alive.clone(),
            dead: self.dead.clone(),
            min_neighbours: self.min_neighbours.clone(),
            max_neighbours: self.max_neighbours.clone(),
            found_contradiction: self.found_contradiction,
            try_alive: self.try_alive.clone(),
            try_dead: self.try_dead.clone(),
        }
    }
}

impl Guess {
    /// The invariant of a guess: see [`Knowledge::well_formed`].
    pub open spec fn wf(&self) -> bool {
        self@.well_formed()
    }

    /// The cells known to have been alive.
    pub fn alive(&self) -> (grid: Grid)
        ensures
            grid@ == self@.alive,
    {
        self.alive.clone()
    }

    /// The cells known to have been dead.
    pub fn dead(&self) -> (grid: Grid)
        ensures
            grid@ == self@.dead,
    {
        self.dead.clone()
    }

    /// The lower bounds on the number of living neighbours.
    pub fn min_neighbours(&self) -> (grid: Grid)
        ensures
            grid@ == self@.min_neighbours,
    {
        self.min_neighbours.clone()
    }

    /// The upper bounds on the number of living neighbours.
    pub fn max_neighbours(&self) -> (grid: Grid)
        ensures
            grid@ == self@.max_neighbours,
    {
        self.max_neighbours.clone()
    }

    /// The cells that the search is advised to try alive.
    pub fn try_alive(&self) -> (grid: Grid)
        ensures
            grid@ == self@.try_alive,
    {
        self.try_alive.clone()
    }

    /// The cells that the search is advised to try dead.
    pub fn try_dead(&self) -> (grid: Grid)
        ensures
            grid@ == self@.try_dead,
    {
        self.try_dead.clone()
    }

    /// Whether the cell at the reduced coordinates `(x, y)` is known to have been alive.
    pub fn guessed_alive(&self, x: i32, y: i32) -> (known: bool)
        requires
            in_bounds(x as int, y as int),
        ensures
            known == (at(self@.alive, x as int, y as int) > 0),
    {
        self.alive.get(x, y).value > 0
    }

    /// Whether the cell at the reduced coordinates `(x, y)` is known to have been dead.
    pub fn guessed_dead(&self, x: i32, y: i32) -> (known: bool)
        requires
            in_bounds(x as int, y as int),
        ensures
            known == (at(self@.dead, x as int, y as int) > 0),
    {
        self.dead.get(x, y).value > 0
    }

    /// Whether a contradiction has been found.
    pub fn found_contradiction(&self) -> (found: bool)
        ensures
            found == self@.contradiction,
    {
        self.found_contradiction
    }

    /// Latches the contradiction.
    fn fail(&mut self) -> (result: Result<(), ()>)
        ensures
            final(self)@ == old(self)@.contradicted(),
            result is Err,
    {
        self.found_contradiction = true;
        Err(())
    }

    /// Marks the cell `(x, y)` alive, unless it is decided already, and queues its neighbours.
    fn guess_alive_with_queue(&mut self, x: i32, y: i32, queue: &mut Vec<(i32, i32)>) -> (result:
        Result<(), ()>)
        requires
            working(old(self)@, old(queue)@, false).orderly(),
            in_bounds(x as int, y as int),
        ensures
            working(final(self)@, final(queue)@, result is Err) == working(
                old(self)@,
                old(queue)@,
                false,
            ).assign_alive(x as int, y as int),
            working(final(self)@, final(queue)@, false).orderly(),
    {
        let ghost before = self@;
        let ghost queued = positions(queue@);
        proof {
            lemma_assign_orderly(working(before, queue@, false), x as int, y as int, true);
            lemma_fail_orderly(working(before, queue@, false));
            lemma_bounds_ordered(before);
            lemma_cell_of_index(x as int, y as int);
        }
        if self.dead.get(x, y).value > 0 {
            return self.fail();
        }
        if self.alive.get(x, y).value > 0 {
            return Ok(());
        }
        self.alive.set(x, y, Cell::one());
        let around = Grid::neighbour_positions(x, y);
        let mut k: usize = 0;
        proof {
            assert(positions(queue@) =~= queued + neighbours_of(x as int, y as int).take(0));
        }
        while k < 8
            invariant
                k <= 8,
                in_bounds(x as int, y as int),
                forall|j: int|
                    0 <= j < 8 ==> (#[trigger] around@[j]).0 == neighbour(x as int, y as int, j).0
                        && around@[j].1 == neighbour(x as int, y as int, j).1,
                self@ == (Knowledge {
                    alive: before.alive.update(index(x as int, y as int), 1),
                    min_neighbours: self.min_neighbours@,
                    ..before
                }),
                forall|i: int|
                    0 <= i < CELLS ==> #[trigger] self.min_neighbours@[i]
                        == before.min_neighbours[i] + hits(x as int, y as int, k as int, i),
                forall|i: int| 0 <= i < CELLS ==> 0 <= #[trigger] before.min_neighbours[i] <= 8,
                positions(queue@) == queued + neighbours_of(x as int, y as int).take(k as int),
            decreases 8 - k,
        {
            let (x2, y2) = around[k];
            let ghost counts = self.min_neighbours@;
            let ghost waiting = queue@;
            proof {
                lemma_neighbour_stored(x as int, y as int, k as int);
                lemma_hits_bounds(x as int, y as int, k as int, index(x2 as int, y2 as int));
                lemma_cell_of_index(x2 as int, y2 as int);
                assert(at(counts, x2 as int, y2 as int) == counts[index(x2 as int, y2 as int)]);
            }
            self.min_neighbours.set_add(x2, y2, Cell::one());
            queue.push((x2, y2));
            proof {
                assert(positions(queue@) =~= positions(waiting).push((x2 as int, y2 as int)));
                assert(neighbours_of(x as int, y as int).take(k + 1) =~= neighbours_of(
                    x as int,
                    y as int,
                ).take(k as int).push((x2 as int, y2 as int)));
                assert forall|i: int| 0 <= i < CELLS implies #[trigger] self.min_neighbours@[i]
                    == before.min_neighbours[i] + hits(x as int, y as int, k + 1, i) by {
                    assert(counts[i] == before.min_neighbours[i] + hits(
                        x as int,
                        y as int,
                        k as int,
                        i,
                    ));
                }
            }
            k = k + 1;
        }
        proof {
            let marked = before.alive.update(index(x as int, y as int), 1);
            assert forall|i: int| 0 <= i < CELLS implies self.min_neighbours@[i] == neighbour_sums(
                marked,
            )[i] by {
                lemma_raise_moves_sums(before.alive, x as int, y as int, i);
            }
            assert(self.min_neighbours@ =~= neighbour_sums(marked));
            assert(neighbours_of(x as int, y as int).take(8) =~= neighbours_of(x as int, y as int));
            assert(self@ == before.with_alive(x as int, y as int));
        }
        Ok(())
    }

    /// Marks the cell `(x, y)` dead, unless it is decided already, and queues its neighbours.
    fn guess_dead_with_queue(&mut self, x: i32, y: i32, queue: &mut Vec<(i32, i32)>) -> (result:
        Result<(), ()>)
        requires
            working(old(self)@, old(queue)@, false).orderly(),
            in_bounds(x as int, y as int),
        ensures
            working(final(self)@, final(queue)@, result is Err) == working(
                old(self)@,
                old(queue)@,
                false,
            ).assign_dead(x as int, y as int),
            working(final(self)@, final(queue)@, false).orderly(),
    {
        let ghost before = self@;
        let ghost queued = positions(queue@);
        proof {
            lemma_assign_orderly(working(before, queue@, false), x as int, y as int, false);
            lemma_fail_orderly(working(before, queue@, false));
            lemma_bounds_ordered(before);
            lemma_cell_of_index(x as int, y as int);
        }
        if self.alive.get(x, y).value > 0 {
            return self.fail();
        }
        if self.dead.get(x, y).value > 0 {
            return Ok(());
        }
        self.dead.set(x, y, Cell::one());
        let around = Grid::neighbour_positions(x, y);
        let mut k: usize = 0;
        proof {
            assert(positions(queue@) =~= queued + neighbours_of(x as int, y as int).take(0));
        }
        while k < 8
            invariant
                k <= 8,
                in_bounds(x as int, y as int),
                forall|j: int|
                    0 <= j < 8 ==> (#[trigger] around@[j]).0 == neighbour(x as int, y as int, j).0
                        && around@[j].1 == neighbour(x as int, y as int, j).1,
                self@ == (Knowledge {
                    dead: before.dead.update(index(x as int, y as int), 1),
                    max_neighbours: self.max_neighbours@,
                    ..before
                }),
                forall|i: int|
                    0 <= i < CELLS ==> #[trigger] self.max_neighbours@[i]
                        == before.max_neighbours[i] - hits(x as int, y as int, k as int, i),
                forall|i: int| 0 <= i < CELLS ==> 0 <= #[trigger] before.max_neighbours[i] <= 8,
                positions(queue@) == queued + neighbours_of(x as int, y as int).take(k as int),
            decreases 8 - k,
        {
            let (x2, y2) = around[k];
            let ghost counts = self.max_neighbours@;
            let ghost waiting = queue@;
            proof {
                lemma_neighbour_stored(x as int, y as int, k as int);
                lemma_hits_bounds(x as int, y as int, k as int, index(x2 as int, y2 as int));
                lemma_cell_of_index(x2 as int, y2 as int);
                assert(at(counts, x2 as int, y2 as int) == counts[index(x2 as int, y2 as int)]);
            }
            self.max_neighbours.set_add(x2, y2, Cell::neg_one());
            queue.push((x2, y2));
            proof {
                assert(positions(queue@) =~= positions(waiting).push((x2 as int, y2 as int)));
                assert(neighbours_of(x as int, y as int).take(k + 1) =~= neighbours_of(
                    x as int,
                    y as int,
                ).take(k as int).push((x2 as int, y2 as int)));
                assert forall|i: int| 0 <= i < CELLS implies #[trigger] self.max_neighbours@[i]
                    == before.max_neighbours[i] - hits(x as int, y as int, k + 1, i) by {
                    assert(counts[i] == before.max_neighbours[i] - hits(
                        x as int,
                        y as int,
                        k as int,
                        i,
                    ));
                }
            }
            k = k + 1;
        }
        proof {
            let marked = before.dead.update(index(x as int, y as int), 1);
            assert forall|i: int| 0 <= i < CELLS implies self.max_neighbours@[i] == complement(
                neighbour_sums(marked),
            )[i] by {
                lemma_raise_moves_sums(before.dead, x as int, y as int, i);
            }
            assert(self.max_neighbours@ =~= complement(neighbour_sums(marked)));
            assert(neighbours_of(x as int, y as int).take(8) =~= neighbours_of(x as int, y as int));
            assert(self@ == before.with_dead(x as int, y as int));
        }
        Ok(())
    }

    /// Marks every undecided neighbour of `(x, y)` alive.
    fn guess_neighbours_alive_with_queue(
        &mut self,
        x: i32,
        y: i32,
        queue: &mut Vec<(i32, i32)>,
    ) -> (result: Result<(), ()>)
        requires
            working(old(self)@, old(queue)@, false).orderly(),
        ensures
            working(final(self)@, final(queue)@, result is Err) == working(
                old(self)@,
                old(queue)@,
                false,
            ).force_neighbours(x as int, y as int, true, 0),
            working(final(self)@, final(queue)@, false).orderly(),
    {
        let ghost start = working(self@, queue@, false);
        let around = Grid::neighbour_positions(x, y);
        let mut k: usize = 0;
        while k < 8
            invariant
                k <= 8,
                forall|j: int|
                    0 <= j < 8 ==> (#[trigger] around@[j]).0 == neighbour(x as int, y as int, j).0
                        && around@[j].1 == neighbour(x as int, y as int, j).1,
                working(self@, queue@, false).orderly(),
                working(self@, queue@, false).force_neighbours(x as int, y as int, true, k as int)
                    == start.force_neighbours(x as int, y as int, true, 0),
            decreases 8 - k,
        {
            let (x2, y2) = around[k];
            proof {
                lemma_neighbour_stored(x as int, y as int, k as int);
            }
            if self.dead.get(x2, y2).value == 0 && self.alive.get(x2, y2).value == 0 {
                match self.guess_alive_with_queue(x2, y2, queue) {
                    Ok(()) => {},
                    Err(()) => {
                        return Err(());
                    },
                }
            }
            k = k + 1;
        }
        Ok(())
    }

    /// Marks every undecided neighbour of `(x, y)` dead.
    fn guess_neighbours_dead_with_queue(
        &mut self,
        x: i32,
        y: i32,
        queue: &mut Vec<(i32, i32)>,
    ) -> (result: Result<(), ()>)
        requires
            working(old(self)@, old(queue)@, false).orderly(),
        ensures
            working(final(self)@, final(queue)@, result is Err) == working(
                old(self)@,
                old(queue)@,
                false,
            ).force_neighbours(x as int, y as int, false, 0),
            working(final(self)@, final(queue)@, false).orderly(),
    {
        let ghost start = working(self@, queue@, false);
        let around = Grid::neighbour_positions(x, y);
        let mut k: usize = 0;
        while k < 8
            invariant
                k <= 8,
                forall|j: int|
                    0 <= j < 8 ==> (#[trigger] around@[j]).0 == neighbour(x as int, y as int, j).0
                        && around@[j].1 == neighbour(x as int, y as int, j).1,
                working(self@, queue@, false).orderly(),
                working(self@, queue@, false).force_neighbours(x as int, y as int, false, k as int)
                    == start.force_neighbours(x as int, y as int, false, 0),
            decreases 8 - k,
        {
            let (x2, y2) = around[k];
            proof {
                lemma_neighbour_stored(x as int, y as int, k as int);
            }
            if self.dead.get(x2, y2).value == 0 && self.alive.get(x2, y2).value == 0 {
                match self.guess_dead_with_queue(x2, y2, queue) {
                    Ok(()) => {},
                    Err(()) => {
                        return Err(());
                    },
                }
            }
            k = k + 1;
        }
        Ok(())
    }

    /// Marks the first undecided neighbour of `(x, y)` alive.
    fn guess_first_neighbour_alive_with_queue(
        &mut self,
        x: i32,
        y: i32,
        queue: &mut Vec<(i32, i32)>,
    ) -> (result: Result<(), ()>)
        requires
            working(old(self)@, old(queue)@, false).orderly(),
        ensures
            working(final(self)@, final(queue)@, result is Err) == working(
                old(self)@,
                old(queue)@,
                false,
            ).force_first_neighbour_alive(x as int, y as int, 0),
            working(final(self)@, final(queue)@, false).orderly(),
    {
        let ghost start = working(self@, queue@, false);
        let around = Grid::neighbour_positions(x, y);
        let mut k: usize = 0;
        while k < 8
            invariant
                k <= 8,
                forall|j: int|
                    0 <= j < 8 ==> (#[trigger] around@[j]).0 == neighbour(x as int, y as int, j).0
                        && around@[j].1 == neighbour(x as int, y as int, j).1,
                working(self@, queue@, false) == start,
                start == working(old(self)@, old(queue)@, false),
                start.orderly(),
                start.force_first_neighbour_alive(x as int, y as int, k as int)
                    == start.force_first_neighbour_alive(x as int, y as int, 0),
            decreases 8 - k,
        {
            let (x2, y2) = around[k];
            proof {
                lemma_neighbour_stored(x as int, y as int, k as int);
            }
            if self.dead.get(x2, y2).value == 0 && self.alive.get(x2, y2).value == 0 {
                proof {
                    assert(start.known.undecided(x2 as int, y2 as int));
                    assert(neighbour(x as int, y as int, k as int) == (x2 as int, y2 as int));
                    assert(start.force_first_neighbour_alive(x as int, y as int, k as int)
                        == start.assign_alive(x2 as int, y2 as int));
                }
                let result = self.guess_alive_with_queue(x2, y2, queue);
                return result;
            }
            k = k + 1;
        }
        Ok(())
    }

    /// Advises the search to try every undecided neighbour of `(x, y)` alive, or dead.
    fn hint_neighbours(&mut self, x: i32, y: i32, alive: bool, queue: &Vec<(i32, i32)>)
        requires
            working(old(self)@, queue@, false).orderly(),
        ensures
            working(final(self)@, queue@, false) == working(old(self)@, queue@, false).hint_neighbours(
                x as int,
                y as int,
                alive,
            ),
            working(final(self)@, queue@, false).orderly(),
    {
        let ghost before = self@;
        let around = Grid::neighbour_positions(x, y);
        let mut k: usize = 0;
        proof {
            lemma_hint_orderly(working(before, queue@, false), x as int, y as int, alive);
        }
        while k < 8
            invariant
                k <= 8,
                before.well_formed(),
                forall|j: int|
                    0 <= j < 8 ==> (#[trigger] around@[j]).0 == neighbour(x as int, y as int, j).0
                        && around@[j].1 == neighbour(x as int, y as int, j).1,
                self@ == (Knowledge {
                    try_alive: self.try_alive@,
                    try_dead: self.try_dead@,
                    ..before
                }),
                alive ==> self.try_dead@ == before.try_dead,
                !alive ==> self.try_alive@ == before.try_alive,
                alive ==> forall|i: int|
                    0 <= i < CELLS ==> #[trigger] self.try_alive@[i] == if hinted(
                        before,
                        x as int,
                        y as int,
                        k as int,
                        i,
                    ) {
                        1
                    } else {
                        before.try_alive[i]
                    },
                !alive ==> forall|i: int|
                    0 <= i < CELLS ==> #[trigger] self.try_dead@[i] == if hinted(
                        before,
                        x as int,
                        y as int,
                        k as int,
                        i,
                    ) {
                        1
                    } else {
                        before.try_dead[i]
                    },
            decreases 8 - k,
        {
            let (x2, y2) = around[k];
            let ghost marks_alive = self.try_alive@;
            let ghost marks_dead = self.try_dead@;
            proof {
                lemma_neighbour_stored(x as int, y as int, k as int);
                lemma_cell_of_index(x2 as int, y2 as int);
            }
            let undecided = self.dead.get(x2, y2).value == 0 && self.alive.get(x2, y2).value == 0;
            if undecided {
                if alive {
                    self.try_alive.set(x2, y2, Cell::one());
                } else {
                    self.try_dead.set(x2, y2, Cell::one());
                }
            }
            proof {
                assert(undecided == before.undecided(x2 as int, y2 as int));
                assert forall|i: int| 0 <= i < CELLS implies hinted(
                    before,
                    x as int,
                    y as int,
                    k + 1,
                    i,
                ) == (hinted(before, x as int, y as int, k as int, i) || hints_at(
                    before,
                    x as int,
                    y as int,
                    k as int,
                    i,
                )) by {
                    if hinted(before, x as int, y as int, k + 1, i) {
                        let j = choose|j: int|
                            0 <= j < k + 1 && #[trigger] hints_at(before, x as int, y as int, j, i);
                        if j < k {
                            assert(hinted(before, x as int, y as int, k as int, i));
                        }
                    }
                    if hinted(before, x as int, y as int, k as int, i) {
                        let j = choose|j: int|
                            0 <= j < k && #[trigger] hints_at(before, x as int, y as int, j, i);
                        assert(hints_at(before, x as int, y as int, j, i));
                    }
                    if hints_at(before, x as int, y as int, k as int, i) {
                        assert(hinted(before, x as int, y as int, k + 1, i));
                    }
                }
                if alive {
                    assert forall|i: int| 0 <= i < CELLS implies #[trigger] self.try_alive@[i]
                        == if hinted(before, x as int, y as int, k + 1, i) {
                        1
                    } else {
                        before.try_alive[i]
                    } by {
                        assert(marks_alive[i] == if hinted(before, x as int, y as int, k as int, i) {
                            1
                        } else {
                            before.try_alive[i]
                        });
                    }
                } else {
                    assert forall|i: int| 0 <= i < CELLS implies #[trigger] self.try_dead@[i]
                        == if hinted(before, x as int, y as int, k + 1, i) {
                        1
                    } else {
                        before.try_dead[i]
                    } by {
                        assert(marks_dead[i] == if hinted(before, x as int, y as int, k as int, i) {
                            1
                        } else {
                            before.try_dead[i]
                        });
                    }
                }
            }
            k = k + 1;
        }
        proof {
            let advised = working(before, queue@, false).hint_neighbours(x as int, y as int, alive);
            if alive {
                assert(self.try_alive@ =~= advised.known.try_alive);
            } else {
                assert(self.try_dead@ =~= advised.known.try_dead);
            }
        }
    }

    /// Draws every consequence of the bounds of the cell `(x, y)` against the frame `next`.
    fn visit(&mut self, next: &Grid, x: i32, y: i32, queue: &mut Vec<(i32, i32)>) -> (result:
        Result<(), ()>)
        requires
            working(old(self)@, old(queue)@, false).orderly(),
            in_bounds(x as int, y as int),
        ensures
            working(final(self)@, final(queue)@, result is Err) == visit(
                working(old(self)@, old(queue)@, false),
                next@,
                x as int,
                y as int,
            ),
            working(final(self)@, final(queue)@, false).orderly(),
    {
        let ghost start = working(self@, queue@, false);
        let min = self.min_neighbours.get(x, y).value;
        let max = self.max_neighbours.get(x, y).value;
        let next_state = next.get(x, y).value;
        proof {
            reveal(visit);
            reveal(state_rule);
            lemma_fail_orderly(start);
        }

        if min == max {
            // Every neighbour is decided.
            if min == 3 {
                // The cell must be alive next frame.
                if next_state == 0 {
                    return self.fail();
                }
                return Ok(());
            } else if min == 2 {
                if next_state > 0 {
                    // The cell is alive next frame, so it was alive.
                    let result = self.guess_alive_with_queue(x, y, queue);
                    return result;
                } else {
                    // The cell is dead next frame, so it was dead.
                    let result = self.guess_dead_with_queue(x, y, queue);
                    return result;
                }
            } else {
                // The cell must be dead next frame.
                if next_state > 0 {
                    return self.fail();
                }
                return Ok(());
            }
        }
        // Bounds that leave the count open.

        let ranged = self.visit_range(next_state, min, max, x, y, queue);
        if ranged.is_err() {
            return ranged;
        }
        // What the state of the cell itself adds, for a cell that lives on the next frame.

        self.visit_state(next_state, min, max, x, y, queue)
    }

    /// The deductions from bounds that differ: see [`range_rule`].
    fn visit_range(
        &mut self,
        next_state: i32,
        min: i32,
        max: i32,
        x: i32,
        y: i32,
        queue: &mut Vec<(i32, i32)>,
    ) -> (result: Result<(), ()>)
        requires
            working(old(self)@, old(queue)@, false).orderly(),
            in_bounds(x as int, y as int),
        ensures
            working(final(self)@, final(queue)@, result is Err) == range_rule(
                working(old(self)@, old(queue)@, false),
                x as int,
                y as int,
                min as int,
                max as int,
                next_state as int,
            ),
            working(final(self)@, final(queue)@, false).orderly(),
    {
        proof {
            reveal(range_rule);
            lemma_fail_orderly(working(self@, queue@, false));
        }
        if max < 2 || min > 3 {
            // This cell must be dead on the next frame, whatever it was before.
            if next_state > 0 {
                return self.fail();
            }
        } else if max == 2 {
            if next_state > 0 {
                // It can only be alive on the next frame if it was alive, and then all
                // of its remaining neighbours were alive too.
                let own = self.guess_alive_with_queue(x, y, queue);
                if own.is_err() {
                    return own;
                }
                let result = self.guess_neighbours_alive_with_queue(x, y, queue);
                return result;
            } else if min == 2 {
                // Dead on the next frame with exactly two neighbours: it was dead.
                let result = self.guess_dead_with_queue(x, y, queue);
                return result;
            }
        } else if min == 3 {
            if next_state > 0 {
                // It can only be alive on the next frame with exactly three living
                // neighbours: the undecided ones were dead.
                let result = self.guess_neighbours_dead_with_queue(x, y, queue);
                return result;
            } else if max == 4 {
                // Dead on the next frame with at least three neighbours: it had four,
                // and the one neighbour left undecided was alive.
                let result = self.guess_first_neighbour_alive_with_queue(x, y, queue);
                return result;
            }
        }
        Ok(())
    }

    /// The deductions from the state of the cell itself: see [`state_rule`].
    fn visit_state(
        &mut self,
        next_state: i32,
        min: i32,
        max: i32,
        x: i32,
        y: i32,
        queue: &mut Vec<(i32, i32)>,
    ) -> (result: Result<(), ()>)
        requires
            working(old(self)@, old(queue)@, false).orderly(),
            in_bounds(x as int, y as int),
        ensures
            working(final(self)@, final(queue)@, result is Err) == state_rule(
                working(old(self)@, old(queue)@, false),
                x as int,
                y as int,
                min as int,
                max as int,
                next_state as int,
            ),
            working(final(self)@, final(queue)@, false).orderly(),
    {
        let previously_dead = self.dead.get(x, y).value;
        let previously_alive = self.alive.get(x, y).value;
        proof {
            reveal(state_rule);
        }
        if next_state > 0 && previously_dead > 0 {
            // This cell comes alive on the next frame: it has exactly three neighbours.
            if min == 3 {
                let result = self.guess_neighbours_dead_with_queue(x, y, queue);
                return result;
            } else if max == 3 {
                let result = self.guess_neighbours_alive_with_queue(x, y, queue);
                return result;
            } else if min == 2 {
                self.hint_neighbours(x, y, true, queue);
            } else if max == 4 {
                self.hint_neighbours(x, y, false, queue);
            }
        } else if next_state > 0 && previously_alive > 0 {
            // This cell remains alive: it has two or three neighbours.
            if min == 3 {
                let result = self.guess_neighbours_dead_with_queue(x, y, queue);
                return result;
            } else if max == 2 {
                let result = self.guess_neighbours_alive_with_queue(x, y, queue);
                return result;
            }
        }
        Ok(())
    }

    /// Looks at the queued cells, the last one first, until none is left or a
    /// contradiction is found.
    fn propagate_constraints(&mut self, next: &Grid, queue: Vec<(i32, i32)>) -> (result: Result<
        (),
        (),
    >)
        requires
            working(old(self)@, queue@, false).orderly(),
        ensures
            final(self)@ == drain(working(old(self)@, queue@, false), next@).known,
            (result is Err) == drain(working(old(self)@, queue@, false), next@).failed,
            final(self).wf(),
    {
        let ghost start = working(self@, queue@, false);
        let mut pending = queue;
        loop
            invariant
                start == working(old(self)@, queue@, false),
                working(self@, pending@, false).orderly(),
                drain(working(self@, pending@, false), next@) == drain(start, next@),
            decreases working(self@, pending@, false).measure(),
        {
            let ghost now = working(self@, pending@, false);
            match pending.pop() {
                None => {
                    proof {
                        lemma_drain_done(now, next@);
                    }
                    return Ok(());
                },
                Some((x, y)) => {
                    proof {
                        lemma_rest_orderly(now);
                        lemma_drain_step(now, next@);
                        assert(positions(pending@) =~= now.queue.drop_last());
                        assert(now.queue.last() == (x as int, y as int));
                        assert(working(self@, pending@, false) == now.rest());
                        lemma_visit_orderly(now.rest(), next@, x as int, y as int);
                    }
                    let result = self.visit(next, x, y, &mut pending);
                    if result.is_err() {
                        proof {
                            lemma_drain_done(working(self@, pending@, true), next@);
                        }
                        return result;
                    }
                    proof {
                        let after = working(self@, pending@, false);
                        assert(after == visit(now.rest(), next@, x as int, y as int));
                        assert(after.measure() < now.measure());
                        lemma_undecided_among_bounds(self@, CELLS as int);
                    }
                },
            }
        }
    }

    /// Adjusts this guess with the additional information that the cell at the reduced
    /// coordinates `(x, y)` was alive, and propagates what follows against `next`.
    pub fn guess_alive(&mut self, next: &Grid, x: i32, y: i32)
        requires
            old(self).wf(),
            in_bounds(x as int, y as int),
        ensures
            final(self)@ == propagate(old(self)@, next@, x as int, y as int, true),
            final(self).wf(),
            final(self)@.never_both(),
            final(self)@.min_counts_alive(),
            final(self)@.max_counts_dead(),
            final(self)@.bounds_ordered(),
            extends(old(self)@, final(self)@),
            !final(self)@.contradiction ==> at(final(self)@.alive, x as int, y as int) == 1,
            settled(old(self)@, next@) && !final(self)@.contradiction ==> settled(
                final(self)@,
                next@,
            ),
    {
        proof {
            reveal(propagate);
            lemma_propagate_extends(self@, next@, x as int, y as int, true);
            lemma_propagate_settles(self@, next@, x as int, y as int, true);
        }
        let mut queue: Vec<(i32, i32)> = Vec::new();
        proof {
            assert(positions(queue@) =~= Seq::<(int, int)>::empty());
            lemma_fail_orderly(Work::start(self@));
        }
        let ghost start = Work::start(self@);
        proof {
            assert(working(self@, queue@, false) == start);
        }
        let assigned = self.guess_alive_with_queue(x, y, &mut queue);
        if assigned.is_ok() {
            let _ = self.propagate_constraints(next, queue);
        } else {
            proof {
                lemma_drain_done(start.assign(x as int, y as int, true), next@);
            }
        }
        proof {
            lemma_bounds_ordered(self@);
        }
    }

    /// Adjusts this guess with the additional information that the cell at the reduced
    /// coordinates `(x, y)` was dead, and propagates what follows against `next`.
    pub fn guess_dead(&mut self, next: &Grid, x: i32, y: i32)
        requires
            old(self).wf(),
            in_bounds(x as int, y as int),
        ensures
            final(self)@ == propagate(old(self)@, next@, x as int, y as int, false),
            final(self).wf(),
            final(self)@.never_both(),
            final(self)@.min_counts_alive(),
            final(self)@.max_counts_dead(),
            final(self)@.bounds_ordered(),
            extends(old(self)@, final(self)@),
            !final(self)@.contradiction ==> at(final(self)@.dead, x as int, y as int) == 1,
            settled(old(self)@, next@) && !final(self)@.contradiction ==> settled(
                final(self)@,
                next@,
            ),
    {
        proof {
            reveal(propagate);
            lemma_propagate_extends(self@, next@, x as int, y as int, false);
            lemma_propagate_settles(self@, next@, x as int, y as int, false);
        }
        let mut queue: Vec<(i32, i32)> = Vec::new();
        proof {
            assert(positions(queue@) =~= Seq::<(int, int)>::empty());
            lemma_fail_orderly(Work::start(self@));
        }
        let ghost start = Work::start(self@);
        proof {
            assert(working(self@, queue@, false) == start);
        }
        let assigned = self.guess_dead_with_queue(x, y, &mut queue);
        if assigned.is_ok() {
            let _ = self.propagate_constraints(next, queue);
        } else {
            proof {
                lemma_drain_done(start.assign(x as int, y as int, false), next@);
            }
        }
        proof {
            lemma_bounds_ordered(self@);
        }
    }
}

} // verus!
