//! What a guess knows about the previous frame, and what follows from it.
//!
//! This module is the mathematical model of [`crate::guess::Guess`]: the state as plain
//! sequences, the deductions that one cell of the target allows, and the result of
//! propagating them until nothing is left to look at.

use vstd::prelude::*;
use crate::torus::{
    at, column, in_bounds, index, lemma_index_in_range, neighbour, neighbour_sums, neighbours_of,
    row, CELLS,
};

verus! {

/// A partial assignment of the previous frame with its derived bounds.
pub struct Knowledge {
    /// 1 where the cell is known to have been alive, else 0.
    pub alive: Seq<int>,
    /// 1 where the cell is known to have been dead, else 0.
    pub dead: Seq<int>,
    /// Lower bound on the number of living neighbours of each cell.
    pub min_neighbours: Seq<int>,
    /// Upper bound on the number of living neighbours of each cell.
    pub max_neighbours: Seq<int>,
    /// 1 where the search is advised to try the cell alive next.
    pub try_alive: Seq<int>,
    /// 1 where the search is advised to try the cell dead next.
    pub try_dead: Seq<int>,
    /// Whether some rule has been violated.
    pub contradiction: bool,
}

/// The board that holds `8 - s[i]` at every cell.
pub open spec fn complement(s: Seq<int>) -> Seq<int> {
    Seq::new(CELLS as nat, |i: int| 8 - s[i])
}

/// The board that holds `value` at every cell.
pub open spec fn constant(value: int) -> Seq<int> {
    Seq::new(CELLS as nat, |i: int| value)
}

impl Knowledge {
    /// Nothing is known: every cell is undecided, with between 0 and 8 living neighbours.
    pub open spec fn nothing() -> Knowledge {
        Knowledge {
            alive: constant(0),
            dead: constant(0),
            min_neighbours: constant(0),
            max_neighbours: constant(8),
            try_alive: constant(0),
            try_dead: constant(0),
            contradiction: false,
        }
    }

    /// The six boards have the size of the board, and the marks are 0 or 1.
    pub open spec fn well_shaped(self) -> bool {
        &&& self.alive.len() == CELLS
        &&& self.dead.len() == CELLS
        &&& self.min_neighbours.len() == CELLS
        &&& self.max_neighbours.len() == CELLS
        &&& self.try_alive.len() == CELLS
        &&& self.try_dead.len() == CELLS
        &&& forall|i: int| 0 <= i < CELLS ==> 0 <= #[trigger] self.alive[i] <= 1
        &&& forall|i: int| 0 <= i < CELLS ==> 0 <= #[trigger] self.dead[i] <= 1
        &&& forall|i: int| 0 <= i < CELLS ==> 0 <= #[trigger] self.try_alive[i] <= 1
        &&& forall|i: int| 0 <= i < CELLS ==> 0 <= #[trigger] self.try_dead[i] <= 1
    }

    /// No cell is known to be both alive and dead.
    pub open spec fn never_both(self) -> bool {
        forall|i: int|
            #![trigger self.alive[i]]
            #![trigger self.dead[i]]
            0 <= i < CELLS ==> self.alive[i] + self.dead[i] <= 1
    }

    /// The lower bound of a cell is the number of its neighbours known to be alive.
    pub open spec fn min_counts_alive(self) -> bool {
        self.min_neighbours == neighbour_sums(self.alive)
    }

    /// The upper bound of a cell is 8 less the number of its neighbours known to be dead.
    pub open spec fn max_counts_dead(self) -> bool {
        self.max_neighbours == complement(neighbour_sums(self.dead))
    }

    /// The lower bound of a cell never exceeds its upper bound.
    pub open spec fn bounds_ordered(self) -> bool {
        forall|i: int|
            0 <= i < CELLS ==> #[trigger] self.min_neighbours[i] <= self.max_neighbours[i]
    }

    /// The invariant of a guess: its marks are consistent and its bounds are exact.
    pub open spec fn well_formed(self) -> bool {
        &&& self.well_shaped()
        &&& self.never_both()
        &&& self.min_counts_alive()
        &&& self.max_counts_dead()
    }

    /// Whether the cell at `(x, y)` is neither known alive nor known dead.
    pub open spec fn undecided(self, x: int, y: int) -> bool {
        at(self.alive, x, y) == 0 && at(self.dead, x, y) == 0
    }

    /// Whether every cell is known alive or known dead.
    pub open spec fn complete(self) -> bool {
        forall|i: int| 0 <= i < CELLS ==> !#[trigger] self.undecided(column(i), row(i))
    }

    /// The knowledge with the cell `(x, y)` marked alive and the lower bounds brought up to date.
    pub open spec fn with_alive(self, x: int, y: int) -> Knowledge {
        let alive = self.alive.update(index(x, y), 1);
        Knowledge { alive, min_neighbours: neighbour_sums(alive), ..self }
    }

    /// The knowledge with the cell `(x, y)` marked dead and the upper bounds brought up to date.
    pub open spec fn with_dead(self, x: int, y: int) -> Knowledge {
        let dead = self.dead.update(index(x, y), 1);
        Knowledge { dead, max_neighbours: complement(neighbour_sums(dead)), ..self }
    }

    /// The knowledge with the contradiction latched.
    pub open spec fn contradicted(self) -> Knowledge {
        Knowledge { contradiction: true, ..self }
    }
}

/// Propagation under way: what is known, the cells whose bounds have changed and are
/// still to be looked at (the last one first), and whether a contradiction stopped it.
pub struct Work {
    pub known: Knowledge,
    pub queue: Seq<(int, int)>,
    pub failed: bool,
}

impl Work {
    /// The start of a propagation from `known`, with nothing to look at yet.
    pub open spec fn start(known: Knowledge) -> Work {
        Work { known, queue: Seq::empty(), failed: false }
    }

    /// Stops the propagation on a contradiction.
    pub open spec fn fail(self) -> Work {
        Work { known: self.known.contradicted(), failed: true, ..self }
    }

    /// Asserts that the cell `(x, y)` was alive. A cell known dead is a contradiction, a
    /// cell known alive changes nothing, and an undecided cell is marked and sends its
    /// eight neighbours to the queue.
    pub open spec fn assign_alive(self, x: int, y: int) -> Work {
        if self.failed {
            self
        } else if at(self.known.dead, x, y) > 0 {
            self.fail()
        } else if at(self.known.alive, x, y) > 0 {
            self
        } else {
            Work { known: self.known.with_alive(x, y), queue: self.queue + neighbours_of(x, y), ..self }
        }
    }

    /// Asserts that the cell `(x, y)` was dead, symmetrically to [`Work::assign_alive`].
    pub open spec fn assign_dead(self, x: int, y: int) -> Work {
        if self.failed {
            self
        } else if at(self.known.alive, x, y) > 0 {
            self.fail()
        } else if at(self.known.dead, x, y) > 0 {
            self
        } else {
            Work { known: self.known.with_dead(x, y), queue: self.queue + neighbours_of(x, y), ..self }
        }
    }

    /// Asserts that the cell `(x, y)` was alive or dead, as `alive` says.
    pub open spec fn assign(self, x: int, y: int, alive: bool) -> Work {
        if alive {
            self.assign_alive(x, y)
        } else {
            self.assign_dead(x, y)
        }
    }

    /// Asserts the same state of every neighbour of `(x, y)` that is still undecided,
    /// from the `from`-th neighbour on.
    pub open spec fn force_neighbours(self, x: int, y: int, alive: bool, from: int) -> Work
        decreases 8 - from,
    {
        if from >= 8 || from < 0 || self.failed {
            self
        } else {
            let n = neighbour(x, y, from);
            let next = if self.known.undecided(n.0, n.1) {
                self.assign(n.0, n.1, alive)
            } else {
                self
            };
            next.force_neighbours(x, y, alive, from + 1)
        }
    }

    /// Asserts that the first undecided neighbour of `(x, y)`, from the `from`-th on, was alive.
    pub open spec fn force_first_neighbour_alive(self, x: int, y: int, from: int) -> Work
        decreases 8 - from,
    {
        if from >= 8 || from < 0 || self.failed {
            self
        } else {
            let n = neighbour(x, y, from);
            if self.known.undecided(n.0, n.1) {
                self.assign_alive(n.0, n.1)
            } else {
                self.force_first_neighbour_alive(x, y, from + 1)
            }
        }
    }

    /// Advises the search to try every undecided neighbour of `(x, y)` alive, or dead.
    pub open spec fn hint_neighbours(self, x: int, y: int, alive: bool) -> Work {
        let marked = |previous: Seq<int>|
            Seq::new(
                CELLS as nat,
                |i: int|
                    if hinted(self.known, x, y, 8, i) {
                        1
                    } else {
                        previous[i]
                    },
            );
        if self.failed {
            self
        } else if alive {
            Work { known: Knowledge { try_alive: marked(self.known.try_alive), ..self.known }, ..self }
        } else {
            Work { known: Knowledge { try_dead: marked(self.known.try_dead), ..self.known }, ..self }
        }
    }
}

/// Whether the `k`-th neighbour of `(x, y)` is undecided and stored at `i`.
pub open spec fn hints_at(known: Knowledge, x: int, y: int, k: int, i: int) -> bool {
    index(neighbour(x, y, k).0, neighbour(x, y, k).1) == i && known.undecided(
        neighbour(x, y, k).0,
        neighbour(x, y, k).1,
    )
}

/// Whether the cell stored at `i` is an undecided neighbour of `(x, y)`, among the first `upto`.
pub open spec fn hinted(known: Knowledge, x: int, y: int, upto: int, i: int) -> bool {
    exists|k: int| 0 <= k < upto && #[trigger] hints_at(known, x, y, k, i)
}

/// What follows for a cell all of whose neighbours are decided, so that it had exactly
/// `count` living neighbours, when the target holds `target` there.
pub open spec fn exact_rule(work: Work, x: int, y: int, count: int, target: int) -> Work {
    if count == 3 {
        // The cell is alive in the next frame.
        if target == 0 {
            work.fail()
        } else {
            work
        }
    } else if count == 2 {
        // The cell keeps its state.
        work.assign(x, y, target > 0)
    } else {
        // The cell is dead in the next frame.
        if target > 0 {
            work.fail()
        } else {
            work
        }
    }
}

/// What follows for a cell that had between `min` and `max` living neighbours, some of
/// its neighbours being undecided, when the target holds `target` there.
#[verifier::opaque]
pub open spec fn range_rule(work: Work, x: int, y: int, min: int, max: int, target: int) -> Work {
    if max < 2 || min > 3 {
        // Too few or too many neighbours: the cell is dead in the next frame.
        if target > 0 {
            work.fail()
        } else {
            work
        }
    } else if max == 2 {
        if target > 0 {
            // Alive with at most two neighbours: it was alive and has exactly two.
            work.assign_alive(x, y).force_neighbours(x, y, true, 0)
        } else if min == 2 {
            // Dead with exactly two neighbours: it was dead.
            work.assign_dead(x, y)
        } else {
            work
        }
    } else if min == 3 {
        if target > 0 {
            // Alive with at least three neighbours: it has exactly three.
            work.force_neighbours(x, y, false, 0)
        } else if max == 4 {
            // Dead with three or four neighbours: it has four.
            work.force_first_neighbour_alive(x, y, 0)
        } else {
            work
        }
    } else {
        work
    }
}

/// What follows for a cell that is alive in the target once its own previous state is known.
#[verifier::opaque]
pub open spec fn state_rule(work: Work, x: int, y: int, min: int, max: int, target: int) -> Work {
    if work.failed || !(target > 0) {
        work
    } else if at(work.known.dead, x, y) > 0 {
        // Born: it has exactly three neighbours.
        if min == 3 {
            work.force_neighbours(x, y, false, 0)
        } else if max == 3 {
            work.force_neighbours(x, y, true, 0)
        } else if min == 2 {
            work.hint_neighbours(x, y, true)
        } else if max == 4 {
            work.hint_neighbours(x, y, false)
        } else {
            work
        }
    } else if at(work.known.alive, x, y) > 0 {
        // Survives: it has two or three neighbours.
        if min == 3 {
            work.force_neighbours(x, y, false, 0)
        } else if max == 2 {
            work.force_neighbours(x, y, true, 0)
        } else {
            work
        }
    } else {
        work
    }
}

/// Everything that follows from looking at the cell `(x, y)` against the board `target`.
/// The bounds are read once, before any deduction is applied.
#[verifier::opaque]
pub open spec fn visit(work: Work, target: Seq<int>, x: int, y: int) -> Work {
    let min = at(work.known.min_neighbours, x, y);
    let max = at(work.known.max_neighbours, x, y);
    let wanted = at(target, x, y);
    if min == max {
        exact_rule(work, x, y, min, wanted)
    } else {
        state_rule(range_rule(work, x, y, min, max, wanted), x, y, min, max, wanted)
    }
}

/// Number of undecided cells among the first `n` stored.
pub open spec fn undecided_among(known: Knowledge, n: int) -> int
    decreases n,
{
    if n <= 0 {
        0
    } else {
        undecided_among(known, n - 1) + if known.alive[n - 1] == 0 && known.dead[n - 1] == 0 {
            1int
        } else {
            0int
        }
    }
}

impl Work {
    /// The knowledge is well formed, the queue holds reduced coordinates only, and a
    /// propagation that was stopped has latched its contradiction.
    pub open spec fn orderly(self) -> bool {
        &&& self.known.well_formed()
        &&& self.failed ==> self.known.contradiction
        &&& forall|j: int|
            0 <= j < self.queue.len() ==> in_bounds(
                (#[trigger] self.queue[j]).0,
                self.queue[j].1,
            )
    }

    /// What bounds the rest of a propagation: every undecided cell can still send its
    /// eight neighbours to the queue, once.
    pub open spec fn measure(self) -> int {
        8 * undecided_among(self.known, CELLS as int) + self.queue.len()
    }

    /// The work without the cell that is looked at next.
    pub open spec fn rest(self) -> Work {
        Work { queue: self.queue.drop_last(), ..self }
    }
}

/// Looks at the queued cells, the last one first, until the queue is empty or a
/// contradiction is found.
#[verifier::opaque]
pub open spec fn drain(work: Work, target: Seq<int>) -> Work
    decreases work.measure(),
    when work.orderly()
{
    if work.failed || work.queue.len() == 0 {
        work
    } else {
        let cell = work.queue.last();
        proof {
            lemma_rest_orderly(work);
            lemma_visit_orderly(work.rest(), target, cell.0, cell.1);
            lemma_undecided_among_bounds(work.known, CELLS as int);
            lemma_undecided_among_bounds(
                visit(work.rest(), target, cell.0, cell.1).known,
                CELLS as int,
            );
        }
        drain(visit(work.rest(), target, cell.0, cell.1), target)
    }
}

/// Nothing is left to do once the queue is empty or a contradiction was found.
pub proof fn lemma_drain_done(work: Work, target: Seq<int>)
    requires
        work.orderly(),
        work.failed || work.queue.len() == 0,
    ensures
        drain(work, target) == work,
{
    reveal(drain);
}

/// Otherwise the last cell of the queue is looked at, and the rest follows.
pub proof fn lemma_drain_step(work: Work, target: Seq<int>)
    requires
        work.orderly(),
        !work.failed,
        work.queue.len() > 0,
    ensures
        drain(work, target) == drain(
            visit(work.rest(), target, work.queue.last().0, work.queue.last().1),
            target,
        ),
{
    let cell = work.queue.last();
    lemma_rest_orderly(work);
    lemma_visit_orderly(work.rest(), target, cell.0, cell.1);
    reveal(drain);

}

/// What is known after asserting that the cell `(x, y)` was alive (or dead) and
/// propagating every consequence against the board `target`.
#[verifier::opaque]
pub open spec fn propagate(
    known: Knowledge,
    target: Seq<int>,
    x: int,
    y: int,
    alive: bool,
) -> Knowledge {
    drain(Work::start(known).assign(x, y, alive), target).known
}

/// There are between none and `n` undecided cells among the first `n`.
pub proof fn lemma_undecided_among_bounds(known: Knowledge, n: int)
    requires
        0 <= n,
    ensures
        0 <= undecided_among(known, n) <= n,
    decreases n,
{
    if n > 0 {
        lemma_undecided_among_bounds(known, n - 1);
    }
}

/// Taking the next cell off the queue keeps the work orderly and lowers its measure.
pub proof fn lemma_rest_orderly(work: Work)
    requires
        work.orderly(),
        work.queue.len() > 0,
    ensures
        work.rest().orderly(),
        work.rest().measure() == work.measure() - 1,
        in_bounds(work.queue.last().0, work.queue.last().1),
{
    assert forall|j: int| 0 <= j < work.rest().queue.len() implies in_bounds(
        (#[trigger] work.rest().queue[j]).0,
        work.rest().queue[j].1,
    ) by {
        assert(work.rest().queue[j] == work.queue[j]);
    }
    lemma_undecided_same_marks(work.known, work.rest().known, CELLS as int);
}

/// Marking a cell among the first `n` changes how many of them are undecided by one.
proof fn lemma_undecided_after_mark(before: Knowledge, after: Knowledge, i: int, n: int)
    requires
        0 <= i < CELLS,
        0 <= n <= CELLS,
        before.alive.len() == CELLS,
        before.dead.len() == CELLS,
        before.alive[i] == 0 && before.dead[i] == 0,
        after.alive == before.alive.update(i, 1) && after.dead == before.dead || after.dead
            == before.dead.update(i, 1) && after.alive == before.alive,
    ensures
        undecided_among(after, n) == undecided_among(before, n) - if i < n {
            1int
        } else {
            0int
        },
    decreases n,
{
    if n > 0 {
        lemma_undecided_after_mark(before, after, i, n - 1);
    }
}

/// Knowledge that differs in neither marks of state has as many undecided cells.
proof fn lemma_undecided_same_marks(before: Knowledge, after: Knowledge, n: int)
    requires
        after.alive == before.alive,
        after.dead == before.dead,
    ensures
        undecided_among(after, n) == undecided_among(before, n),
    decreases n,
{
    if n > 0 {
        lemma_undecided_same_marks(before, after, n - 1);
    }
}

/// Marking an undecided cell keeps the knowledge well formed.
pub proof fn lemma_mark_well_formed(known: Knowledge, x: int, y: int, alive: bool)
    requires
        known.well_formed(),
        known.undecided(x, y),
    ensures
        alive ==> known.with_alive(x, y).well_formed(),
        !alive ==> known.with_dead(x, y).well_formed(),
{
    lemma_index_in_range(x, y);
}

/// An assignment keeps the work orderly and does not raise its measure.
pub proof fn lemma_assign_orderly(work: Work, x: int, y: int, alive: bool)
    requires
        work.orderly(),
    ensures
        work.assign(x, y, alive).orderly(),
        work.assign(x, y, alive).measure() <= work.measure(),
{
    lemma_index_in_range(x, y);
    let after = work.assign(x, y, alive);
    if !work.failed && work.known.undecided(x, y) {
        lemma_mark_well_formed(work.known, x, y, alive);
        lemma_undecided_after_mark(work.known, after.known, index(x, y), CELLS as int);
        assert forall|j: int| 0 <= j < after.queue.len() implies in_bounds(
            (#[trigger] after.queue[j]).0,
            after.queue[j].1,
        ) by {
            if j >= work.queue.len() {
                let k = j - work.queue.len();
                assert(after.queue[j] == neighbours_of(x, y)[k]);
            }
        }
    } else {
        lemma_undecided_same_marks(work.known, after.known, CELLS as int);
    }
}

/// Forcing neighbours keeps the work orderly and does not raise its measure.
pub proof fn lemma_force_neighbours_orderly(work: Work, x: int, y: int, alive: bool, from: int)
    requires
        work.orderly(),
    ensures
        work.force_neighbours(x, y, alive, from).orderly(),
        work.force_neighbours(x, y, alive, from).measure() <= work.measure(),
    decreases 8 - from,
{
    if !(from >= 8 || from < 0 || work.failed) {
        let n = neighbour(x, y, from);
        let next = if work.known.undecided(n.0, n.1) {
            work.assign(n.0, n.1, alive)
        } else {
            work
        };
        lemma_assign_orderly(work, n.0, n.1, alive);
        lemma_force_neighbours_orderly(next, x, y, alive, from + 1);
    }
}

/// Forcing one neighbour keeps the work orderly and does not raise its measure.
pub proof fn lemma_force_first_orderly(work: Work, x: int, y: int, from: int)
    requires
        work.orderly(),
    ensures
        work.force_first_neighbour_alive(x, y, from).orderly(),
        work.force_first_neighbour_alive(x, y, from).measure() <= work.measure(),
    decreases 8 - from,
{
    if !(from >= 8 || from < 0 || work.failed) {
        let n = neighbour(x, y, from);
        if work.known.undecided(n.0, n.1) {
            lemma_assign_orderly(work, n.0, n.1, true);
        } else {
            lemma_force_first_orderly(work, x, y, from + 1);
        }
    }
}

/// Advice keeps the work orderly and its measure.
pub proof fn lemma_hint_orderly(work: Work, x: int, y: int, alive: bool)
    requires
        work.orderly(),
    ensures
        work.hint_neighbours(x, y, alive).orderly(),
        work.hint_neighbours(x, y, alive).measure() == work.measure(),
{
    lemma_undecided_same_marks(work.known, work.hint_neighbours(x, y, alive).known, CELLS as int);
}

/// A contradiction keeps the work orderly and its measure.
pub proof fn lemma_fail_orderly(work: Work)
    requires
        work.orderly(),
    ensures
        work.fail().orderly(),
        work.fail().measure() == work.measure(),
{
    lemma_undecided_same_marks(work.known, work.fail().known, CELLS as int);
}

/// Looking at a cell keeps the work orderly and does not raise its measure.
pub proof fn lemma_visit_orderly(work: Work, target: Seq<int>, x: int, y: int)
    requires
        work.orderly(),
    ensures
        visit(work, target, x, y).orderly(),
        visit(work, target, x, y).measure() <= work.measure(),
{
    let min = at(work.known.min_neighbours, x, y);
    let max = at(work.known.max_neighbours, x, y);
    let wanted = at(target, x, y);
    reveal(visit);
    reveal(range_rule);
    reveal(state_rule);
    lemma_fail_orderly(work);
    if min == max {
        lemma_assign_orderly(work, x, y, wanted > 0);
    } else {
        lemma_assign_orderly(work, x, y, true);
        lemma_assign_orderly(work, x, y, false);
        lemma_force_neighbours_orderly(work.assign_alive(x, y), x, y, true, 0);
        lemma_force_neighbours_orderly(work, x, y, false, 0);
        lemma_force_first_orderly(work, x, y, 0);
        let ranged = range_rule(work, x, y, min, max, wanted);
        assert(ranged.orderly() && ranged.measure() <= work.measure());
        lemma_force_neighbours_orderly(ranged, x, y, false, 0);
        lemma_force_neighbours_orderly(ranged, x, y, true, 0);
        lemma_hint_orderly(ranged, x, y, true);
        lemma_hint_orderly(ranged, x, y, false);
    }
}

} // verus!
