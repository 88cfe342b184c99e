//! Why a guess that is complete and without contradiction is a predecessor.
//!
//! Every cell whose neighbours are all decided must agree with the target. Propagation
//! keeps every cell that may disagree in its queue, so when the queue has been emptied
//! without a contradiction, every such cell agrees.

use vstd::prelude::*;
use crate::propagation::{
    drain, lemma_assign_orderly, lemma_drain_done, lemma_drain_step, lemma_fail_orderly,
    lemma_force_first_orderly, lemma_force_neighbours_orderly, lemma_rest_orderly,
    lemma_undecided_among_bounds, lemma_visit_orderly, propagate, range_rule, state_rule, visit,
    Knowledge, Work,
};
use crate::torus::{
    at, column, hits, in_bounds, index, is_predecessor, is_state, lemma_cell_of_index,
    lemma_hit_is_listed, lemma_index_in_range, lemma_index_of_cell, lemma_neighbour_stored,
    lemma_no_self_hit, lemma_raise_moves_sums, neighbour, neighbour_sum, neighbours_of, row,
    step_of, CELLS,
};

verus! {

/// Whether the cell stored at `i` agrees with the target, as far as that can be told: if
/// all of its neighbours are decided, Conway's rule for their number gives the state
/// that the target holds, and where that depends on the cell itself, the cell is
/// decided accordingly.
pub open spec fn agrees(known: Knowledge, target: Seq<int>, i: int) -> bool {
    let count = known.min_neighbours[i];
    known.min_neighbours[i] == known.max_neighbours[i] ==> if count == 3 {
        target[i] != 0
    } else if count == 2 {
        if target[i] > 0 {
            known.alive[i] > 0
        } else {
            known.dead[i] > 0
        }
    } else {
        !(target[i] > 0)
    }
}

/// Whether every cell agrees with the target.
pub open spec fn settled(known: Knowledge, target: Seq<int>) -> bool {
    forall|i: int| 0 <= i < CELLS ==> #[trigger] agrees(known, target, i)
}

impl Work {
    /// Whether the cell stored at `i` is in the queue.
    pub open spec fn queued(self, i: int) -> bool {
        self.queue.contains((column(i), row(i)))
    }

    /// Whether every cell that disagrees with the target is in the queue, but for the
    /// cell stored at `spare`.
    pub open spec fn watchful(self, target: Seq<int>, spare: int) -> bool {
        forall|i: int|
            0 <= i < CELLS && !#[trigger] agrees(self.known, target, i) ==> self.queued(i) || i
                == spare
    }
}

/// Whether `after` follows `before` in a propagation: the queue has lost nothing, and it
/// holds every cell whose bounds have changed or that has come to disagree.
pub open spec fn tracks(before: Work, after: Work, target: Seq<int>) -> bool {
    &&& forall|p: (int, int)| before.queue.contains(p) ==> #[trigger] after.queue.contains(p)
    &&& forall|i: int|
        0 <= i < CELLS && !#[trigger] after.queued(i) ==> after.known.min_neighbours[i]
            == before.known.min_neighbours[i] && after.known.max_neighbours[i]
            == before.known.max_neighbours[i]
    &&& forall|i: int|
        0 <= i < CELLS && !#[trigger] agrees(after.known, target, i) ==> !agrees(
            before.known,
            target,
            i,
        ) || after.queued(i)
}

/// Nothing follows itself.
pub proof fn lemma_tracks_itself(work: Work, target: Seq<int>)
    ensures
        tracks(work, work, target),
{
}

/// What follows what follows, follows.
pub proof fn lemma_tracks_on(first: Work, second: Work, third: Work, target: Seq<int>)
    requires
        tracks(first, second, target),
        tracks(second, third, target),
    ensures
        tracks(first, third, target),
{
    assert forall|p: (int, int)| first.queue.contains(p) implies #[trigger] third.queue.contains(
        p,
    ) by {
        assert(second.queue.contains(p));
    }
    assert forall|i: int| 0 <= i < CELLS && !#[trigger] third.queued(i) implies third.known.min_neighbours[i]
        == first.known.min_neighbours[i] && third.known.max_neighbours[i]
        == first.known.max_neighbours[i] by {
        if second.queued(i) {
            assert(third.queue.contains((column(i), row(i))));
        }
    }
    assert forall|i: int| 0 <= i < CELLS && !#[trigger] agrees(third.known, target, i) implies !agrees(
        first.known,
        target,
        i,
    ) || third.queued(i) by {
        if !third.queued(i) {
            assert(!agrees(second.known, target, i));
            if second.queued(i) {
                assert(third.queue.contains((column(i), row(i))));
            }
        }
    }
}

/// A watchful work stays watchful through what follows it.
pub proof fn lemma_watchful_on(before: Work, after: Work, target: Seq<int>, spare: int)
    requires
        before.watchful(target, spare),
        tracks(before, after, target),
    ensures
        after.watchful(target, spare),
{
    assert forall|i: int| 0 <= i < CELLS && !#[trigger] agrees(after.known, target, i) implies after.queued(
        i,
    ) || i == spare by {
        if !after.queued(i) {
            assert(!agrees(before.known, target, i));
            if before.queued(i) {
                assert(after.queue.contains((column(i), row(i))));
            }
        }
    }
}

/// A contradiction changes neither bounds nor marks.
pub proof fn lemma_fail_tracks(work: Work, target: Seq<int>)
    ensures
        tracks(work, work.fail(), target),
{
    assert forall|i: int| 0 <= i < CELLS implies agrees(work.fail().known, target, i) == agrees(
        work.known,
        target,
        i,
    ) by {}
}

/// An assignment sends every cell whose bounds it changes to the queue, and the cell
/// itself does not come to disagree by it.
pub proof fn lemma_assign_tracks(work: Work, target: Seq<int>, x: int, y: int, alive: bool)
    requires
        work.orderly(),
        in_bounds(x, y),
    ensures
        tracks(work, work.assign(x, y, alive), target),
{
    let after = work.assign(x, y, alive);
    let here = index(x, y);
    lemma_cell_of_index(x, y);
    if work.failed {
    } else if after.failed {
        lemma_fail_tracks(work, target);
    } else if after == work {
    } else {
        assert(after.queue == work.queue + neighbours_of(x, y));
        assert forall|p: (int, int)| work.queue.contains(p) implies #[trigger] after.queue.contains(
            p,
        ) by {
            let j = choose|j: int| 0 <= j < work.queue.len() && work.queue[j] == p;
            assert(after.queue[j] == p);
        }
        assert forall|i: int| 0 <= i < CELLS && hits(x, y, 8, i) != 0 implies after.queued(i) by {
            lemma_hit_is_listed(x, y, i);
            let k = choose|k: int|
                0 <= k < neighbours_of(x, y).len() && neighbours_of(x, y)[k] == (column(i), row(i));
            assert(after.queue[work.queue.len() + k] == (column(i), row(i)));
        }
        assert forall|i: int| 0 <= i < CELLS implies after.known.min_neighbours[i]
            == work.known.min_neighbours[i] + if alive {
            hits(x, y, 8, i)
        } else {
            0
        } && after.known.max_neighbours[i] == work.known.max_neighbours[i] - if alive {
            0
        } else {
            hits(x, y, 8, i)
        } by {
            if alive {
                lemma_raise_moves_sums(work.known.alive, x, y, i);
            } else {
                lemma_raise_moves_sums(work.known.dead, x, y, i);
            }
        }
        lemma_no_self_hit(x, y);
        assert forall|i: int| 0 <= i < CELLS && !#[trigger] agrees(after.known, target, i) implies !agrees(
            work.known,
            target,
            i,
        ) || after.queued(i) by {
            if hits(x, y, 8, i) != 0 {
            } else if i == here {
            } else {
                assert(after.known.alive[i] == work.known.alive[i]);
                assert(after.known.dead[i] == work.known.dead[i]);
            }
        }
    }
}

/// Forcing neighbours is a row of assignments.
pub proof fn lemma_force_neighbours_tracks(
    work: Work,
    target: Seq<int>,
    x: int,
    y: int,
    alive: bool,
    from: int,
)
    requires
        work.orderly(),
    ensures
        tracks(work, work.force_neighbours(x, y, alive, from), target),
    decreases 8 - from,
{
    if !(from >= 8 || from < 0 || work.failed) {
        let n = neighbour(x, y, from);
        lemma_neighbour_stored(x, y, from);
        let next = if work.known.undecided(n.0, n.1) {
            work.assign(n.0, n.1, alive)
        } else {
            work
        };
        lemma_assign_tracks(work, target, n.0, n.1, alive);
        lemma_assign_orderly(work, n.0, n.1, alive);
        lemma_force_neighbours_tracks(next, target, x, y, alive, from + 1);
        lemma_tracks_on(work, next, work.force_neighbours(x, y, alive, from), target);
    }
}

/// Forcing one neighbour is an assignment.
pub proof fn lemma_force_first_tracks(work: Work, target: Seq<int>, x: int, y: int, from: int)
    requires
        work.orderly(),
    ensures
        tracks(work, work.force_first_neighbour_alive(x, y, from), target),
    decreases 8 - from,
{
    if !(from >= 8 || from < 0 || work.failed) {
        let n = neighbour(x, y, from);
        lemma_neighbour_stored(x, y, from);
        if work.known.undecided(n.0, n.1) {
            lemma_assign_tracks(work, target, n.0, n.1, true);
        } else {
            lemma_force_first_tracks(work, target, x, y, from + 1);
        }
    }
}

/// Advice changes neither bounds nor marks of state.
pub proof fn lemma_hint_tracks(work: Work, target: Seq<int>, x: int, y: int, alive: bool)
    ensures
        tracks(work, work.hint_neighbours(x, y, alive), target),
{
    let after = work.hint_neighbours(x, y, alive);
    assert forall|i: int| 0 <= i < CELLS implies agrees(after.known, target, i) == agrees(
        work.known,
        target,
        i,
    ) by {}
}

/// Looking at a cell only adds to what is known and to the queue.
pub proof fn lemma_visit_tracks(work: Work, target: Seq<int>, x: int, y: int)
    requires
        work.orderly(),
        in_bounds(x, y),
    ensures
        tracks(work, visit(work, target, x, y), target),
{
    let min = at(work.known.min_neighbours, x, y);
    let max = at(work.known.max_neighbours, x, y);
    let wanted = at(target, x, y);
    reveal(visit);
    reveal(range_rule);
    reveal(state_rule);
    lemma_fail_tracks(work, target);
    lemma_tracks_itself(work, target);
    if min == max {
        lemma_assign_tracks(work, target, x, y, wanted > 0);
    } else {
        let ranged = range_rule(work, x, y, min, max, wanted);
        assert(tracks(work, ranged, target) && ranged.orderly()) by {
            lemma_fail_orderly(work);
            lemma_assign_tracks(work, target, x, y, true);
            lemma_assign_tracks(work, target, x, y, false);
            lemma_assign_orderly(work, x, y, true);
            lemma_assign_orderly(work, x, y, false);
            let own = work.assign_alive(x, y);
            lemma_force_neighbours_tracks(own, target, x, y, true, 0);
            lemma_force_neighbours_orderly(own, x, y, true, 0);
            lemma_tracks_on(work, own, own.force_neighbours(x, y, true, 0), target);
            lemma_force_neighbours_tracks(work, target, x, y, false, 0);
            lemma_force_neighbours_orderly(work, x, y, false, 0);
            lemma_force_first_tracks(work, target, x, y, 0);
            lemma_force_first_orderly(work, x, y, 0);
        }
        let stated = state_rule(ranged, x, y, min, max, wanted);
        assert(tracks(ranged, stated, target)) by {
            lemma_tracks_itself(ranged, target);
            lemma_force_neighbours_tracks(ranged, target, x, y, false, 0);
            lemma_force_neighbours_tracks(ranged, target, x, y, true, 0);
            lemma_hint_tracks(ranged, target, x, y, true);
            lemma_hint_tracks(ranged, target, x, y, false);
        }
        lemma_tracks_on(work, ranged, stated, target);
    }
}

/// After a look at a cell that has met no contradiction, the cell agrees with the target
/// or is back in the queue.
pub proof fn lemma_visit_settles_cell(work: Work, target: Seq<int>, x: int, y: int)
    requires
        work.orderly(),
        in_bounds(x, y),
        !visit(work, target, x, y).failed,
    ensures
        agrees(visit(work, target, x, y).known, target, index(x, y)) || visit(
            work,
            target,
            x,
            y,
        ).queued(index(x, y)),
{
    let after = visit(work, target, x, y);
    let here = index(x, y);
    let min = at(work.known.min_neighbours, x, y);
    let max = at(work.known.max_neighbours, x, y);
    let wanted = at(target, x, y);
    lemma_visit_tracks(work, target, x, y);
    lemma_cell_of_index(x, y);
    if !after.queued(here) {
        assert(after.known.min_neighbours[here] == min);
        assert(after.known.max_neighbours[here] == max);
        if min == max {
            reveal(visit);
            if min == 2 {
                lemma_assign_orderly(work, x, y, wanted > 0);
            }
        }
    }
}

/// A look at the one cell that a watchful work spares leaves the work watchful with
/// nothing to spare, unless it meets a contradiction.
pub proof fn lemma_visit_watchful(work: Work, target: Seq<int>, x: int, y: int)
    requires
        work.orderly(),
        in_bounds(x, y),
        work.watchful(target, index(x, y)),
    ensures
        visit(work, target, x, y).failed || visit(work, target, x, y).watchful(target, -1),
{
    let after = visit(work, target, x, y);
    if !after.failed {
        lemma_visit_tracks(work, target, x, y);
        lemma_watchful_on(work, after, target, index(x, y));
        lemma_visit_settles_cell(work, target, x, y);
    }
}

/// A watchful propagation ends in a contradiction or with every cell agreeing.
pub proof fn lemma_drain_settles(work: Work, target: Seq<int>)
    requires
        work.orderly(),
        work.watchful(target, -1),
    ensures
        drain(work, target).orderly(),
        drain(work, target).failed || settled(drain(work, target).known, target),
    decreases work.measure(),
{
    if work.failed || work.queue.len() == 0 {
        lemma_drain_done(work, target);
        if !work.failed {
            assert forall|i: int| 0 <= i < CELLS implies #[trigger] agrees(
                work.known,
                target,
                i,
            ) by {
                assert(!work.queued(i));
            }
        }
    } else {
        let cell = work.queue.last();
        let rest = work.rest();
        lemma_rest_orderly(work);
        lemma_drain_step(work, target);
        lemma_visit_orderly(rest, target, cell.0, cell.1);
        assert forall|i: int| 0 <= i < CELLS && !#[trigger] agrees(rest.known, target, i) implies rest.queued(
            i,
        ) || i == index(cell.0, cell.1) by {
            assert(work.queued(i));
            let j = choose|j: int| 0 <= j < work.queue.len() && work.queue[j] == (column(i), row(i));
            if j < work.queue.len() - 1 {
                assert(rest.queue[j] == (column(i), row(i)));
            } else {
                lemma_index_of_cell(i);
            }
        }
        lemma_visit_watchful(rest, target, cell.0, cell.1);
        let next = visit(rest, target, cell.0, cell.1);
        if next.failed {
            lemma_drain_done(next, target);
        } else {
            lemma_undecided_among_bounds(next.known, CELLS as int);
            lemma_drain_settles(next, target);
        }
    }
}

/// Propagation keeps a guess well formed, latches a contradiction for good, and unless
/// it meets one, leaves every cell agreeing with the target if every cell agreed before.
pub proof fn lemma_propagate_settles(
    known: Knowledge,
    target: Seq<int>,
    x: int,
    y: int,
    alive: bool,
)
    requires
        known.well_formed(),
        in_bounds(x, y),
    ensures
        propagate(known, target, x, y, alive).well_formed(),
        known.contradiction ==> propagate(known, target, x, y, alive).contradiction,
        settled(known, target) ==> propagate(known, target, x, y, alive).contradiction || settled(
            propagate(known, target, x, y, alive),
            target,
        ),
{
    reveal(propagate);
    let start = Work::start(known);
    let assigned = start.assign(x, y, alive);
    lemma_assign_orderly(start, x, y, alive);
    lemma_assign_tracks(start, target, x, y, alive);
    lemma_propagate_extends(known, target, x, y, alive);
    if settled(known, target) {
        assert(start.watchful(target, -1));
        lemma_watchful_on(start, assigned, target, -1);
        lemma_drain_settles(assigned, target);
    } else {
        lemma_drain_orderly(assigned, target);
    }
}

/// The end of a propagation is orderly.
pub proof fn lemma_drain_orderly(work: Work, target: Seq<int>)
    requires
        work.orderly(),
    ensures
        drain(work, target).orderly(),
    decreases work.measure(),
{
    if work.failed || work.queue.len() == 0 {
        lemma_drain_done(work, target);
    } else {
        let cell = work.queue.last();
        lemma_rest_orderly(work);
        lemma_drain_step(work, target);
        lemma_visit_orderly(work.rest(), target, cell.0, cell.1);
        lemma_undecided_among_bounds(visit(work.rest(), target, cell.0, cell.1).known, CELLS as int);
        lemma_drain_orderly(visit(work.rest(), target, cell.0, cell.1), target);
    }
}

/// Whether every mark of `before` is still in `after`: what is known is never taken back.
pub open spec fn extends(before: Knowledge, after: Knowledge) -> bool {
    &&& before.contradiction ==> after.contradiction
    &&& forall|i: int| 0 <= i < CELLS && before.alive[i] > 0 ==> #[trigger] after.alive[i] > 0
    &&& forall|i: int| 0 <= i < CELLS && before.dead[i] > 0 ==> #[trigger] after.dead[i] > 0
}

/// What extends an extension, extends.
pub proof fn lemma_extends_on(first: Knowledge, second: Knowledge, third: Knowledge)
    requires
        extends(first, second),
        extends(second, third),
    ensures
        extends(first, third),
{
    assert forall|i: int| 0 <= i < CELLS && first.alive[i] > 0 implies #[trigger] third.alive[i]
        > 0 by {
        assert(second.alive[i] > 0);
    }
    assert forall|i: int| 0 <= i < CELLS && first.dead[i] > 0 implies #[trigger] third.dead[i]
        > 0 by {
        assert(second.dead[i] > 0);
    }
}

/// An assignment takes nothing back.
pub proof fn lemma_assign_extends(work: Work, x: int, y: int, alive: bool)
    requires
        work.orderly(),
    ensures
        extends(work.known, work.assign(x, y, alive).known),
{
    lemma_index_in_range(x, y);
}

/// Forcing neighbours takes nothing back.
pub proof fn lemma_force_extends(work: Work, x: int, y: int, alive: bool, from: int)
    requires
        work.orderly(),
    ensures
        extends(work.known, work.force_neighbours(x, y, alive, from).known),
        extends(work.known, work.force_first_neighbour_alive(x, y, from).known),
    decreases 8 - from,
{
    if !(from >= 8 || from < 0 || work.failed) {
        let n = neighbour(x, y, from);
        let next = if work.known.undecided(n.0, n.1) {
            work.assign(n.0, n.1, alive)
        } else {
            work
        };
        lemma_assign_extends(work, n.0, n.1, alive);
        lemma_assign_extends(work, n.0, n.1, true);
        lemma_assign_orderly(work, n.0, n.1, alive);
        lemma_force_extends(next, x, y, alive, from + 1);
        lemma_force_extends(work, x, y, alive, from + 1);
        lemma_extends_on(work.known, next.known, next.force_neighbours(x, y, alive, from + 1).known);
    }
}

/// A look at a cell takes nothing back.
pub proof fn lemma_visit_extends(work: Work, target: Seq<int>, x: int, y: int)
    requires
        work.orderly(),
    ensures
        extends(work.known, visit(work, target, x, y).known),
{
    let min = at(work.known.min_neighbours, x, y);
    let max = at(work.known.max_neighbours, x, y);
    let wanted = at(target, x, y);
    reveal(visit);
    reveal(range_rule);
    reveal(state_rule);
    lemma_assign_extends(work, x, y, true);
    lemma_assign_extends(work, x, y, false);
    if min != max {
        let own = work.assign_alive(x, y);
        lemma_assign_orderly(work, x, y, true);
        lemma_force_extends(own, x, y, true, 0);
        lemma_extends_on(work.known, own.known, own.force_neighbours(x, y, true, 0).known);
        lemma_force_extends(work, x, y, false, 0);
        lemma_force_extends(work, x, y, true, 0);
        let ranged = range_rule(work, x, y, min, max, wanted);
        assert(extends(work.known, ranged.known));
        assert(ranged.orderly()) by {
            lemma_fail_orderly(work);
            lemma_assign_orderly(work, x, y, false);
            lemma_force_neighbours_orderly(own, x, y, true, 0);
            lemma_force_neighbours_orderly(work, x, y, false, 0);
            lemma_force_first_orderly(work, x, y, 0);
        }
        lemma_force_extends(ranged, x, y, false, 0);
        lemma_force_extends(ranged, x, y, true, 0);
        let stated = state_rule(ranged, x, y, min, max, wanted);
        assert(extends(ranged.known, stated.known));
        lemma_extends_on(work.known, ranged.known, stated.known);
    }
}

/// A propagation takes nothing back.
pub proof fn lemma_drain_extends(work: Work, target: Seq<int>)
    requires
        work.orderly(),
    ensures
        extends(work.known, drain(work, target).known),
    decreases work.measure(),
{
    if work.failed || work.queue.len() == 0 {
        lemma_drain_done(work, target);
    } else {
        let cell = work.queue.last();
        let next = visit(work.rest(), target, cell.0, cell.1);
        lemma_rest_orderly(work);
        lemma_drain_step(work, target);
        lemma_visit_orderly(work.rest(), target, cell.0, cell.1);
        lemma_visit_extends(work.rest(), target, cell.0, cell.1);
        lemma_undecided_among_bounds(next.known, CELLS as int);
        lemma_drain_extends(next, target);
        lemma_extends_on(work.known, next.known, drain(next, target).known);
    }
}

/// Asserting the state of a cell takes nothing back, and unless it ends in a
/// contradiction, the cell has that state afterwards.
pub proof fn lemma_propagate_extends(
    known: Knowledge,
    target: Seq<int>,
    x: int,
    y: int,
    alive: bool,
)
    requires
        known.well_formed(),
        in_bounds(x, y),
    ensures
        extends(known, propagate(known, target, x, y, alive)),
        !propagate(known, target, x, y, alive).contradiction ==> if alive {
            at(propagate(known, target, x, y, alive).alive, x, y) == 1
        } else {
            at(propagate(known, target, x, y, alive).dead, x, y) == 1
        },
{
    reveal(propagate);
    let start = Work::start(known);
    let assigned = start.assign(x, y, alive);
    let after = propagate(known, target, x, y, alive);
    lemma_cell_of_index(x, y);
    lemma_assign_orderly(start, x, y, alive);
    lemma_assign_extends(start, x, y, alive);
    lemma_drain_extends(assigned, target);
    lemma_drain_orderly(assigned, target);
    lemma_extends_on(known, assigned.known, after);
    if assigned.failed {
        lemma_drain_done(assigned, target);
    } else {
        if alive {
            assert(assigned.known.alive[index(x, y)] > 0);
            assert(after.alive[index(x, y)] > 0);
        } else {
            assert(assigned.known.dead[index(x, y)] > 0);
            assert(after.dead[index(x, y)] > 0);
        }
    }
}

/// Asserting the state of a cell twice has the same effect as asserting it once.
pub proof fn lemma_propagate_idempotent(
    known: Knowledge,
    target: Seq<int>,
    x: int,
    y: int,
    alive: bool,
)
    requires
        known.well_formed(),
        in_bounds(x, y),
    ensures
        propagate(propagate(known, target, x, y, alive), target, x, y, alive) == propagate(
            known,
            target,
            x,
            y,
            alive,
        ),
{
    reveal(propagate);
    let once = propagate(known, target, x, y, alive);
    let start = Work::start(known);
    let assigned = start.assign(x, y, alive);
    lemma_cell_of_index(x, y);
    lemma_assign_orderly(start, x, y, alive);
    lemma_drain_orderly(assigned, target);
    lemma_propagate_extends(known, target, x, y, alive);
    lemma_drain_extends(assigned, target);
    let again = Work::start(once).assign(x, y, alive);
    lemma_assign_orderly(Work::start(once), x, y, alive);
    if assigned.failed {
        lemma_drain_done(assigned, target);
        assert(again.failed);
        assert(again.known == once);
        lemma_drain_done(again, target);
    } else {
        let here = index(x, y);
        if alive {
            assert(assigned.known.alive[here] > 0);
            assert(once.alive[here] > 0);
            assert(once.dead[here] == 0);
        } else {
            assert(assigned.known.dead[here] > 0);
            assert(once.dead[here] > 0);
            assert(once.alive[here] == 0);
        }
        assert(again == Work::start(once));
        lemma_drain_done(again, target);
    }
}

/// A well-formed guess that is complete and agrees with a target of states is a
/// predecessor of that target.
pub proof fn lemma_complete_is_predecessor(known: Knowledge, target: Seq<int>)
    requires
        known.well_formed(),
        known.complete(),
        settled(known, target),
        is_state(target),
    ensures
        is_predecessor(known.alive, target),
{
    assert forall|i: int| 0 <= i < CELLS implies known.alive[i] + known.dead[i] == 1 by {
        lemma_index_of_cell(i);
        assert(!known.undecided(column(i), row(i)));
    }
    assert forall|i: int| 0 <= i < CELLS implies step_of(known.alive)[i] == target[i] by {
        let x = column(i);
        let y = row(i);
        lemma_index_in_range(x - 1, y - 1);
        lemma_index_in_range(x - 1, y);
        lemma_index_in_range(x - 1, y + 1);
        lemma_index_in_range(x, y - 1);
        lemma_index_in_range(x, y + 1);
        lemma_index_in_range(x + 1, y - 1);
        lemma_index_in_range(x + 1, y);
        lemma_index_in_range(x + 1, y + 1);
        assert(known.min_neighbours[i] == neighbour_sum(known.alive, x, y));
        assert(known.max_neighbours[i] == 8 - neighbour_sum(known.dead, x, y));
        assert(neighbour_sum(known.alive, x, y) + neighbour_sum(known.dead, x, y) == 8);
        assert(agrees(known, target, i));
    }
    assert(step_of(known.alive) =~= target);
}

} // verus!
