//! Why propagation never rules out a predecessor.
//!
//! A board fits a guess when it is alive where the guess says alive and dead where the
//! guess says dead. Every deduction of the propagation holds of every predecessor of
//! the target that fits the guess, so such a predecessor still fits afterwards, and the
//! propagation meets no contradiction.

use vstd::prelude::*;
use crate::machine::{choice, lemma_no_choice_is_complete, Action, Machine};
use crate::propagation::{
    drain, lemma_assign_orderly, lemma_drain_done, lemma_drain_step, lemma_fail_orderly,
    lemma_force_first_orderly, lemma_force_neighbours_orderly, lemma_rest_orderly,
    lemma_undecided_among_bounds, lemma_visit_orderly, propagate, range_rule, state_rule, visit,
    Knowledge, Work,
};
use crate::soundness::{extends, lemma_assign_extends, lemma_extends_on, lemma_force_extends};
use crate::torus::{
    CELLS, around, at, column, in_bounds, index, is_predecessor, is_state, lemma_cell_of_index,
    lemma_index_in_range, lemma_index_of_cell, lemma_neighbour_stored, lemma_sum_around, life_rule,
    neighbour, neighbour_sum, neighbour_sums, row, step_of,
};

verus! {

/// Whether the board `p` is alive where `known` says alive and dead where it says dead.
pub open spec fn fits(known: Knowledge, p: Seq<int>) -> bool {
    &&& forall|i: int| 0 <= i < CELLS && known.alive[i] > 0 ==> #[trigger] p[i] == 1
    &&& forall|i: int| 0 <= i < CELLS && known.dead[i] > 0 ==> #[trigger] p[i] == 0
}

/// Whether every neighbour of `(x, y)` that `known` does not know alive is dead in `p`.
pub open spec fn others_dead(known: Knowledge, p: Seq<int>, x: int, y: int) -> bool {
    forall|k: int|
        0 <= k < 8 && at(known.alive, #[trigger] neighbour(x, y, k).0, neighbour(x, y, k).1) == 0
            ==> at(p, neighbour(x, y, k).0, neighbour(x, y, k).1) == 0
}

/// Whether every neighbour of `(x, y)` that `known` does not know dead is alive in `p`.
pub open spec fn others_alive(known: Knowledge, p: Seq<int>, x: int, y: int) -> bool {
    forall|k: int|
        0 <= k < 8 && at(known.dead, #[trigger] neighbour(x, y, k).0, neighbour(x, y, k).1) == 0
            ==> at(p, neighbour(x, y, k).0, neighbour(x, y, k).1) == 1
}

/// Eight numbers, each between a lower and an upper bound: their sum lies between the
/// sums of the bounds, and where it reaches one of these, each number reaches its bound.
proof fn lemma_tight_sums(low: Seq<int>, mid: Seq<int>, high: Seq<int>)
    requires
        low.len() == 8,
        mid.len() == 8,
        high.len() == 8,
        forall|k: int| 0 <= k < 8 ==> low[k] <= #[trigger] mid[k] <= high[k],
    ensures
        low[0] + low[1] + low[2] + low[3] + low[4] + low[5] + low[6] + low[7] <= mid[0] + mid[1]
            + mid[2] + mid[3] + mid[4] + mid[5] + mid[6] + mid[7] <= high[0] + high[1] + high[2]
            + high[3] + high[4] + high[5] + high[6] + high[7],
        low[0] + low[1] + low[2] + low[3] + low[4] + low[5] + low[6] + low[7] == mid[0] + mid[1]
            + mid[2] + mid[3] + mid[4] + mid[5] + mid[6] + mid[7] ==> forall|k: int|
            0 <= k < 8 ==> #[trigger] mid[k] == low[k],
        high[0] + high[1] + high[2] + high[3] + high[4] + high[5] + high[6] + high[7] == mid[0]
            + mid[1] + mid[2] + mid[3] + mid[4] + mid[5] + mid[6] + mid[7] ==> forall|k: int|
            0 <= k < 8 ==> #[trigger] mid[k] == high[k],
{
    assert(low[0] <= mid[0] <= high[0]);
    assert(low[1] <= mid[1] <= high[1]);
    assert(low[2] <= mid[2] <= high[2]);
    assert(low[3] <= mid[3] <= high[3]);
    assert(low[4] <= mid[4] <= high[4]);
    assert(low[5] <= mid[5] <= high[5]);
    assert(low[6] <= mid[6] <= high[6]);
    assert(low[7] <= mid[7] <= high[7]);
}

/// The bounds of a guess hold of every board that fits it, and where a bound is
/// reached, the neighbours that are still open all have the same state.
pub proof fn lemma_bounds_hold(known: Knowledge, p: Seq<int>, x: int, y: int)
    requires
        known.well_formed(),
        is_state(p),
        fits(known, p),
        in_bounds(x, y),
    ensures
        at(known.min_neighbours, x, y) <= neighbour_sum(p, x, y) <= at(known.max_neighbours, x, y),
        neighbour_sum(p, x, y) == at(known.min_neighbours, x, y) ==> others_dead(known, p, x, y),
        neighbour_sum(p, x, y) == at(known.max_neighbours, x, y) ==> others_alive(known, p, x, y),
{
    lemma_cell_of_index(x, y);
    let low = around(known.alive, x, y);
    let mid = around(p, x, y);
    let free = around(known.dead, x, y);
    let high = Seq::new(8, |k: int| 1 - free[k]);
    assert(at(known.min_neighbours, x, y) == neighbour_sum(known.alive, x, y));
    assert(at(known.max_neighbours, x, y) == 8 - neighbour_sum(known.dead, x, y));
    lemma_sum_around(known.alive, x, y);
    lemma_sum_around(known.dead, x, y);
    lemma_sum_around(p, x, y);
    assert forall|k: int| 0 <= k < 8 implies low[k] <= #[trigger] mid[k] <= high[k] by {
        lemma_neighbour_stored(x, y, k);
        let j = index(neighbour(x, y, k).0, neighbour(x, y, k).1);
        assert(low[k] == known.alive[j] && mid[k] == p[j] && free[k] == known.dead[j]);
    }
    lemma_tight_sums(low, mid, high);
    if neighbour_sum(p, x, y) == at(known.min_neighbours, x, y) {
        assert forall|k: int|
            0 <= k < 8 && at(known.alive, #[trigger] neighbour(x, y, k).0, neighbour(x, y, k).1)
                == 0 implies at(p, neighbour(x, y, k).0, neighbour(x, y, k).1) == 0 by {
            assert(mid[k] == low[k]);
        }
    }
    if neighbour_sum(p, x, y) == at(known.max_neighbours, x, y) {
        assert forall|k: int|
            0 <= k < 8 && at(known.dead, #[trigger] neighbour(x, y, k).0, neighbour(x, y, k).1)
                == 0 implies at(p, neighbour(x, y, k).0, neighbour(x, y, k).1) == 1 by {
            assert(mid[k] == high[k]);
            assert(free[k] == 0);
        }
    }
}

/// Whether every neighbour of `(x, y)` from the `from`-th on that is undecided in
/// `known` has in `p` the state that `alive` names.
pub open spec fn open_neighbours_are(
    known: Knowledge,
    p: Seq<int>,
    x: int,
    y: int,
    alive: bool,
    from: int,
) -> bool {
    forall|k: int|
        from <= k < 8 && known.undecided(#[trigger] neighbour(x, y, k).0, neighbour(x, y, k).1)
            ==> at(p, neighbour(x, y, k).0, neighbour(x, y, k).1) == if alive {
            1int
        } else {
            0int
        }
}

/// What held of the open neighbours before holds of those that are still open.
proof fn lemma_still_open(
    before: Knowledge,
    now: Knowledge,
    p: Seq<int>,
    x: int,
    y: int,
    alive: bool,
)
    requires
        before.well_formed(),
        now.well_formed(),
        extends(before, now),
        if alive {
            others_alive(before, p, x, y)
        } else {
            others_dead(before, p, x, y)
        },
    ensures
        open_neighbours_are(now, p, x, y, alive, 0),
{
    assert forall|k: int|
        0 <= k < 8 && now.undecided(#[trigger] neighbour(x, y, k).0, neighbour(x, y, k).1) implies at(
        p,
        neighbour(x, y, k).0,
        neighbour(x, y, k).1,
    ) == if alive {
        1int
    } else {
        0int
    } by {
        lemma_neighbour_stored(x, y, k);
        let j = index(neighbour(x, y, k).0, neighbour(x, y, k).1);
        assert(now.alive[j] == 0 && now.dead[j] == 0);
        assert(before.alive[j] >= 0 && before.dead[j] >= 0);
    }
}

/// An assignment that `p` bears out is accepted, and `p` fits what is known afterwards.
pub proof fn lemma_assign_fits(work: Work, p: Seq<int>, x: int, y: int, alive: bool)
    requires
        work.orderly(),
        !work.failed,
        is_state(p),
        fits(work.known, p),
        at(p, x, y) == if alive {
            1int
        } else {
            0int
        },
    ensures
        !work.assign(x, y, alive).failed,
        fits(work.assign(x, y, alive).known, p),
        work.assign(x, y, alive).known.contradiction == work.known.contradiction,
{
    lemma_index_in_range(x, y);
}

/// Forcing on the open neighbours the state that they have in `p` is accepted, and `p`
/// fits what is known afterwards.
pub proof fn lemma_force_fits(work: Work, p: Seq<int>, x: int, y: int, alive: bool, from: int)
    requires
        work.orderly(),
        !work.failed,
        is_state(p),
        fits(work.known, p),
        open_neighbours_are(work.known, p, x, y, alive, from),
    ensures
        !work.force_neighbours(x, y, alive, from).failed,
        fits(work.force_neighbours(x, y, alive, from).known, p),
        work.force_neighbours(x, y, alive, from).known.contradiction == work.known.contradiction,
        alive ==> !work.force_first_neighbour_alive(x, y, from).failed && fits(
            work.force_first_neighbour_alive(x, y, from).known,
            p,
        ) && work.force_first_neighbour_alive(x, y, from).known.contradiction
            == work.known.contradiction,
    decreases 8 - from,
{
    if !(from >= 8 || from < 0) {
        let n = neighbour(x, y, from);
        let next = if work.known.undecided(n.0, n.1) {
            work.assign(n.0, n.1, alive)
        } else {
            work
        };
        if work.known.undecided(n.0, n.1) {
            lemma_assign_fits(work, p, n.0, n.1, alive);
            lemma_assign_orderly(work, n.0, n.1, alive);
            lemma_assign_extends(work, n.0, n.1, alive);
        }
        assert forall|k: int|
            from + 1 <= k < 8 && next.known.undecided(
                #[trigger] neighbour(x, y, k).0,
                neighbour(x, y, k).1,
            ) implies at(p, neighbour(x, y, k).0, neighbour(x, y, k).1) == if alive {
            1int
        } else {
            0int
        } by {
            lemma_neighbour_stored(x, y, k);
            let j = index(neighbour(x, y, k).0, neighbour(x, y, k).1);
            assert(next.known.alive[j] == 0 && next.known.dead[j] == 0);
            assert(work.known.alive[j] >= 0 && work.known.dead[j] >= 0);
            assert(work.known.undecided(neighbour(x, y, k).0, neighbour(x, y, k).1));
        }
        lemma_force_fits(next, p, x, y, alive, from + 1);
        assert forall|k: int|
            from + 1 <= k < 8 && work.known.undecided(
                #[trigger] neighbour(x, y, k).0,
                neighbour(x, y, k).1,
            ) implies at(p, neighbour(x, y, k).0, neighbour(x, y, k).1) == if alive {
            1int
        } else {
            0int
        } by {}
        lemma_force_fits(work, p, x, y, alive, from + 1);
    }
}

/// A look at a cell draws no conclusion that a predecessor of the target does not bear
/// out: it meets no contradiction, and the predecessor fits what is known afterwards.
pub proof fn lemma_visit_fits(work: Work, p: Seq<int>, target: Seq<int>, x: int, y: int)
    requires
        work.orderly(),
        !work.failed,
        is_predecessor(p, target),
        fits(work.known, p),
        in_bounds(x, y),
    ensures
        !visit(work, target, x, y).failed,
        fits(visit(work, target, x, y).known, p),
        visit(work, target, x, y).known.contradiction == work.known.contradiction,
{
    let min = at(work.known.min_neighbours, x, y);
    let max = at(work.known.max_neighbours, x, y);
    let wanted = at(target, x, y);
    let count = neighbour_sum(p, x, y);
    let own = at(p, x, y);
    lemma_cell_of_index(x, y);
    lemma_bounds_hold(work.known, p, x, y);
    assert(wanted == life_rule(count, own)) by {
        assert(step_of(p)[index(x, y)] == life_rule(neighbour_sums(p)[index(x, y)], p[index(x, y)]));
    }
    assert(own == 0 || own == 1);
    reveal(visit);
    reveal(range_rule);
    reveal(state_rule);
    if min == max {
        if min == 2 {
            lemma_assign_fits(work, p, x, y, wanted > 0);
        }
    } else {
        let ranged = range_rule(work, x, y, min, max, wanted);
        assert(!ranged.failed && fits(ranged.known, p) && ranged.orderly() && extends(
            work.known,
            ranged.known,
        ) && ranged.known.contradiction == work.known.contradiction) by {
            lemma_ranged_fits(work, p, x, y, min, max, wanted, count, own);
        }
        lemma_stated_fits(work.known, ranged, p, x, y, min, max, wanted, count, own);
    }
}

/// The deductions from bounds that differ hold of a board with `count` living
/// neighbours around the cell, `own` at the cell, and `wanted` as its successor there.
proof fn lemma_ranged_fits(
    work: Work,
    p: Seq<int>,
    x: int,
    y: int,
    min: int,
    max: int,
    wanted: int,
    count: int,
    own: int,
)
    requires
        work.orderly(),
        !work.failed,
        is_state(p),
        fits(work.known, p),
        in_bounds(x, y),
        min < max,
        min <= count <= max,
        count == min ==> others_dead(work.known, p, x, y),
        count == max ==> others_alive(work.known, p, x, y),
        own == at(p, x, y),
        own == 0 || own == 1,
        wanted == life_rule(count, own),
    ensures
        !range_rule(work, x, y, min, max, wanted).failed,
        fits(range_rule(work, x, y, min, max, wanted).known, p),
        range_rule(work, x, y, min, max, wanted).orderly(),
        extends(work.known, range_rule(work, x, y, min, max, wanted).known),
        range_rule(work, x, y, min, max, wanted).known.contradiction == work.known.contradiction,
{
    reveal(range_rule);
    lemma_fail_orderly(work);
    if max < 2 || min > 3 {
    } else if max == 2 {
        if wanted > 0 {
            let marked = work.assign_alive(x, y);
            lemma_assign_fits(work, p, x, y, true);
            lemma_assign_orderly(work, x, y, true);
            lemma_assign_extends(work, x, y, true);
            lemma_still_open(work.known, marked.known, p, x, y, true);
            lemma_force_fits(marked, p, x, y, true, 0);
            lemma_force_neighbours_orderly(marked, x, y, true, 0);
            lemma_force_extends(marked, x, y, true, 0);
            lemma_extends_on(
                work.known,
                marked.known,
                marked.force_neighbours(x, y, true, 0).known,
            );
        }
    } else if min == 3 {
        if wanted > 0 {
            lemma_extends_itself(work.known);
            lemma_still_open(work.known, work.known, p, x, y, false);
            lemma_force_fits(work, p, x, y, false, 0);
            lemma_force_neighbours_orderly(work, x, y, false, 0);
            lemma_force_extends(work, x, y, false, 0);
        } else if max == 4 {
            lemma_extends_itself(work.known);
            lemma_still_open(work.known, work.known, p, x, y, true);
            lemma_force_fits(work, p, x, y, true, 0);
            lemma_force_first_orderly(work, x, y, 0);
            lemma_force_extends(work, x, y, true, 0);
        }
    }
    lemma_extends_itself(work.known);
}

/// What is known extends itself.
proof fn lemma_extends_itself(known: Knowledge)
    ensures
        extends(known, known),
{
}

/// The deductions from the state of the cell itself hold of a board with `count` living
/// neighbours around the cell, `own` at the cell, and `wanted` as its successor there.
proof fn lemma_stated_fits(
    before: Knowledge,
    work: Work,
    p: Seq<int>,
    x: int,
    y: int,
    min: int,
    max: int,
    wanted: int,
    count: int,
    own: int,
)
    requires
        before.well_formed(),
        extends(before, work.known),
        work.orderly(),
        !work.failed,
        is_state(p),
        fits(work.known, p),
        in_bounds(x, y),
        min <= count <= max,
        count == min ==> others_dead(before, p, x, y),
        count == max ==> others_alive(before, p, x, y),
        own == at(p, x, y),
        own == 0 || own == 1,
        wanted == life_rule(count, own),
    ensures
        !state_rule(work, x, y, min, max, wanted).failed,
        fits(state_rule(work, x, y, min, max, wanted).known, p),
        state_rule(work, x, y, min, max, wanted).known.contradiction == work.known.contradiction,
{
    reveal(state_rule);
    lemma_cell_of_index(x, y);
    if wanted > 0 {
        if at(work.known.dead, x, y) > 0 {
            assert(own == 0);
            if min == 3 {
                lemma_still_open(before, work.known, p, x, y, false);
                lemma_force_fits(work, p, x, y, false, 0);
            } else if max == 3 {
                lemma_still_open(before, work.known, p, x, y, true);
                lemma_force_fits(work, p, x, y, true, 0);
            }
        } else if at(work.known.alive, x, y) > 0 {
            assert(own == 1);
            if min == 3 {
                lemma_still_open(before, work.known, p, x, y, false);
                lemma_force_fits(work, p, x, y, false, 0);
            } else if max == 2 {
                lemma_still_open(before, work.known, p, x, y, true);
                lemma_force_fits(work, p, x, y, true, 0);
            }
        }
    }
}

/// A propagation draws no conclusion that a predecessor of the target does not bear out.
pub proof fn lemma_drain_fits(work: Work, p: Seq<int>, target: Seq<int>)
    requires
        work.orderly(),
        !work.failed,
        is_predecessor(p, target),
        fits(work.known, p),
    ensures
        !drain(work, target).failed,
        fits(drain(work, target).known, p),
        drain(work, target).known.contradiction == work.known.contradiction,
    decreases work.measure(),
{
    if work.queue.len() == 0 {
        lemma_drain_done(work, target);
    } else {
        let cell = work.queue.last();
        let next = visit(work.rest(), target, cell.0, cell.1);
        lemma_rest_orderly(work);
        lemma_drain_step(work, target);
        lemma_visit_orderly(work.rest(), target, cell.0, cell.1);
        lemma_visit_fits(work.rest(), p, target, cell.0, cell.1);
        lemma_undecided_among_bounds(next.known, CELLS as int);
        lemma_drain_fits(next, p, target);
    }
}

/// Propagation never rules out a predecessor: where a predecessor of the target fits
/// what is known and has the state that is asserted of the cell, the propagation meets
/// no contradiction, and the predecessor fits what is known afterwards.
pub proof fn lemma_propagate_fits(
    known: Knowledge,
    p: Seq<int>,
    target: Seq<int>,
    x: int,
    y: int,
    alive: bool,
)
    requires
        known.well_formed(),
        in_bounds(x, y),
        is_predecessor(p, target),
        fits(known, p),
        at(p, x, y) == if alive {
            1int
        } else {
            0int
        },
    ensures
        fits(propagate(known, target, x, y, alive), p),
        propagate(known, target, x, y, alive).contradiction == known.contradiction,
{
    reveal(propagate);
    let start = Work::start(known);
    lemma_assign_fits(start, p, x, y, alive);
    lemma_assign_orderly(start, x, y, alive);
    lemma_drain_fits(start.assign(x, y, alive), p, target);
}

/// The state opposite to the one that the flag names.
pub open spec fn opposite(alive: bool) -> int {
    if alive {
        0
    } else {
        1
    }
}

/// Whether the search still has the board `p` before it at decision level `i`: `p` fits
/// the guess of that level, and the action of the level has not given it away. A choice
/// and a first guess that is not made yet leave every board; a first guess that is made
/// leaves the boards with the opposite state to the level itself, the others to the
/// levels above; a second guess that is not made yet leaves the boards with the state
/// it is about to try, and one that is made leaves nothing to its own level.
pub open spec fn within_reach_at(machine: Machine, p: Seq<int>, i: int) -> bool {
    &&& fits(machine.guesses[i], p)
    &&& match machine.actions[i] {
        Action::MakeGuess => true,
        Action::FirstGuess(x, y, alive) => i == machine.actions.len() - 1 || at(
            p,
            x as int,
            y as int,
        ) == opposite(alive),
        Action::SecondGuess(x, y, alive) => i == machine.actions.len() - 1 && at(
            p,
            x as int,
            y as int,
        ) == opposite(alive),
    }
}

/// Whether the search still has the board `p` before it.
pub open spec fn within_reach(machine: Machine, p: Seq<int>) -> bool {
    exists|i: int| 0 <= i < machine.actions.len() && #[trigger] within_reach_at(machine, p, i)
}

/// Whether the board `p` is left to a level of a machine all of whose guesses are made.
pub open spec fn left_below(machine: Machine, p: Seq<int>) -> bool {
    exists|i: int|
        0 <= i < machine.actions.len() && fits(#[trigger] machine.guesses[i], p)
            && match machine.actions[i] {
            Action::FirstGuess(x, y, alive) => at(p, x as int, y as int) == opposite(alive),
            _ => false,
        }
}

/// A search that starts has every board before it.
pub proof fn lemma_start_reaches(target: Seq<int>, order: Seq<(int, int)>, p: Seq<int>)
    requires
        p.len() == CELLS,
    ensures
        within_reach(Machine::start(target, order), p),
{
    let machine = Machine::start(target, order);
    assert(within_reach_at(machine, p, 0));
}

/// A search that has tried every branch has no board before it.
pub proof fn lemma_exhausted_reaches_nothing(machine: Machine, p: Seq<int>)
    requires
        machine.exhausted(),
    ensures
        !within_reach(machine, p),
{
}

/// Going back to the last first guess keeps every board that was left to a level below.
pub proof fn lemma_backtrack_keeps(machine: Machine, p: Seq<int>)
    requires
        machine.guesses.len() == machine.actions.len(),
        left_below(machine, p),
    ensures
        within_reach(machine.backtrack(), p),
    decreases machine.actions.len(),
{
    let i = choose|i: int|
        0 <= i < machine.actions.len() && fits(#[trigger] machine.guesses[i], p)
            && match machine.actions[i] {
            Action::FirstGuess(x, y, alive) => at(p, x as int, y as int) == opposite(alive),
            _ => false,
        };
    let top = machine.actions.len() - 1;
    match machine.actions.last() {
        Action::MakeGuess => {
            assert(within_reach_at(machine, p, i));
        },
        Action::FirstGuess(x, y, alive) => {
            let after = machine.without_action().with_action(Action::SecondGuess(x, y, alive));
            assert(after.actions.len() == machine.actions.len());
            if i == top {
                assert(within_reach_at(after, p, i));
            } else {
                assert(after.actions[i] == machine.actions[i]);
                assert(within_reach_at(after, p, i));
            }
        },
        Action::SecondGuess(_, _, _) => {
            let below = machine.without_action().without_guess();
            assert(i < top);
            assert(below.actions[i] == machine.actions[i]);
            assert(below.guesses[i] == machine.guesses[i]);
            lemma_backtrack_keeps(below, p);
        },
    }
}

/// A board that fits a complete guess is the board of that guess.
pub proof fn lemma_complete_fits_one(known: Knowledge, p: Seq<int>)
    requires
        known.well_formed(),
        known.complete(),
        is_state(p),
        fits(known, p),
    ensures
        p == known.alive,
{
    assert forall|i: int| 0 <= i < CELLS implies p[i] == known.alive[i] by {
        lemma_index_of_cell(i);
        assert(!known.undecided(column(i), row(i)));
        assert(known.alive[i] + known.dead[i] <= 1);
    }
    assert(p =~= known.alive);
}

/// What an attempt leaves of the boards that fit the current guess: those with the state
/// that is tried fit the new guess if there is one, and there are none if there is not.
pub proof fn lemma_attempt_keeps(machine: Machine, p: Seq<int>, x: int, y: int, alive: bool)
    requires
        machine.well_formed(),
        !machine.exhausted(),
        in_bounds(x, y),
        is_predecessor(p, machine.target),
        fits(machine.guesses.last(), p),
        at(p, x, y) == opposite(!alive),
    ensures
        machine.attempt(x, y, alive) is Some,
        fits(machine.attempt(x, y, alive)->0.guesses.last(), p),
{
    lemma_propagate_fits(machine.guesses.last(), p, machine.target, x, y, alive);
}

/// One step of the search loses no predecessor of the target: a predecessor that the
/// search had before it is found by this step or is still before it.
pub proof fn lemma_step_keeps_reach(machine: Machine, p: Seq<int>)
    requires
        machine.well_formed(),
        !machine.exhausted(),
        is_predecessor(p, machine.target),
        within_reach(machine, p),
    ensures
        machine.step().1 == Some(p) || within_reach(machine.step().0, p),
{
    let i = choose|i: int| 0 <= i < machine.actions.len() && #[trigger] within_reach_at(machine, p, i);
    let top = machine.actions.len() - 1;
    let after = machine.step().0;
    reveal(Machine::step);
    assert(Machine::names_a_cell(machine.actions[top]));
    assert(machine.guesses[top].well_formed());
    match machine.actions.last() {
        Action::MakeGuess => {
            match choice(machine.guesses.last(), machine.order) {
                Some(cell) => {
                    assert(after.actions.len() == machine.actions.len());
                    if i < top {
                        assert(after.actions[i] == machine.actions[i]);
                    }
                    assert(within_reach_at(after, p, i));
                },
                None => {
                    let below = machine.without_action().without_guess();
                    if i == top {
                        lemma_no_choice_is_complete(machine.guesses.last(), machine.order);
                        lemma_complete_fits_one(machine.guesses.last(), p);
                    } else {
                        assert(below.actions[i] == machine.actions[i]);
                        assert(below.guesses[i] == machine.guesses[i]);
                        assert(!(machine.actions[i] is MakeGuess));
                        assert(left_below(below, p));
                        lemma_backtrack_keeps(below, p);
                    }
                },
            }
        },
        Action::FirstGuess(x, y, alive) => {
            if i == top && at(p, x as int, y as int) != opposite(alive) {
                lemma_attempt_keeps(machine, p, x as int, y as int, alive);
                let deeper = machine.attempt(x as int, y as int, alive)->0;
                assert(within_reach_at(deeper, p, top + 1));
            } else {
                match machine.attempt(x as int, y as int, alive) {
                    Some(deeper) => {
                        assert(deeper.actions[i] == machine.actions[i]);
                        assert(deeper.guesses[i] == machine.guesses[i]);
                        assert(within_reach_at(deeper, p, i));
                    },
                    None => {
                        assert(after.actions.len() == machine.actions.len());
                        if i < top {
                            assert(after.actions[i] == machine.actions[i]);
                        }
                        assert(within_reach_at(after, p, i));
                    },
                }
            }
        },
        Action::SecondGuess(x, y, alive) => {
            if i == top {
                lemma_attempt_keeps(machine, p, x as int, y as int, !alive);
                let deeper = machine.attempt(x as int, y as int, !alive)->0;
                assert(within_reach_at(deeper, p, top + 1));
            } else {
                assert(!(machine.actions[i] is MakeGuess));
                match machine.attempt(x as int, y as int, !alive) {
                    Some(deeper) => {
                        assert(deeper.actions[i] == machine.actions[i]);
                        assert(deeper.guesses[i] == machine.guesses[i]);
                        assert(within_reach_at(deeper, p, i));
                    },
                    None => {
                        assert(left_below(machine, p));
                        lemma_backtrack_keeps(machine, p);
                    },
                }
            }
        },
    }
}

/// Whether the search has lost no predecessor of its target from `before` to `after`,
/// but for the one that it has found, if any.
pub open spec fn keeps_reach(before: Machine, after: Machine, found: Option<Seq<int>>) -> bool {
    forall|p: Seq<int>|
        is_predecessor(p, before.target) && #[trigger] within_reach(before, p) ==> found == Some(p)
            || within_reach(after, p)
}

/// Whether the search has every predecessor of its target before it.
pub open spec fn reaches_all(machine: Machine) -> bool {
    forall|p: Seq<int>| is_predecessor(p, machine.target) ==> #[trigger] within_reach(machine, p)
}

/// A search that starts has every predecessor of its target before it.
pub proof fn lemma_start_reaches_all(target: Seq<int>, order: Seq<(int, int)>)
    ensures
        reaches_all(Machine::start(target, order)),
{
    assert forall|p: Seq<int>| is_predecessor(p, target) implies #[trigger] within_reach(
        Machine::start(target, order),
        p,
    ) by {
        lemma_start_reaches(target, order, p);
    }
}

/// A search that stands still loses nothing.
pub proof fn lemma_keeps_reach_itself(machine: Machine)
    ensures
        keeps_reach(machine, machine, None),
{
}

/// One step of the search loses no predecessor of the target.
pub proof fn lemma_step_keeps_all(machine: Machine)
    requires
        machine.well_formed(),
        !machine.exhausted(),
    ensures
        keeps_reach(machine, machine.step().0, machine.step().1),
{
    assert forall|p: Seq<int>|
        is_predecessor(p, machine.target) && #[trigger] within_reach(
            machine,
            p,
        ) implies machine.step().1 == Some(p) || within_reach(machine.step().0, p) by {
        lemma_step_keeps_reach(machine, p);
    }
}

/// A search that has lost nothing so far and loses nothing in its next step has lost
/// nothing in all.
pub proof fn lemma_keeps_reach_on(
    first: Machine,
    second: Machine,
    third: Machine,
    found: Option<Seq<int>>,
)
    requires
        first.target == second.target,
        keeps_reach(first, second, None),
        keeps_reach(second, third, found),
    ensures
        keeps_reach(first, third, found),
{
    assert forall|p: Seq<int>|
        is_predecessor(p, first.target) && #[trigger] within_reach(first, p) implies found == Some(
        p,
    ) || within_reach(third, p) by {
        assert(within_reach(second, p));
    }
}

/// A search that ends without a find and with every branch tried had no predecessor of
/// its target before it: it reports that there is none only when it has found them all.
pub proof fn lemma_exhausted_had_none(before: Machine, after: Machine, p: Seq<int>)
    requires
        keeps_reach(before, after, None),
        after.exhausted(),
        is_predecessor(p, before.target),
    ensures
        !within_reach(before, p),
{
    lemma_exhausted_reaches_nothing(after, p);
}

} // verus!
