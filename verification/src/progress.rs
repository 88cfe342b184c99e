//! Why the search comes to an end, and finds every predecessor on its way.
//!
//! Every decision level has fewer undecided cells than the level below it, so the tree
//! of decisions is finite. The effort of a search is a bound on the number of actions
//! that are left; every action lowers it.

use vstd::prelude::*;
use crate::completeness::{
    keeps_reach, lemma_exhausted_reaches_nothing, lemma_keeps_reach_itself, lemma_keeps_reach_on,
    lemma_start_reaches, lemma_step_keeps_all, within_reach,
};
use crate::grid::{alive_positions, scan};
use crate::guess::lemma_nothing_well_formed;
use crate::machine::{
    choice, first_unguessed, is_search_order, lemma_no_choice_is_complete, unguessed, wanted,
    Action, Machine, Outcome,
};
use crate::propagation::{lemma_undecided_among_bounds, propagate, undecided_among, Knowledge};
use crate::soundness::{
    agrees, extends, lemma_complete_is_predecessor, lemma_propagate_extends,
    lemma_propagate_settles, settled,
};
use crate::torus::{
    at, in_bounds, index, is_predecessor, is_state, lemma_cell_of_index, lemma_step_is_state,
    step_of, CELLS,
};

verus! {

/// The number of actions that it takes at most to explore a choice among `open`
/// undecided cells: the choice, a first guess and a second guess, and after each guess
/// a choice among fewer cells.
pub open spec fn tree(open: int) -> int
    decreases open,
{
    if open <= 0 {
        1
    } else {
        3 + 2 * tree(open - 1)
    }
}

/// The more cells are open, the more there is to explore.
pub proof fn lemma_tree_grows(fewer: int, more: int)
    requires
        fewer <= more,
    ensures
        1 <= tree(fewer) <= tree(more),
    decreases more,
{
    if more > 0 {
        if fewer < more {
            lemma_tree_grows(fewer, more - 1);
        } else {
            lemma_tree_grows(fewer - 1, more - 1);
        }
    } else {
        assert(tree(fewer) == 1 && tree(more) == 1);
    }
}

/// The number of undecided cells.
pub open spec fn open_cells(known: Knowledge) -> int {
    undecided_among(known, CELLS as int)
}

/// What extends a guess has no more undecided cells among the first `n`, and fewer if
/// one of them has been decided.
pub proof fn lemma_extension_closes(before: Knowledge, after: Knowledge, i: int, n: int)
    requires
        before.well_formed(),
        after.well_formed(),
        extends(before, after),
        0 <= n <= CELLS,
    ensures
        undecided_among(after, n) <= undecided_among(before, n),
        0 <= i < n && before.alive[i] == 0 && before.dead[i] == 0 && (after.alive[i] > 0
            || after.dead[i] > 0) ==> undecided_among(after, n) < undecided_among(before, n),
    decreases n,
{
    if n > 0 {
        lemma_extension_closes(before, after, i, n - 1);
        assert(before.alive[n - 1] >= 0 && before.dead[n - 1] >= 0);
        assert(after.alive[n - 1] >= 0 && after.dead[n - 1] >= 0);
    }
}

/// A guess with an undecided cell among the first `n` has at least one of them.
pub proof fn lemma_open_cell_counts(known: Knowledge, i: int, n: int)
    requires
        0 <= i < n,
        known.alive[i] == 0 && known.dead[i] == 0,
    ensures
        undecided_among(known, n) >= 1,
    decreases n,
{
    if i < n - 1 {
        lemma_open_cell_counts(known, i, n - 1);
    } else {
        lemma_undecided_among_bounds(known, n - 1);
    }
}

/// A guess about an undecided cell that meets no contradiction leaves fewer cells open.
pub proof fn lemma_guess_closes(known: Knowledge, target: Seq<int>, x: int, y: int, alive: bool)
    requires
        known.well_formed(),
        in_bounds(x, y),
        known.undecided(x, y),
        !propagate(known, target, x, y, alive).contradiction,
    ensures
        propagate(known, target, x, y, alive).well_formed(),
        open_cells(propagate(known, target, x, y, alive)) < open_cells(known),
{
    lemma_cell_of_index(x, y);
    lemma_propagate_extends(known, target, x, y, alive);
    lemma_propagate_settles(known, target, x, y, alive);
    lemma_extension_closes(
        known,
        propagate(known, target, x, y, alive),
        index(x, y),
        CELLS as int,
    );
}

/// The cell that is chosen is undecided and on the board.
pub proof fn lemma_choice_is_open(known: Knowledge, order: Seq<(int, int)>)
    requires
        known.well_formed(),
        forall|i: int| 0 <= i < order.len() ==> in_bounds((#[trigger] order[i]).0, order[i].1),
        choice(known, order) is Some,
    ensures
        choice(known, order) matches Some(cell) && in_bounds(cell.0, cell.1) && known.undecided(
            cell.0,
            cell.1,
        ),
{
    let cell = choice(known, order)->0;
    let dead_first = alive_positions(wanted(known.try_dead, known));
    let alive_first = alive_positions(wanted(known.try_alive, known));
    if dead_first.len() > 0 {
        lemma_marked_is_open(known.try_dead, known);
    } else if alive_first.len() > 0 {
        lemma_marked_is_open(known.try_alive, known);
    } else {
        lemma_unguessed_is_open(known, order, 0);
    }
}

/// The first cell that is advised and not decided, if there is one, is undecided and
/// on the board.
proof fn lemma_marked_is_open(marks: Seq<int>, known: Knowledge)
    requires
        known.well_formed(),
        marks.len() == CELLS,
        forall|i: int| 0 <= i < CELLS ==> 0 <= #[trigger] marks[i] <= 1,
        alive_positions(wanted(marks, known)).len() > 0,
    ensures
        in_bounds(
            alive_positions(wanted(marks, known))[0].0,
            alive_positions(wanted(marks, known))[0].1,
        ),
        known.undecided(
            alive_positions(wanted(marks, known))[0].0,
            alive_positions(wanted(marks, known))[0].1,
        ),
{
    let board = wanted(marks, known);
    let living = |p: (int, int)| at(board, p.0, p.1) > 0;
    let inside = |p: (int, int)| in_bounds(p.0, p.1);
    let scan = scan();
    let found = scan.filter(living);
    assert(living(found[0])) by {
        scan.lemma_filter_pred(living, 0);
    }
    assert(scan.contains(found[0])) by {
        lemma_filtered_is_listed(scan, living, 0);
    }
    let n = choose|n: int| 0 <= n < scan.len() && scan[n] == found[0];
    assert(in_bounds(scan[n].0, scan[n].1));
    let i = index(found[0].0, found[0].1);
    lemma_cell_of_index(found[0].0, found[0].1);
    assert(board[i] == marks[i] - known.alive[i] - known.dead[i]);
    assert(known.alive[i] >= 0 && known.dead[i] >= 0);
}

/// What a filter lets through was in the list.
proof fn lemma_filtered_is_listed<A>(list: Seq<A>, keep: spec_fn(A) -> bool, i: int)
    requires
        0 <= i < list.filter(keep).len(),
    ensures
        list.contains(list.filter(keep)[i]),
    decreases list.len(),
{
    reveal(Seq::filter);
    if list.len() > 0 {
        let front = list.drop_last();
        let kept = front.filter(keep);
        if i < kept.len() {
            lemma_filtered_is_listed(front, keep, i);
            let j = choose|j: int| 0 <= j < front.len() && front[j] == kept[i];
            assert(list[j] == kept[i]);
            assert(list.filter(keep)[i] == kept[i]);
        } else {
            assert(list.filter(keep)[i] == list.last());
            assert(list[list.len() - 1] == list.last());
        }
    }
}

/// The first cell of the order that is not guessed, if there is one, is undecided and
/// on the board.
proof fn lemma_unguessed_is_open(known: Knowledge, order: Seq<(int, int)>, from: int)
    requires
        known.well_formed(),
        forall|i: int| 0 <= i < order.len() ==> in_bounds((#[trigger] order[i]).0, order[i].1),
        0 <= from,
        first_unguessed(known, order, from) is Some,
    ensures
        first_unguessed(known, order, from) matches Some(cell) && in_bounds(cell.0, cell.1)
            && known.undecided(cell.0, cell.1),
    decreases order.len() - from,
{
    if from < order.len() {
        if unguessed(known, order[from].0, order[from].1) {
            lemma_cell_of_index(order[from].0, order[from].1);
            let i = index(order[from].0, order[from].1);
            assert(known.alive[i] >= 0 && known.dead[i] >= 0);
        } else {
            lemma_unguessed_is_open(known, order, from + 1);
        }
    }
}

/// Whether the action of decision level `i`, if it is a guess, is about a cell that is
/// undecided on that level.
pub open spec fn names_open_cell(machine: Machine, i: int) -> bool {
    match machine.actions[i] {
        Action::MakeGuess => true,
        Action::FirstGuess(x, y, _) => machine.guesses[i].undecided(x as int, y as int),
        Action::SecondGuess(x, y, _) => machine.guesses[i].undecided(x as int, y as int),
    }
}

/// Whether every guess is about a cell that is undecided on its level, and every level
/// has fewer undecided cells than the level below it.
#[verifier::opaque]
pub open spec fn levels_ranked(machine: Machine) -> bool {
    &&& forall|i: int| 0 <= i < machine.actions.len() ==> #[trigger] names_open_cell(machine, i)
    &&& forall|i: int|
        0 < i < machine.actions.len() ==> open_cells(#[trigger] machine.guesses[i]) < open_cells(
            machine.guesses[i - 1],
        )
}

/// The invariant of a search, with what makes it finite.
pub open spec fn ranked(machine: Machine) -> bool {
    machine.well_formed() && levels_ranked(machine)
}

/// The number of actions that are left at most at level `i` once the search has come
/// back to it: after a first guess, the second guess and what follows it; after a
/// second guess, nothing.
pub open spec fn left_at(machine: Machine, i: int) -> int {
    match machine.actions[i] {
        Action::FirstGuess(_, _, _) => 1 + tree(open_cells(machine.guesses[i]) - 1),
        _ => 0,
    }
}

/// The number of actions that are left at most at the first `n` levels together.
pub open spec fn left_in(machine: Machine, n: int) -> int
    decreases n,
{
    if n <= 0 {
        0
    } else {
        left_in(machine, n - 1) + left_at(machine, n - 1)
    }
}

/// The number of actions that are left at most at the topmost level and above it.
pub open spec fn left_on_top(machine: Machine) -> int {
    let open = open_cells(machine.guesses.last());
    match machine.actions.last() {
        Action::MakeGuess => tree(open),
        Action::FirstGuess(_, _, _) => 2 + 2 * tree(open - 1),
        Action::SecondGuess(_, _, _) => 1 + tree(open - 1),
    }
}

/// The effort of a search: a bound on the number of actions that are left.
#[verifier::opaque]
pub open spec fn effort(machine: Machine) -> int {
    if machine.exhausted() {
        0
    } else {
        left_in(machine, machine.actions.len() - 1) + left_on_top(machine)
    }
}

/// What is left at some levels is not less than nothing.
pub proof fn lemma_left_in_bounds(machine: Machine, n: int)
    ensures
        0 <= left_in(machine, n),
    decreases n,
{
    if n > 0 {
        lemma_left_in_bounds(machine, n - 1);
        lemma_tree_grows(
            open_cells(machine.guesses[n - 1]) - 1,
            open_cells(machine.guesses[n - 1]) - 1,
        );
    }
}

/// Whether two searches have the same first `n` levels.
pub open spec fn same_levels(first: Machine, second: Machine, n: int) -> bool {
    forall|i: int|
        0 <= i < n ==> #[trigger] first.actions[i] == second.actions[i] && first.guesses[i]
            == second.guesses[i]
}

/// What is left at the first levels depends on these levels alone.
pub proof fn lemma_left_in_agrees(first: Machine, second: Machine, n: int)
    requires
        same_levels(first, second, n),
    ensures
        left_in(first, n) == left_in(second, n),
    decreases n,
{
    if n > 0 {
        assert(same_levels(first, second, n - 1)) by {
            assert forall|i: int| 0 <= i < n - 1 implies #[trigger] first.actions[i]
                == second.actions[i] && first.guesses[i] == second.guesses[i] by {
                assert(0 <= i < n);
            }
        }
        lemma_left_in_agrees(first, second, n - 1);
        assert(first.actions[n - 1] == second.actions[n - 1]);
        assert(first.guesses[n - 1] == second.guesses[n - 1]);
    }
}

/// Going back to the last first guess keeps the invariant and leaves what was left at
/// the levels that the search goes back over.
pub proof fn lemma_backtrack_ranked(machine: Machine)
    requires
        machine.stacked(),
        machine.guesses_below(machine.actions.len() as int),
        levels_ranked(machine),
    ensures
        ranked(machine.backtrack()),
        machine.backtrack().guesses_below(machine.backtrack().actions.len() as int),
        effort(machine.backtrack()) == left_in(machine, machine.actions.len() as int),
        machine.backtrack().target == machine.target,
        machine.backtrack().order == machine.order,
    decreases machine.actions.len(),
{
    reveal(levels_ranked);
    reveal(effort);
    let n = machine.actions.len() as int;
    if n > 0 {
        assert(Machine::names_a_cell(machine.actions[n - 1]));
        assert(names_open_cell(machine, n - 1));
        match machine.actions.last() {
            Action::MakeGuess => {
                assert(!(machine.actions[n - 1] is MakeGuess));
            },
            Action::FirstGuess(x, y, alive) => {
                let after = machine.without_action().with_action(Action::SecondGuess(x, y, alive));
                assert(after == machine.backtrack());
                assert(after.actions.len() == n);
                assert forall|i: int| 0 <= i < n implies Machine::names_a_cell(
                    #[trigger] after.actions[i],
                ) && !(after.actions[i] is MakeGuess) && names_open_cell(after, i) by {
                    if i < n - 1 {
                        assert(after.actions[i] == machine.actions[i]);
                        assert(names_open_cell(machine, i));
                    }
                }
                assert forall|i: int| 0 <= i < n - 1 implies #[trigger] after.actions[i]
                    == machine.actions[i] && after.guesses[i] == machine.guesses[i] by {}
                lemma_left_in_agrees(after, machine, n - 1);
            },
            Action::SecondGuess(_, _, _) => {
                let below = machine.without_action().without_guess();
                assert forall|i: int| 0 <= i < n - 1 implies #[trigger] below.actions[i]
                    == machine.actions[i] && below.guesses[i] == machine.guesses[i] by {}
                assert forall|i: int| 0 <= i < below.guesses.len() implies (
                #[trigger] below.guesses[i]).well_formed() && !below.guesses[i].contradiction
                    && settled(below.guesses[i], below.target) by {
                    assert(below.guesses[i] == machine.guesses[i]);
                }
                assert forall|i: int| 0 <= i < below.actions.len() implies Machine::names_a_cell(
                    #[trigger] below.actions[i],
                ) && !(below.actions[i] is MakeGuess) && names_open_cell(below, i) by {
                    assert(below.actions[i] == machine.actions[i]);
                    assert(names_open_cell(machine, i));
                }
                assert forall|i: int| 0 < i < below.actions.len() implies open_cells(
                    #[trigger] below.guesses[i],
                ) < open_cells(below.guesses[i - 1]) by {
                    assert(below.guesses[i] == machine.guesses[i]);
                    assert(below.guesses[i - 1] == machine.guesses[i - 1]);
                }
                lemma_left_in_agrees(below, machine, n - 1);
                lemma_backtrack_ranked(below);
            },
        }
    }
}

/// A guess that is made and meets no contradiction opens a level that keeps the
/// invariant, with less left than before.
proof fn lemma_attempt_ranked(machine: Machine, x: int, y: int, alive: bool, made: Action)
    requires
        ranked(machine),
        !machine.exhausted(),
        !(machine.actions.last() is MakeGuess),
        in_bounds(x, y),
        machine.guesses.last().undecided(x, y),
        machine.attempt(x, y, alive) is Some,
    ensures
        ranked(machine.attempt(x, y, alive)->0),
        effort(machine.attempt(x, y, alive)->0) <= left_in(machine, machine.actions.len() - 1)
            + left_at(machine, machine.actions.len() - 1) + tree(
            open_cells(machine.guesses.last()) - 1,
        ),
        machine.attempt(x, y, alive)->0.target == machine.target,
        machine.attempt(x, y, alive)->0.order == machine.order,
{
    reveal(levels_ranked);
    reveal(effort);
    let n = machine.actions.len() as int;
    let known = machine.guesses.last();
    let tried = propagate(known, machine.target, x, y, alive);
    let deeper = machine.attempt(x, y, alive)->0;
    assert(machine.guesses[n - 1].well_formed());
    lemma_guess_closes(known, machine.target, x, y, alive);
    lemma_propagate_settles(known, machine.target, x, y, alive);
    assert(deeper.actions.len() == n + 1 && deeper.guesses.len() == n + 1);
    assert forall|i: int| 0 <= i < n implies #[trigger] deeper.actions[i] == machine.actions[i]
        && deeper.guesses[i] == machine.guesses[i] by {}
    assert forall|i: int| 0 <= i < deeper.guesses.len() implies (#[trigger] deeper.guesses[i]).well_formed()
        && !deeper.guesses[i].contradiction && settled(deeper.guesses[i], deeper.target) by {
        if i < n {
            assert(deeper.guesses[i] == machine.guesses[i]);
        }
    }
    assert forall|i: int| 0 <= i < deeper.actions.len() implies Machine::names_a_cell(
        #[trigger] deeper.actions[i],
    ) && names_open_cell(deeper, i) by {
        if i < n {
            assert(deeper.actions[i] == machine.actions[i]);
            assert(names_open_cell(machine, i));
        }
    }
    assert forall|i: int| 0 <= i < deeper.actions.len() - 1 implies !(
    #[trigger] deeper.actions[i] is MakeGuess) by {
        assert(deeper.actions[i] == machine.actions[i]);
    }
    assert forall|i: int| 0 < i < deeper.actions.len() implies open_cells(
        #[trigger] deeper.guesses[i],
    ) < open_cells(deeper.guesses[i - 1]) by {
        if i < n {
            assert(deeper.guesses[i] == machine.guesses[i]);
        }
        assert(deeper.guesses[i - 1] == machine.guesses[i - 1]);
    }
    lemma_left_in_agrees(deeper, machine, n);
    lemma_tree_grows(open_cells(tried), open_cells(known) - 1);
}

/// One step of the search keeps the invariant and lowers the effort.
pub proof fn lemma_step_ranked(machine: Machine)
    requires
        ranked(machine),
        !machine.exhausted(),
    ensures
        ranked(machine.step().0),
        effort(machine.step().0) < effort(machine),
        machine.step().0.target == machine.target,
        machine.step().0.order == machine.order,
{
    reveal(levels_ranked);
    reveal(effort);
    let n = machine.actions.len() as int;
    let known = machine.guesses.last();
    let open = open_cells(known);
    let after = machine.step().0;
    reveal(Machine::step);
    assert(Machine::names_a_cell(machine.actions[n - 1]));
    assert(names_open_cell(machine, n - 1));
    assert(machine.guesses[n - 1].well_formed());
    lemma_left_in_bounds(machine, n - 1);
    lemma_tree_grows(open - 1, open - 1);
    lemma_tree_grows(open, open);
    match machine.actions.last() {
        Action::MakeGuess => {
            match choice(known, machine.order) {
                Some(cell) => {
                    lemma_choice_is_open(known, machine.order);
                    lemma_cell_of_index(cell.0, cell.1);
                    lemma_open_cell_counts(known, index(cell.0, cell.1), CELLS as int);
                    let first = Action::FirstGuess(
                        cell.0 as i32,
                        cell.1 as i32,
                        at(machine.target, cell.0, cell.1) > 0,
                    );
                    lemma_replace_ranked(machine, first);
                },
                None => {
                    let below = machine.without_action().without_guess();
                    lemma_below_ranked(machine);
                    lemma_backtrack_ranked(below);
                },
            }
        },
        Action::FirstGuess(x, y, alive) => {
            match machine.attempt(x as int, y as int, alive) {
                Some(deeper) => {
                    lemma_attempt_ranked(machine, x as int, y as int, alive, machine.actions.last());
                },
                None => {
                    lemma_replace_ranked(machine, Action::SecondGuess(x, y, alive));
                },
            }
        },
        Action::SecondGuess(x, y, alive) => {
            match machine.attempt(x as int, y as int, !alive) {
                Some(deeper) => {
                    lemma_attempt_ranked(machine, x as int, y as int, !alive, machine.actions.last());
                },
                None => {
                    lemma_backtrack_ranked(machine);
                },
            }
        },
    }
}

/// Another guess about an undecided cell in the place of the topmost action keeps the
/// invariant and what is left below.
proof fn lemma_replace_ranked(machine: Machine, action: Action)
    requires
        ranked(machine),
        !machine.exhausted(),
        !(action is MakeGuess),
        Machine::names_a_cell(action),
        action matches Action::FirstGuess(x, y, _) ==> machine.guesses.last().undecided(
            x as int,
            y as int,
        ),
        action matches Action::SecondGuess(x, y, _) ==> machine.guesses.last().undecided(
            x as int,
            y as int,
        ),
    ensures
        ranked(machine.without_action().with_action(action)),
        left_in(machine.without_action().with_action(action), machine.actions.len() - 1)
            == left_in(machine, machine.actions.len() - 1),
{
    reveal(levels_ranked);
    reveal(effort);
    let n = machine.actions.len() as int;
    let after = machine.without_action().with_action(action);
    assert(after.actions.len() == n);
    assert forall|i: int| 0 <= i < n - 1 implies #[trigger] after.actions[i] == machine.actions[i]
        && after.guesses[i] == machine.guesses[i] by {}
    assert forall|i: int| 0 <= i < n implies Machine::names_a_cell(#[trigger] after.actions[i])
        && names_open_cell(after, i) by {
        if i < n - 1 {
            assert(after.actions[i] == machine.actions[i]);
            assert(names_open_cell(machine, i));
        }
    }
    assert forall|i: int| 0 <= i < n - 1 implies !(#[trigger] after.actions[i] is MakeGuess) by {
        assert(after.actions[i] == machine.actions[i]);
    }
    lemma_left_in_agrees(after, machine, n - 1);
}

/// Without its topmost level, whose action was a choice, a search is ready to go back.
proof fn lemma_below_ranked(machine: Machine)
    requires
        ranked(machine),
        !machine.exhausted(),
    ensures
        machine.without_action().without_guess().stacked(),
        machine.without_action().without_guess().guesses_below(machine.actions.len() - 1),
        levels_ranked(machine.without_action().without_guess()),
        left_in(machine.without_action().without_guess(), machine.actions.len() - 1) == left_in(
            machine,
            machine.actions.len() - 1,
        ),
{
    reveal(levels_ranked);
    reveal(effort);
    let n = machine.actions.len() as int;
    let below = machine.without_action().without_guess();
    assert forall|i: int| 0 <= i < n - 1 implies #[trigger] below.actions[i] == machine.actions[i]
        && below.guesses[i] == machine.guesses[i] by {}
    assert forall|i: int| 0 <= i < below.guesses.len() implies (#[trigger] below.guesses[i]).well_formed()
        && !below.guesses[i].contradiction && settled(below.guesses[i], below.target) by {
        assert(below.guesses[i] == machine.guesses[i]);
    }
    assert forall|i: int| 0 <= i < below.actions.len() implies Machine::names_a_cell(
        #[trigger] below.actions[i],
    ) && !(below.actions[i] is MakeGuess) && names_open_cell(below, i) by {
        assert(below.actions[i] == machine.actions[i]);
        assert(names_open_cell(machine, i));
    }
    assert forall|i: int| 0 < i < below.actions.len() implies open_cells(
        #[trigger] below.guesses[i],
    ) < open_cells(below.guesses[i - 1]) by {
        assert(below.guesses[i] == machine.guesses[i]);
        assert(below.guesses[i - 1] == machine.guesses[i - 1]);
    }
    lemma_left_in_agrees(below, machine, n - 1);
}

/// The effort of a search is not less than nothing.
pub proof fn lemma_effort_bounds(machine: Machine)
    ensures
        0 <= effort(machine),
        !machine.exhausted() ==> 1 <= effort(machine),
{
    reveal(levels_ranked);
    reveal(effort);
    if !machine.exhausted() {
        let open = open_cells(machine.guesses.last());
        lemma_left_in_bounds(machine, machine.actions.len() - 1);
        lemma_tree_grows(open - 1, open - 1);
        lemma_tree_grows(open, open);
    }
}

/// With nothing known, no cell has all its neighbours decided, so none disagrees.
pub proof fn lemma_nothing_settled(target: Seq<int>)
    ensures
        settled(Knowledge::nothing(), target),
{
    let nothing = Knowledge::nothing();
    assert forall|c: int| 0 <= c < CELLS implies #[trigger] agrees(
        nothing,
        target,
        c,
    ) by {
        assert(nothing.min_neighbours[c] == 0);
        assert(nothing.max_neighbours[c] == 8);
    }
}

/// A search that starts keeps the invariant.
pub proof fn lemma_start_ranked(target: Seq<int>, order: Seq<(int, int)>)
    requires
        is_state(target),
        is_search_order(order, target),
    ensures
        ranked(Machine::start(target, order)),
{
    reveal(levels_ranked);
    reveal(effort);
    let machine = Machine::start(target, order);
    lemma_nothing_well_formed();
    lemma_nothing_settled(target);
    assert(machine.guesses.len() == 1 && machine.actions.len() == 1);
    assert(machine.guesses[0] == Knowledge::nothing());
    assert(machine.actions[0] == Action::MakeGuess);
    assert(machine.stacked()) by {
        assert forall|i: int| 0 <= i < machine.guesses.len() implies (
        #[trigger] machine.guesses[i]).well_formed() && !machine.guesses[i].contradiction
            && settled(machine.guesses[i], machine.target) by {
            assert(i == 0);
        }
        assert forall|i: int| 0 <= i < machine.actions.len() implies Machine::names_a_cell(
            #[trigger] machine.actions[i],
        ) by {
            assert(i == 0);
        }
    }
    assert(levels_ranked(machine)) by {
        assert forall|i: int| 0 <= i < machine.actions.len() implies #[trigger] names_open_cell(
            machine,
            i,
        ) by {
            assert(i == 0);
        }
    }
}

/// What a step finds is a predecessor of the target.
pub proof fn lemma_step_finds_predecessors(machine: Machine)
    requires
        machine.well_formed(),
        !machine.exhausted(),
    ensures
        machine.step().1 matches Some(grid) ==> is_predecessor(grid, machine.target),
{
    reveal(Machine::step);
    let n = machine.actions.len() as int;
    assert(machine.guesses[n - 1].well_formed());
    if machine.step().1 is Some {
        lemma_no_choice_is_complete(machine.guesses.last(), machine.order);
        lemma_complete_is_predecessor(machine.guesses.last(), machine.target);
    }
}

/// A call of the search keeps the invariant, loses no predecessor but the one that it
/// finds, finds predecessors only, and lowers the effort unless there is nothing to do.
pub proof fn lemma_run_ranked(machine: Machine, budget: nat, used: nat)
    requires
        ranked(machine),
    ensures
        ranked(machine.run(budget, used).0),
        machine.run(budget, used).0.target == machine.target,
        machine.run(budget, used).0.order == machine.order,
        effort(machine.run(budget, used).0) <= effort(machine),
        used < budget && !machine.exhausted() ==> effort(machine.run(budget, used).0) < effort(
            machine,
        ),
        keeps_reach(machine, machine.run(budget, used).0, machine.run(budget, used).1.found()),
        machine.run(budget, used).1 is Unsatisfiable ==> machine.run(budget, used).0.exhausted(),
        machine.run(budget, used).1 matches Outcome::Found(grid, _) ==> is_predecessor(
            grid,
            machine.target,
        ),
    decreases budget - used,
{
    lemma_keeps_reach_itself(machine);
    if !machine.exhausted() && used < budget {
        let next = machine.step().0;
        let found = machine.step().1;
        lemma_step_ranked(machine);
        lemma_step_keeps_all(machine);
        lemma_step_finds_predecessors(machine);
        if found is None && used + 1 < budget {
            lemma_run_ranked(next, budget, (used + 1) as nat);
            lemma_keeps_reach_on(
                machine,
                next,
                next.run(budget, (used + 1) as nat).0,
                next.run(budget, (used + 1) as nat).1.found(),
            );
        }
    }
}

/// The search after a number of calls with the same budget.
pub open spec fn after_calls(machine: Machine, budget: nat, calls: nat) -> Machine
    decreases calls,
{
    if calls == 0 {
        machine
    } else {
        after_calls(machine.run(budget, 0).0, budget, (calls - 1) as nat)
    }
}

/// The result of the call that follows `calls` calls with the same budget.
pub open spec fn result_of_call(machine: Machine, budget: nat, calls: nat) -> Outcome {
    after_calls(machine, budget, calls).run(budget, 0).1
}

/// The call after one more call is the call after as many calls of the search that
/// the first call has left.
pub proof fn lemma_call_shift(machine: Machine, budget: nat, calls: nat)
    ensures
        result_of_call(machine, budget, calls + 1) == result_of_call(
            machine.run(budget, 0).0,
            budget,
            calls,
        ),
{
    assert(after_calls(machine, budget, calls + 1) == after_calls(
        machine.run(budget, 0).0,
        budget,
        calls,
    ));
}

/// Every predecessor is found in time: a search that is called again and again with a
/// budget of at least 1 returns every predecessor of the target that it has before it
/// after finitely many calls, and does not say before that there is none. The result
/// is the number of calls before the one that returns the predecessor `p`.
pub proof fn lemma_found_in_time(machine: Machine, budget: nat, p: Seq<int>) -> (calls: nat)
    requires
        ranked(machine),
        budget >= 1,
        is_predecessor(p, machine.target),
        within_reach(machine, p),
    ensures
        result_of_call(machine, budget, calls).found() == Some(p),
        forall|earlier: nat|
            earlier <= calls ==> !(#[trigger] result_of_call(machine, budget, earlier)
                is Unsatisfiable),
    decreases effort(machine),
{
    let next = machine.run(budget, 0).0;
    let outcome = machine.run(budget, 0).1;
    assert(result_of_call(machine, budget, 0) == outcome);
    assert(!machine.exhausted()) by {
        if machine.exhausted() {
            lemma_exhausted_reaches_nothing(machine, p);
        }
    }
    assert(ranked(next) && next.target == machine.target && effort(next) < effort(machine)
        && 0 <= effort(next) && (outcome.found() == Some(p) || within_reach(next, p))) by {
        lemma_run_ranked(machine, budget, 0);
        lemma_effort_bounds(next);
    }
    assert(!(outcome is Unsatisfiable)) by {
        lemma_run_ranked(machine, budget, 0);
        if next.exhausted() {
            lemma_exhausted_reaches_nothing(next, p);
        }
    }
    if outcome.found() == Some(p) {
        0
    } else {
        let later = lemma_found_in_time(next, budget, p);
        assert forall|earlier: nat| earlier <= later + 1 implies !(#[trigger] result_of_call(
            machine,
            budget,
            earlier,
        ) is Unsatisfiable) by {
            if earlier > 0 {
                lemma_call_shift(machine, budget, (earlier - 1) as nat);
                assert(!(result_of_call(next, budget, (earlier - 1) as nat) is Unsatisfiable));
            }
        }
        lemma_call_shift(machine, budget, later);
        later + 1
    }
}

/// Every search comes to an end: called again and again with a budget of at least 1,
/// it says after finitely many calls that every branch has been tried. The result is
/// the number of calls before the one that says so.
pub proof fn lemma_exhausted_in_time(machine: Machine, budget: nat) -> (calls: nat)
    requires
        ranked(machine),
        budget >= 1,
    ensures
        result_of_call(machine, budget, calls) is Unsatisfiable,
    decreases effort(machine),
{
    let next = machine.run(budget, 0).0;
    lemma_run_ranked(machine, budget, 0);
    lemma_effort_bounds(next);
    if machine.exhausted() {
        0
    } else {
        let later = lemma_exhausted_in_time(next, budget);
        lemma_call_shift(machine, budget, later);
        later + 1
    }
}

/// A search that starts finds every predecessor of its target in time.
pub proof fn lemma_every_predecessor_is_found(
    target: Seq<int>,
    order: Seq<(int, int)>,
    budget: nat,
    p: Seq<int>,
) -> (calls: nat)
    requires
        is_search_order(order, target),
        budget >= 1,
        is_predecessor(p, target),
    ensures
        result_of_call(Machine::start(target, order), budget, calls).found() == Some(p),
        forall|earlier: nat|
            earlier <= calls ==> !(#[trigger] result_of_call(
                Machine::start(target, order),
                budget,
                earlier,
            ) is Unsatisfiable),
{
    lemma_step_is_state(p);
    lemma_start_ranked(target, order);
    lemma_start_reaches(target, order, p);
    lemma_found_in_time(Machine::start(target, order), budget, p)
}

/// A still life comes before itself: a search for the predecessors of a board that is
/// its own successor returns that board after finitely many calls.
pub proof fn lemma_still_life_is_found(target: Seq<int>, order: Seq<(int, int)>, budget: nat) -> (calls:
    nat)
    requires
        is_state(target),
        step_of(target) == target,
        is_search_order(order, target),
        budget >= 1,
    ensures
        result_of_call(Machine::start(target, order), budget, calls).found() == Some(target),
        forall|earlier: nat|
            earlier <= calls ==> !(#[trigger] result_of_call(
                Machine::start(target, order),
                budget,
                earlier,
            ) is Unsatisfiable),
{
    lemma_every_predecessor_is_found(target, order, budget, target)
}

} // verus!
