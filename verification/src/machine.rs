//! The search as a machine: a stack of decision levels, a stack of what to do next, and
//! the step that processes the topmost action.
//!
//! This module is the mathematical model of [`crate::searcher::Searcher`].

use vstd::prelude::*;
use crate::grid::{alive_positions, difference_of};
use crate::propagation::{propagate, Knowledge};
use crate::soundness::settled;
use crate::torus::{at, column, in_bounds, is_state, lemma_index_of_cell, row, wrap, CELLS, SIZE};

verus! {

/// What the search does next.
#[derive(Clone, Copy, Debug, PartialEq, Eq)]
pub enum Action {
    /// Choose an undecided cell and try it.
    MakeGuess,
    /// Try the cell in its first state, alive if the flag is set.
    FirstGuess(i32, i32, bool),
    /// Try the cell in the state opposite to its first, which the flag records.
    SecondGuess(i32, i32, bool),
}

/// The result of a search, as plain values.
pub enum Outcome {
    /// A predecessor, and the number of actions processed to find it.
    Found(Seq<int>, nat),
    /// The budget ran out after this many actions.
    Working(nat),
    /// Every branch has been tried.
    Unsatisfiable,
}

/// The state of a search.
pub struct Machine {
    /// The frame whose predecessors are sought.
    pub target: Seq<int>,
    /// The decision levels, the current one last.
    pub guesses: Seq<Knowledge>,
    /// The actions still to process, the next one last.
    pub actions: Seq<Action>,
    /// All cells in the order in which they are tried.
    pub order: Seq<(int, int)>,
}

impl Outcome {
    /// The predecessor that has been found, if any.
    pub open spec fn found(self) -> Option<Seq<int>> {
        match self {
            Outcome::Found(grid, _) => Some(grid),
            _ => None,
        }
    }
}

/// The distance between two coordinates around the torus.
pub open spec fn torus_distance(a: int, b: int) -> int {
    let d = wrap(a - b);
    if d <= SIZE - d {
        d
    } else {
        SIZE - d
    }
}

/// The toroidal L1 distance between two cells.
pub open spec fn cell_distance(p: (int, int), q: (int, int)) -> int {
    torus_distance(p.0, q.0) + torus_distance(p.1, q.1)
}

/// The distance that stands for "no living cell at all": more than any two cells are apart.
pub const FAR: i32 = 13;

/// The least distance from `cell` to one of the first `n` of `living`, or [`FAR`].
pub open spec fn nearest(living: Seq<(int, int)>, cell: (int, int), n: int) -> int
    decreases n,
{
    if n <= 0 {
        FAR as int
    } else {
        let before = nearest(living, cell, n - 1);
        let here = cell_distance(living[n - 1], cell);
        if here < before {
            here
        } else {
            before
        }
    }
}

/// The least toroidal L1 distance from `cell` to a living cell of `target`.
pub open spec fn activity_distance(target: Seq<int>, cell: (int, int)) -> int {
    nearest(alive_positions(target), cell, alive_positions(target).len() as int)
}

/// Whether `p` is tried before `q`: it is further from the living cells of `target`, or
/// as far and first in lexicographic order.
pub open spec fn precedes(target: Seq<int>, p: (int, int), q: (int, int)) -> bool {
    let dp = activity_distance(target, p);
    let dq = activity_distance(target, q);
    dp > dq || (dp == dq && (p.0 < q.0 || (p.0 == q.0 && p.1 < q.1)))
}

/// Whether `order` lists every cell of the board, in the order in which a search for
/// predecessors of `target` tries them.
pub open spec fn is_search_order(order: Seq<(int, int)>, target: Seq<int>) -> bool {
    &&& forall|i: int| 0 <= i < order.len() ==> in_bounds((#[trigger] order[i]).0, order[i].1)
    &&& forall|i: int, j: int|
        0 <= i < j < order.len() ==> precedes(target, #[trigger] order[i], #[trigger] order[j])
    &&& forall|x: int, y: int| in_bounds(x, y) ==> #[trigger] order.contains((x, y))
}

/// Whether `cell` comes before the cell at position `n` of the scan at distance `d`.
pub open spec fn ranked_before(target: Seq<int>, cell: (int, int), d: int, n: int) -> bool {
    let own = activity_distance(target, cell);
    own > d || (own == d && cell.0 * SIZE + cell.1 < n)
}

/// Whether `order` lists, in the order in which they are tried, exactly the cells that
/// come before the cell at position `n` of the scan at distance `d`.
pub open spec fn ordered_up_to(order: Seq<(int, int)>, target: Seq<int>, d: int, n: int) -> bool {
    &&& forall|i: int|
        0 <= i < order.len() ==> in_bounds((#[trigger] order[i]).0, order[i].1) && ranked_before(
            target,
            order[i],
            d,
            n,
        )
    &&& forall|i: int, j: int|
        0 <= i < j < order.len() ==> precedes(target, #[trigger] order[i], #[trigger] order[j])
    &&& forall|x: int, y: int|
        in_bounds(x, y) && ranked_before(target, (x, y), d, n) ==> #[trigger] order.contains((x, y))
}

/// No cell is further than [`FAR`] from the living cells.
pub proof fn lemma_nearest_bounds(living: Seq<(int, int)>, cell: (int, int), n: int)
    ensures
        0 <= nearest(living, cell, n) <= FAR,
    decreases n,
{
    if n > 0 {
        lemma_nearest_bounds(living, cell, n - 1);
    }
}

/// Before the first scan, no cell has been listed and none was due.
pub proof fn lemma_order_starts(target: Seq<int>)
    ensures
        ordered_up_to(Seq::empty(), target, FAR as int, 0),
{
    assert forall|x: int, y: int| in_bounds(x, y) implies !ranked_before(
        target,
        (x, y),
        FAR as int,
        0,
    ) by {
        lemma_nearest_bounds(
            alive_positions(target),
            (x, y),
            alive_positions(target).len() as int,
        );
    }
}

/// The cell at position `n` of the scan, at distance `d`, is tried next.
pub proof fn lemma_order_takes(order: Seq<(int, int)>, target: Seq<int>, d: int, n: int)
    requires
        ordered_up_to(order, target, d, n),
        0 <= n < SIZE * SIZE,
        activity_distance(target, (n / (SIZE as int), n % (SIZE as int))) == d,
    ensures
        ordered_up_to(order.push((n / (SIZE as int), n % (SIZE as int))), target, d, n + 1),
{
    let cell = (n / (SIZE as int), n % (SIZE as int));
    let longer = order.push(cell);
    assert forall|i: int| 0 <= i < longer.len() implies in_bounds((#[trigger] longer[i]).0, longer[i].1)
        && ranked_before(target, longer[i], d, n + 1) by {
        if i < order.len() {
            assert(longer[i] == order[i]);
        }
    }
    assert forall|i: int, j: int| 0 <= i < j < longer.len() implies precedes(
        target,
        #[trigger] longer[i],
        #[trigger] longer[j],
    ) by {
        assert(longer[i] == order[i]);
        if j < order.len() {
            assert(longer[j] == order[j]);
        } else {
            assert(ranked_before(target, order[i], d, n));
        }
    }
    assert forall|x: int, y: int| in_bounds(x, y) && ranked_before(target, (x, y), d, n + 1) implies #[trigger] longer.contains(
        (x, y),
    ) by {
        if ranked_before(target, (x, y), d, n) {
            assert(order.contains((x, y)));
            let i = choose|i: int| 0 <= i < order.len() && order[i] == (x, y);
            assert(longer[i] == (x, y));
        } else {
            assert(x * SIZE + y == n);
            assert((x, y) == cell);
            assert(longer[order.len() as int] == cell);
        }
    }
}

/// The cell at position `n` of the scan is not at distance `d`: it is not tried now.
pub proof fn lemma_order_skips(order: Seq<(int, int)>, target: Seq<int>, d: int, n: int)
    requires
        ordered_up_to(order, target, d, n),
        0 <= n < SIZE * SIZE,
        activity_distance(target, (n / (SIZE as int), n % (SIZE as int))) != d,
    ensures
        ordered_up_to(order, target, d, n + 1),
{
    assert forall|x: int, y: int| in_bounds(x, y) && ranked_before(target, (x, y), d, n + 1) implies #[trigger] order.contains(
        (x, y),
    ) by {
        if !ranked_before(target, (x, y), d, n) {
            assert(x * SIZE + y == n);
            assert((x, y) == (n / (SIZE as int), n % (SIZE as int)));
        }
    }
}

/// After a whole scan at distance `d`, the cells at the next smaller distance follow.
pub proof fn lemma_order_turns(order: Seq<(int, int)>, target: Seq<int>, d: int)
    requires
        ordered_up_to(order, target, d, SIZE * SIZE),
    ensures
        ordered_up_to(order, target, d - 1, 0),
{
    assert forall|x: int, y: int| in_bounds(x, y) && ranked_before(target, (x, y), d - 1, 0) implies #[trigger] order.contains(
        (x, y),
    ) by {
        assert(ranked_before(target, (x, y), d, SIZE * SIZE));
    }
}

/// Once every distance has had its scan, the order is complete.
pub proof fn lemma_order_complete(order: Seq<(int, int)>, target: Seq<int>)
    requires
        ordered_up_to(order, target, -1, 0),
    ensures
        is_search_order(order, target),
{
    assert forall|x: int, y: int| in_bounds(x, y) implies #[trigger] order.contains((x, y)) by {
        lemma_nearest_bounds(
            alive_positions(target),
            (x, y),
            alive_positions(target).len() as int,
        );
        assert(ranked_before(target, (x, y), -1, 0));
    }
}

/// The order in which a search for predecessors of `target` tries the cells.
pub open spec fn search_order(target: Seq<int>) -> Seq<(int, int)> {
    choose|order: Seq<(int, int)>| is_search_order(order, target)
}

/// Of two different cells of the board, exactly one is tried before the other.
pub proof fn lemma_precedes_decides(target: Seq<int>, p: (int, int), q: (int, int))
    ensures
        !(precedes(target, p, q) && precedes(target, q, p)),
        p != q ==> precedes(target, p, q) || precedes(target, q, p),
        !precedes(target, p, p),
{
}

/// Two orders for the same target agree up to any position that both have.
proof fn lemma_orders_agree(
    first: Seq<(int, int)>,
    second: Seq<(int, int)>,
    target: Seq<int>,
    k: int,
)
    requires
        is_search_order(first, target),
        is_search_order(second, target),
        0 <= k < first.len(),
        k < second.len(),
    ensures
        first[k] == second[k],
    decreases k,
{
    let p = first[k];
    let q = second[k];
    if p != q {
        lemma_precedes_decides(target, p, q);
        if precedes(target, p, q) {
            // `p` stands somewhere in `second`, and before `q`.
            assert(second.contains(p));
            let j = choose|j: int| 0 <= j < second.len() && second[j] == p;
            if j > k {
                assert(precedes(target, second[k], second[j]));
            }
            assert(j < k);
            lemma_orders_agree(first, second, target, j);
            assert(precedes(target, first[j], first[k]));
            lemma_precedes_decides(target, p, p);
        } else {
            assert(first.contains(q));
            let j = choose|j: int| 0 <= j < first.len() && first[j] == q;
            if j > k {
                assert(precedes(target, first[k], first[j]));
            }
            assert(j < k);
            lemma_orders_agree(first, second, target, j);
            assert(precedes(target, second[j], second[k]));
            lemma_precedes_decides(target, q, q);
        }
    }
}

/// There is only one order in which the cells are tried.
pub proof fn lemma_search_order_unique(order: Seq<(int, int)>, target: Seq<int>)
    requires
        is_search_order(order, target),
    ensures
        order == search_order(target),
{
    let other = search_order(target);
    assert(is_search_order(other, target));
    lemma_order_no_longer(order, other, target);
    lemma_order_no_longer(other, order, target);
    assert forall|k: int| 0 <= k < order.len() implies order[k] == other[k] by {
        lemma_orders_agree(order, other, target, k);
    }
    assert(order =~= other);
}

/// An order does not go on where another for the same target has ended.
proof fn lemma_order_no_longer(first: Seq<(int, int)>, second: Seq<(int, int)>, target: Seq<int>)
    requires
        is_search_order(first, target),
        is_search_order(second, target),
    ensures
        second.len() <= first.len(),
{
    if first.len() < second.len() {
        let k = first.len() as int;
        let p = second[k];
        assert(first.contains(p));
        let j = choose|j: int| 0 <= j < first.len() && first[j] == p;
        lemma_orders_agree(first, second, target, j);
        assert(precedes(target, second[j], second[k]));
        lemma_precedes_decides(target, p, p);
    }
}

/// Whether the cell `(x, y)` is neither guessed alive nor guessed dead.
pub open spec fn unguessed(known: Knowledge, x: int, y: int) -> bool {
    !(at(known.alive, x, y) > 0) && !(at(known.dead, x, y) > 0)
}

/// The advice `marks` without the cells that are decided by now.
pub open spec fn wanted(marks: Seq<int>, known: Knowledge) -> Seq<int> {
    difference_of(difference_of(marks, known.alive), known.dead)
}

/// The first cell of `order`, from position `from` on, that is not guessed yet.
pub open spec fn first_unguessed(known: Knowledge, order: Seq<(int, int)>, from: int) -> Option<
    (int, int),
>
    decreases order.len() - from,
{
    if from < 0 || from >= order.len() {
        None
    } else if unguessed(known, order[from].0, order[from].1) {
        Some(order[from])
    } else {
        first_unguessed(known, order, from + 1)
    }
}

/// The cell to decide next: one that is advised to be tried dead, else one that is
/// advised to be tried alive, else the first of `order` that is not guessed yet.
pub open spec fn choice(known: Knowledge, order: Seq<(int, int)>) -> Option<(int, int)> {
    let dead_first = alive_positions(wanted(known.try_dead, known));
    let alive_first = alive_positions(wanted(known.try_alive, known));
    if dead_first.len() > 0 {
        Some(dead_first[0])
    } else if alive_first.len() > 0 {
        Some(alive_first[0])
    } else {
        first_unguessed(known, order, 0)
    }
}

impl Machine {
    /// The start of a search for predecessors of `target` that tries the cells in `order`:
    /// nothing is known, and the first thing to do is to choose a cell.
    pub open spec fn start(target: Seq<int>, order: Seq<(int, int)>) -> Machine {
        Machine { target, guesses: seq![Knowledge::nothing()], actions: seq![Action::MakeGuess], order }
    }

    /// Whether every branch has been tried.
    pub open spec fn exhausted(self) -> bool {
        self.actions.len() == 0
    }

    /// The machine without its topmost action.
    pub open spec fn without_action(self) -> Machine {
        Machine { actions: self.actions.drop_last(), ..self }
    }

    /// The machine without its current decision level.
    pub open spec fn without_guess(self) -> Machine {
        Machine { guesses: self.guesses.drop_last(), ..self }
    }

    /// The machine with one more action to process.
    pub open spec fn with_action(self, action: Action) -> Machine {
        Machine { actions: self.actions.push(action), ..self }
    }

    /// Gives up the current decision level: the last first guess becomes a second guess,
    /// and every second guess above it goes, each with the decision level it stood on.
    pub open spec fn backtrack(self) -> Machine
        decreases self.actions.len(),
    {
        if self.actions.len() == 0 {
            self
        } else {
            match self.actions.last() {
                Action::MakeGuess => self,
                Action::FirstGuess(x, y, alive) => self.without_action().with_action(
                    Action::SecondGuess(x, y, alive),
                ),
                Action::SecondGuess(_, _, _) => self.without_action().without_guess().backtrack(),
            }
        }
    }

    /// Tries the cell `(x, y)` in one state on a copy of the current decision level. Where
    /// propagation meets no contradiction, the copy becomes the new level and a cell is
    /// chosen next.
    pub open spec fn attempt(self, x: int, y: int, alive: bool) -> Option<Machine> {
        let tried = propagate(self.guesses.last(), self.target, x, y, alive);
        if tried.contradiction {
            None
        } else {
            Some(
                Machine { guesses: self.guesses.push(tried), ..self }.with_action(
                    Action::MakeGuess,
                ),
            )
        }
    }

    /// Processes the topmost action. The second component is the predecessor that this
    /// step has found, if any.
    #[verifier::opaque]
    pub open spec fn step(self) -> (Machine, Option<Seq<int>>) {
        match self.actions.last() {
            Action::MakeGuess => {
                match choice(self.guesses.last(), self.order) {
                    Some(cell) => (
                        self.without_action().with_action(
                            Action::FirstGuess(
                                cell.0 as i32,
                                cell.1 as i32,
                                at(self.target, cell.0, cell.1) > 0,
                            ),
                        ),
                        None,
                    ),
                    None => (
                        self.without_action().without_guess().backtrack(),
                        Some(self.guesses.last().alive),
                    ),
                }
            },
            Action::FirstGuess(x, y, alive) => {
                match self.attempt(x as int, y as int, alive) {
                    Some(deeper) => (deeper, None),
                    None => (
                        self.without_action().with_action(Action::SecondGuess(x, y, alive)),
                        None,
                    ),
                }
            },
            Action::SecondGuess(x, y, alive) => {
                match self.attempt(x as int, y as int, !alive) {
                    Some(deeper) => (deeper, None),
                    None => (self.backtrack(), None),
                }
            },
        }
    }

    /// Processes actions until a predecessor is found, `budget` actions have been
    /// processed in all, or none is left. With nothing left of the budget no action is
    /// processed. `used` counts the actions processed so far.
    pub open spec fn run(self, budget: nat, used: nat) -> (Machine, Outcome)
        decreases budget - used,
    {
        if self.exhausted() {
            (self, Outcome::Unsatisfiable)
        } else if used >= budget {
            (self, Outcome::Working(used))
        } else {
            let (next, found) = self.step();
            match found {
                Some(grid) => (next, Outcome::Found(grid, used + 1)),
                None => {
                    if used + 1 >= budget {
                        (next, Outcome::Working(used + 1))
                    } else {
                        next.run(budget, used + 1)
                    }
                },
            }
        }
    }
}

/// Where no cell of `order` is left unguessed from position `from` on, every cell listed
/// from there on is guessed.
pub proof fn lemma_none_unguessed(known: Knowledge, order: Seq<(int, int)>, from: int, j: int)
    requires
        0 <= from <= j < order.len(),
        first_unguessed(known, order, from) is None,
    ensures
        !unguessed(known, order[j].0, order[j].1),
    decreases order.len() - from,
{
    if from < j {
        lemma_none_unguessed(known, order, from + 1, j);
    }
}

/// Where there is no cell to decide next and `order` lists every cell, every cell is decided.
pub proof fn lemma_no_choice_is_complete(known: Knowledge, order: Seq<(int, int)>)
    requires
        forall|x: int, y: int| in_bounds(x, y) ==> #[trigger] order.contains((x, y)),
        choice(known, order) is None,
    ensures
        known.complete(),
{
    assert forall|i: int| 0 <= i < CELLS implies !#[trigger] known.undecided(column(i), row(i)) by {
        lemma_index_of_cell(i);
        assert(order.contains((column(i), row(i))));
        let j = choose|j: int| 0 <= j < order.len() && order[j] == (column(i), row(i));
        lemma_none_unguessed(known, order, 0, j);
    }
}

impl Machine {
    /// Whether the action names a cell of the board.
    pub open spec fn names_a_cell(action: Action) -> bool {
        match action {
            Action::MakeGuess => true,
            Action::FirstGuess(x, y, _) => in_bounds(x as int, y as int),
            Action::SecondGuess(x, y, _) => in_bounds(x as int, y as int),
        }
    }

    /// The invariant of a search without its rule on where a choice may stand: every
    /// action below the top has its own decision level, every level is a well-formed
    /// guess without contradiction that agrees with the target, the cells named are
    /// cells of the board, and every cell is tried.
    pub open spec fn stacked(self) -> bool {
        &&& is_state(self.target)
        &&& self.guesses.len() == self.actions.len()
        &&& forall|i: int|
            0 <= i < self.guesses.len() ==> (#[trigger] self.guesses[i]).well_formed()
                && !self.guesses[i].contradiction && settled(self.guesses[i], self.target)
        &&& forall|i: int| 0 <= i < self.actions.len() ==> Self::names_a_cell(#[trigger] self.actions[i])
        &&& forall|i: int|
            0 <= i < self.order.len() ==> in_bounds((#[trigger] self.order[i]).0, self.order[i].1)
        &&& forall|x: int, y: int| in_bounds(x, y) ==> #[trigger] self.order.contains((x, y))
    }

    /// Whether the first `n` actions are all guesses.
    pub open spec fn guesses_below(self, n: int) -> bool {
        forall|i: int| 0 <= i < n ==> !(#[trigger] self.actions[i] is MakeGuess)
    }

    /// The invariant of a search: only the topmost action can be a choice.
    pub open spec fn well_formed(self) -> bool {
        self.stacked() && self.guesses_below(self.actions.len() - 1)
    }
}

} // verus!
