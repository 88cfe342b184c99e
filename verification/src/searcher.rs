//! The backtracking search for predecessors of a frame.

use std::ops::SubAssign;
use vstd::prelude::*;
use crate::completeness::{
    keeps_reach, lemma_keeps_reach_itself, lemma_keeps_reach_on, lemma_start_reaches_all,
    lemma_step_keeps_all, reaches_all,
};
use crate::grid::{alive_positions, positions, scanned, wrap_coordinate, Grid};
use crate::guess::{lemma_nothing_well_formed, Guess};
use crate::machine::{
    activity_distance, cell_distance, choice, first_unguessed, is_search_order,
    lemma_no_choice_is_complete, lemma_order_complete, lemma_order_skips, lemma_order_starts,
    lemma_order_takes, lemma_order_turns, lemma_search_order_unique, nearest, ordered_up_to,
    search_order, torus_distance, unguessed, wanted, Action, Machine, Outcome, FAR,
};
use crate::progress::{effort, lemma_effort_bounds, lemma_run_ranked, lemma_start_ranked, ranked};
use crate::propagation::Knowledge;
use crate::soundness::{lemma_complete_is_predecessor, lemma_propagate_settles, settled};
use crate::torus::{at, in_bounds, is_predecessor, is_state, CELLS, SIZE};

verus! {

/// A search for the predecessors of one frame, which can be run a few steps at a time.
pub struct Searcher {
    /// The frame whose predecessors are sought.
    next: Grid,
    /// The decision levels: each is the one below it with one more cell decided.
    guess_stack: Vec<Guess>,
    /// What is left to do, the next action last.
    action_stack: Vec<Action>,
    /// All cells, in the order in which they are tried.
    all_cells: Vec<(i32, i32)>,
}

/// How a call of [`Searcher::search`] ended.
pub enum SearchResult {
    /// A predecessor was found after this many actions. The search can go on.
    Found(Grid, usize),
    /// The budget ran out after this many actions. The search can go on.
    Working(usize),
    /// Every branch has been tried: there are no further predecessors.
    Unsatisfiable,
}

impl View for SearchResult {
    type V = Outcome;

    open spec fn view(&self) -> Outcome {
        match self {
            SearchResult::Found(grid, iterations) => Outcome::Found(grid@, *iterations as nat),
            SearchResult::Working(iterations) => Outcome::Working(*iterations as nat),
            SearchResult::Unsatisfiable => Outcome::Unsatisfiable,
        }
    }
}

/// What each of a stack of guesses knows.
pub open spec fn knowledge_of(guesses: Seq<Guess>) -> Seq<Knowledge> {
    Seq::new(guesses.len(), |i: int| guesses[i]@)
}

impl View for Searcher {
    type V = Machine;

    closed spec fn view(&self) -> Machine {
        Machine {
            target: self.next@,
            guesses: knowledge_of(self.guess_stack@),
            actions: self.action_stack@,
            order: positions(self.all_cells@),
        }
    }
}

/// The distance between two reduced coordinates around the torus.
fn axis_distance(a: i32, b: i32) -> (d: i32)
    requires
        0 <= a < SIZE,
        0 <= b < SIZE,
    ensures
        d == torus_distance(a as int, b as int),
        0 <= d <= SIZE / 2,
{
    let forward = wrap_coordinate(a - b);
    let backward = SIZE - forward;
    if forward <= backward {
        forward
    } else {
        backward
    }
}

/// The least toroidal L1 distance from the cell `(x, y)` to one of `living`, or [`FAR`].
fn distance_to(living: &Vec<(i32, i32)>, x: i32, y: i32) -> (d: i32)
    requires
        in_bounds(x as int, y as int),
        forall|i: int|
            0 <= i < living.len() ==> in_bounds((#[trigger] living@[i]).0 as int, living@[i].1 as int),
    ensures
        d == nearest(positions(living@), (x as int, y as int), living.len() as int),
        0 <= d <= FAR,
{
    let mut best = FAR;
    let mut i: usize = 0;
    while i < living.len()
        invariant
            i <= living.len(),
            in_bounds(x as int, y as int),
            forall|j: int|
                0 <= j < living.len() ==> in_bounds(
                    (#[trigger] living@[j]).0 as int,
                    living@[j].1 as int,
                ),
            best == nearest(positions(living@), (x as int, y as int), i as int),
            0 <= best <= FAR,
        decreases living.len() - i,
    {
        let (ax, ay) = living[i];
        let here = axis_distance(ax, x) + axis_distance(ay, y);
        proof {
            assert(positions(living@)[i as int] == (ax as int, ay as int));
            assert(here == cell_distance((ax as int, ay as int), (x as int, y as int)));
        }
        if here < best {
            best = here;
        }
        i = i + 1;
    }
    best
}

impl Searcher {
    /// The invariant of a searcher: see [`Machine::well_formed`].
    pub open spec fn wf(&self) -> bool {
        self@.well_formed()
    }

    /// A search for the predecessors of the frame `next`. The cells furthest from the
    /// living cells of `next` are tried first.
    pub fn new(next: Grid) -> (searcher: Searcher)
        requires
            is_state(next@),
        ensures
            searcher.wf(),
            searcher@ == Machine::start(next@, search_order(next@)),
            is_search_order(search_order(next@), next@),
            reaches_all(searcher@),
            ranked(searcher@),
    {
        let alive_cells = next.alive_cells();
        let mut all_cells: Vec<(i32, i32)> = Vec::new();
        let mut d: i32 = FAR;
        proof {
            assert(positions(all_cells@) =~= Seq::<(int, int)>::empty());
            lemma_order_starts(next@);
        }
        while d >= 0
            invariant
                -1 <= d <= FAR,
                positions(alive_cells@) == alive_positions(next@),
                forall|i: int|
                    0 <= i < alive_cells.len() ==> in_bounds(
                        (#[trigger] alive_cells@[i]).0 as int,
                        alive_cells@[i].1 as int,
                    ),
                ordered_up_to(positions(all_cells@), next@, d as int, 0),
            decreases d + 1,
        {
            let mut n: usize = 0;
            while n < CELLS
                invariant
                    0 <= d <= FAR,
                    n <= CELLS,
                    positions(alive_cells@) == alive_positions(next@),
                    forall|i: int|
                        0 <= i < alive_cells.len() ==> in_bounds(
                            (#[trigger] alive_cells@[i]).0 as int,
                            alive_cells@[i].1 as int,
                        ),
                    ordered_up_to(positions(all_cells@), next@, d as int, n as int),
                decreases CELLS - n,
            {
                let (x, y) = scanned(n);
                let ghost order = positions(all_cells@);
                let distance = distance_to(&alive_cells, x, y);
                proof {
                    assert(positions(alive_cells@).len() == alive_cells.len());
                    assert(distance == activity_distance(next@, (x as int, y as int)));
                    assert((x as int, y as int) == (n as int / (SIZE as int), n as int % (SIZE as int)));
                }
                if distance == d {
                    all_cells.push((x, y));
                    proof {
                        assert(positions(all_cells@) =~= order.push((x as int, y as int)));
                        lemma_order_takes(order, next@, d as int, n as int);
                    }
                } else {
                    proof {
                        lemma_order_skips(order, next@, d as int, n as int);
                    }
                }
                n = n + 1;
            }
            proof {
                lemma_order_turns(positions(all_cells@), next@, d as int);
            }
            d = d - 1;
        }
        let mut guess_stack: Vec<Guess> = Vec::new();
        guess_stack.push(Guess::default());
        let mut action_stack: Vec<Action> = Vec::new();
        action_stack.push(Action::MakeGuess);
        let searcher = Searcher { next, guess_stack, action_stack, all_cells };
        proof {
            lemma_order_complete(searcher@.order, next@);
            lemma_search_order_unique(searcher@.order, next@);
            lemma_start_reaches_all(next@, searcher@.order);
            lemma_start_ranked(next@, searcher@.order);
            lemma_nothing_well_formed();
            assert(searcher@.guesses =~= seq![Knowledge::nothing()]);
            assert(searcher@.actions =~= seq![Action::MakeGuess]);
        }
        searcher
    }

    /// Whether every branch has been tried.
    pub fn is_exhausted(&self) -> (exhausted: bool)
        requires
            self.wf(),
        ensures
            exhausted == self@.exhausted(),
    {
        self.action_stack.len() == 0
    }

    /// A copy of the current decision level.
    pub fn current_guess(&self) -> (guess: Guess)
        requires
            self.wf(),
            !self@.exhausted(),
        ensures
            guess@ == self@.guesses.last(),
            guess.wf(),
    {
        let top = self.guess_stack.len() - 1;
        proof {
            assert(self@.guesses[top as int] == self.guess_stack@[top as int]@);
        }
        self.guess_stack[top].clone()
    }

    /// The cell to decide next on the decision level `guess`.
    fn choose_cell(&self, guess: &Guess) -> (cell: Option<(i32, i32)>)
        requires
            guess.wf(),
            forall|i: int|
                0 <= i < self@.order.len() ==> in_bounds(
                    (#[trigger] self@.order[i]).0,
                    self@.order[i].1,
                ),
        ensures
            match cell {
                Some(c) => choice(guess@, self@.order) == Some((c.0 as int, c.1 as int))
                    && in_bounds(c.0 as int, c.1 as int),
                None => choice(guess@, self@.order) is None,
            },
    {
        let alive = guess.alive();
        let dead = guess.dead();
        let mut try_dead = guess.try_dead();
        try_dead.sub_assign(&alive);
        try_dead.sub_assign(&dead);
        let dead_first = try_dead.alive_cells();
        proof {
            assert(try_dead@ == wanted(guess@.try_dead, guess@));
        }
        proof {
            assert(positions(dead_first@).len() == dead_first.len());
        }
        if dead_first.len() > 0 {
            let cell = dead_first[0];
            proof {
                assert(positions(dead_first@)[0] == (cell.0 as int, cell.1 as int));
            }
            return Some(cell);
        }
        let mut try_alive = guess.try_alive();
        try_alive.sub_assign(&alive);
        try_alive.sub_assign(&dead);
        let alive_first = try_alive.alive_cells();
        proof {
            assert(try_alive@ == wanted(guess@.try_alive, guess@));
        }
        proof {
            assert(positions(alive_first@).len() == alive_first.len());
        }
        if alive_first.len() > 0 {
            let cell = alive_first[0];
            proof {
                assert(positions(alive_first@)[0] == (cell.0 as int, cell.1 as int));
            }
            return Some(cell);
        }
        let mut i: usize = 0;
        while i < self.all_cells.len()
            invariant
                i <= self.all_cells.len(),
                alive_positions(wanted(guess@.try_dead, guess@)).len() == 0,
                alive_positions(wanted(guess@.try_alive, guess@)).len() == 0,
                self@.order == positions(self.all_cells@),
                forall|j: int|
                    0 <= j < self@.order.len() ==> in_bounds(
                        (#[trigger] self@.order[j]).0,
                        self@.order[j].1,
                    ),
                first_unguessed(guess@, self@.order, i as int) == first_unguessed(
                    guess@,
                    self@.order,
                    0,
                ),
            decreases self.all_cells.len() - i,
        {
            let (x, y) = self.all_cells[i];
            proof {
                assert(self@.order[i as int] == (x as int, y as int));
            }
            if !guess.guessed_alive(x, y) && !guess.guessed_dead(x, y) {
                proof {
                    assert(unguessed(guess@, x as int, y as int));
                    assert(first_unguessed(guess@, self@.order, i as int) == Some(
                        (x as int, y as int),
                    ));
                }
                return Some((x, y));
            }
            i = i + 1;
        }
        None
    }

    /// Gives up the current decision level: see [`Machine::backtrack`].
    fn backtrack(&mut self)
        requires
            old(self)@.stacked(),
            old(self)@.guesses_below(old(self)@.actions.len() as int),
        ensures
            final(self)@ == old(self)@.backtrack(),
            final(self)@.stacked(),
            final(self)@.guesses_below(final(self)@.actions.len() as int),
            final(self)@.target == old(self)@.target,
            final(self)@.order == old(self)@.order,
    {
        loop
            invariant
                self@.target == old(self)@.target,
                self@.order == old(self)@.order,
                self@.stacked(),
                self@.guesses_below(self@.actions.len() as int),
                self@.backtrack() == old(self)@.backtrack(),
            decreases self.action_stack.len(),
        {
            let ghost before = self@;
            match self.action_stack.pop() {
                None => {
                    return ;
                },
                Some(Action::MakeGuess) => {
                    proof {
                        assert(before.actions[before.actions.len() - 1] is MakeGuess);
                        assert(false);
                    }
                    return ;
                },
                Some(Action::FirstGuess(x, y, alive)) => {
                    self.action_stack.push(Action::SecondGuess(x, y, alive));
                    proof {
                        let after = before.without_action().with_action(
                            Action::SecondGuess(x, y, alive),
                        );
                        assert(self@.actions =~= after.actions);
                        assert(self@ == after);
                        assert(before.actions.last() == Action::FirstGuess(x, y, alive));
                        assert(Machine::names_a_cell(before.actions[before.actions.len() - 1]));
                        assert forall|i: int| 0 <= i < after.actions.len() implies Machine::names_a_cell(
                            #[trigger] after.actions[i],
                        ) && !(after.actions[i] is MakeGuess) by {
                            if i < after.actions.len() - 1 {
                                assert(after.actions[i] == before.actions[i]);
                            }
                        }
                        assert(before.backtrack() == after);
                    }
                    return ;
                },
                Some(Action::SecondGuess(_, _, _)) => {
                    self.guess_stack.pop();
                    proof {
                        let after = before.without_action().without_guess();
                        assert(self@.actions =~= after.actions);
                        assert(self@.guesses =~= after.guesses);
                        assert(self@ == after);
                        assert forall|i: int| 0 <= i < after.actions.len() implies Machine::names_a_cell(
                            #[trigger] after.actions[i],
                        ) && !(after.actions[i] is MakeGuess) by {
                            assert(after.actions[i] == before.actions[i]);
                        }
                        assert forall|i: int| 0 <= i < after.guesses.len() implies (
                        #[trigger] after.guesses[i]).well_formed()
                            && !after.guesses[i].contradiction && settled(
                            after.guesses[i],
                            after.target,
                        ) by {
                            assert(after.guesses[i] == before.guesses[i]);
                        }
                        assert(before.backtrack() == after.backtrack());
                    }
                },
            }
        }
    }

    /// Tries the cell `(x, y)` in one state on a copy of the current decision level, and
    /// makes the copy the new level unless propagation meets a contradiction.
    fn attempt(&mut self, x: i32, y: i32, alive: bool) -> (deeper: bool)
        requires
            old(self).wf(),
            !old(self)@.exhausted(),
            !(old(self)@.actions.last() is MakeGuess),
            in_bounds(x as int, y as int),
        ensures
            deeper == (old(self)@.attempt(x as int, y as int, alive) is Some),
            deeper ==> final(self)@ == old(self)@.attempt(x as int, y as int, alive)->0,
            deeper ==> final(self).wf(),
            !deeper ==> final(self)@ == old(self)@,
    {
        let ghost before = self@;
        let top = self.guess_stack.len() - 1;
        proof {
            assert(before.guesses[top as int] == self.guess_stack@[top as int]@);
        }
        let mut new_guess = self.guess_stack[top].clone();
        proof {
            lemma_propagate_settles(before.guesses[top as int], before.target, x as int, y as int, alive);
        }
        if alive {
            new_guess.guess_alive(&self.next, x, y);
        } else {
            new_guess.guess_dead(&self.next, x, y);
        }
        if new_guess.found_contradiction() {
            false
        } else {
            self.guess_stack.push(new_guess);
            self.action_stack.push(Action::MakeGuess);
            proof {
                let after = before.attempt(x as int, y as int, alive)->0;
                assert(self@.guesses =~= after.guesses);
                assert(self@.actions =~= after.actions);
                assert(self@ == after);
                assert forall|i: int| 0 <= i < after.guesses.len() implies (#[trigger] after.guesses[i]).well_formed()
                    && !after.guesses[i].contradiction && settled(after.guesses[i], after.target) by {
                    if i < before.guesses.len() {
                        assert(after.guesses[i] == before.guesses[i]);
                    }
                }
                assert forall|i: int| 0 <= i < after.actions.len() implies Machine::names_a_cell(
                    #[trigger] after.actions[i],
                ) by {
                    if i < before.actions.len() {
                        assert(after.actions[i] == before.actions[i]);
                    }
                }
                assert forall|i: int| 0 <= i < after.actions.len() - 1 implies !(
                #[trigger] after.actions[i] is MakeGuess) by {
                    assert(after.actions[i] == before.actions[i]);
                    assert(!(before.actions.last() is MakeGuess));
                }
            }
            true
        }
    }

    /// Puts `action` in the place of the topmost action, which is a guess or a choice.
    fn replace_action(&mut self, action: Action)
        requires
            old(self).wf(),
            !old(self)@.exhausted(),
            !(action is MakeGuess),
            Machine::names_a_cell(action),
        ensures
            final(self)@ == old(self)@.without_action().with_action(action),
            final(self).wf(),
    {
        let ghost before = self@;
        self.action_stack.pop();
        self.action_stack.push(action);
        proof {
            let after = before.without_action().with_action(action);
            assert(self@.actions =~= after.actions);
            assert(self@ == after);
            assert forall|i: int| 0 <= i < after.actions.len() implies Machine::names_a_cell(
                #[trigger] after.actions[i],
            ) by {
                if i < after.actions.len() - 1 {
                    assert(after.actions[i] == before.actions[i]);
                }
            }
            assert forall|i: int| 0 <= i < after.actions.len() - 1 implies !(
            #[trigger] after.actions[i] is MakeGuess) by {
                assert(after.actions[i] == before.actions[i]);
            }
        }
    }

    /// Leaves the current decision level, whose cells are all decided, and goes back to
    /// the last first guess.
    fn leave_level(&mut self)
        requires
            old(self).wf(),
            !old(self)@.exhausted(),
            old(self)@.actions.last() is MakeGuess,
        ensures
            final(self)@ == old(self)@.without_action().without_guess().backtrack(),
            final(self).wf(),
            final(self)@.target == old(self)@.target,
            final(self)@.order == old(self)@.order,
    {
        let ghost before = self@;
        self.action_stack.pop();
        self.guess_stack.pop();
        proof {
            let after = before.without_action().without_guess();
            assert(self@.actions =~= after.actions);
            assert(self@.guesses =~= after.guesses);
            assert(self@ == after);
            assert forall|i: int| 0 <= i < after.actions.len() implies Machine::names_a_cell(
                #[trigger] after.actions[i],
            ) && !(after.actions[i] is MakeGuess) by {
                assert(after.actions[i] == before.actions[i]);
            }
            assert forall|i: int| 0 <= i < after.guesses.len() implies (#[trigger] after.guesses[i]).well_formed()
                && !after.guesses[i].contradiction && settled(after.guesses[i], after.target) by {
                assert(after.guesses[i] == before.guesses[i]);
            }
        }
        self.backtrack();
    }

    /// Gives up the current decision level after both states of a cell have failed.
    fn give_up(&mut self)
        requires
            old(self).wf(),
            !old(self)@.exhausted(),
            !(old(self)@.actions.last() is MakeGuess),
        ensures
            final(self)@ == old(self)@.backtrack(),
            final(self).wf(),
            final(self)@.target == old(self)@.target,
            final(self)@.order == old(self)@.order,
    {
        self.backtrack();
    }

    /// Processes the topmost action: see [`Machine::step`].
    fn step(&mut self) -> (found: Option<Grid>)
        requires
            old(self).wf(),
            !old(self)@.exhausted(),
        ensures
            final(self)@ == old(self)@.step().0,
            final(self).wf(),
            final(self)@.target == old(self)@.target,
            final(self)@.order == old(self)@.order,
            keeps_reach(old(self)@, final(self)@, old(self)@.step().1),
            match found {
                Some(grid) => old(self)@.step().1 == Some(grid@) && is_predecessor(
                    grid@,
                    old(self)@.target,
                ),
                None => old(self)@.step().1 is None,
            },
    {
        let ghost before = self@;
        let action = self.action_stack[self.action_stack.len() - 1];
        let top = self.guess_stack.len() - 1;
        proof {
            reveal(Machine::step);
            lemma_step_keeps_all(before);
            assert(before.guesses[top as int] == self.guess_stack@[top as int]@);
            assert(before.actions.last() == action);
            assert(Machine::names_a_cell(before.actions[before.actions.len() - 1]));
        }
        match action {
            Action::MakeGuess => {
                // Pick a cell that has not yet been guessed.
                let chosen = self.choose_cell(&self.guess_stack[top]);
                match chosen {
                    Some((x, y)) => {
                        let alive = self.next.get(x, y).value > 0;
                        self.replace_action(Action::FirstGuess(x, y, alive));
                        None
                    },
                    None => {
                        // There were no cells left to guess: this is a solution. The
                        // search goes on as if it had been a contradiction.
                        let alive = self.guess_stack[top].alive();
                        proof {
                            lemma_no_choice_is_complete(before.guesses[top as int], before.order);
                            lemma_complete_is_predecessor(
                                before.guesses[top as int],
                                before.target,
                            );
                        }
                        self.leave_level();
                        Some(alive)
                    },
                }
            },
            Action::FirstGuess(x, y, alive) => {
                let deeper = self.attempt(x, y, alive);
                if !deeper {
                    // Instead, guess the opposite.
                    self.replace_action(Action::SecondGuess(x, y, alive));
                }
                None
            },
            Action::SecondGuess(x, y, alive) => {
                let deeper = self.attempt(x, y, !alive);
                if !deeper {
                    // This cell can neither be dead nor alive: the level is inconsistent.
                    self.give_up();
                }
                None
            },
        }
    }

    /// Advances the search by at most `max_iterations` actions. A predecessor that is
    /// found ends the call; the next call goes on from there. A search that has tried
    /// every branch says so, whatever the budget; otherwise, with a budget of 0, nothing
    /// is done.
    pub fn search(&mut self, max_iterations: usize) -> (result: SearchResult)
        requires
            old(self).wf(),
        ensures
            final(self).wf(),
            (final(self)@, result@) == old(self)@.run(max_iterations as nat, 0),
            result matches SearchResult::Found(grid, _) ==> is_predecessor(grid@, final(self)@.target),
            result is Unsatisfiable ==> final(self)@.exhausted(),
            keeps_reach(old(self)@, final(self)@, result@.found()),
            result matches SearchResult::Found(_, iterations) ==> 1 <= iterations <= max_iterations,
            result matches SearchResult::Working(iterations) ==> iterations == max_iterations,
            max_iterations == 0 ==> final(self)@ == old(self)@,
            old(self)@.exhausted() ==> result is Unsatisfiable,
            ranked(old(self)@) ==> ranked(final(self)@) && 0 <= effort(final(self)@) <= effort(
                old(self)@,
            ),
            ranked(old(self)@) && max_iterations >= 1 && !(result is Unsatisfiable) ==> effort(
                final(self)@,
            ) < effort(old(self)@),
            final(self)@.target == old(self)@.target,
            final(self)@.order == old(self)@.order,
    {
        let mut iterations: usize = 0;
        proof {
            lemma_keeps_reach_itself(self@);
            if ranked(self@) {
                lemma_run_ranked(self@, max_iterations as nat, 0);
                lemma_effort_bounds(self@.run(max_iterations as nat, 0).0);
            }
        }
        if self.action_stack.len() == 0 {
            return SearchResult::Unsatisfiable;
        }
        if max_iterations == 0 {
            return SearchResult::Working(0);
        }
        loop
            invariant
                self.wf(),
                iterations < max_iterations,
                self@.run(max_iterations as nat, iterations as nat) == old(self)@.run(
                    max_iterations as nat,
                    0,
                ),
                self@.target == old(self)@.target,
                self@.order == old(self)@.order,
                keeps_reach(old(self)@, self@, None),
                !old(self)@.exhausted(),
                ranked(old(self)@) ==> ranked(old(self)@.run(max_iterations as nat, 0).0) && 0
                    <= effort(old(self)@.run(max_iterations as nat, 0).0) < effort(old(self)@),
            decreases max_iterations - iterations,
        {
            if self.action_stack.len() == 0 {
                return SearchResult::Unsatisfiable;
            }
            iterations = iterations + 1;
            let ghost before = self@;
            let found = self.step();
            proof {
                lemma_keeps_reach_on(old(self)@, before, self@, before.step().1);
            }
            match found {
                Some(grid) => {
                    return SearchResult::Found(grid, iterations);
                },
                None => {},
            }
            if iterations >= max_iterations {
                return SearchResult::Working(iterations);
            }
        }
    }
}

} // verus!
