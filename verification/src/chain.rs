//! Chains of predecessors: a frame, a frame before it, a frame before that, and so on.
//!
//! A [`Sequence`] is one such chain with the search for its next link. A [`Population`]
//! holds many of them and advances the most promising ones a little at a time.

use vstd::prelude::*;
use crate::grid::{alive_positions, Grid};
use crate::machine::{search_order, Machine, Outcome};
use crate::searcher::{SearchResult, Searcher};
use crate::torus::{is_state, step_of};

verus! {

/// A chain and the search for its next link, as plain values.
pub struct Chain {
    /// The frames, the latest first: every frame but the first is a predecessor of the
    /// frame before it in this list.
    pub grids: Seq<Seq<int>>,
    /// The search for predecessors of the last frame of the list.
    pub search: Machine,
    /// Whether that search has tried every branch.
    pub terminated: bool,
}

/// What one turn of a chain has brought.
pub struct Advanced {
    /// The chain after its turn.
    pub parent: Chain,
    /// The chain that is one link longer, if a predecessor has been found.
    pub child: Option<Chain>,
    /// The number of actions that the search has processed.
    pub iterations: nat,
}

impl Chain {
    /// The chain that consists of `target` alone.
    pub open spec fn start(target: Seq<int>) -> Chain {
        Chain {
            grids: seq![target],
            search: Machine::start(target, search_order(target)),
            terminated: false,
        }
    }

    /// Whether every frame but the first steps to the frame before it.
    pub open spec fn linked(self) -> bool {
        forall|i: int|
            0 < i < self.grids.len() ==> step_of(#[trigger] self.grids[i]) == self.grids[i - 1]
    }

    /// The invariant of a sequence: its frames are boards of states, each the successor
    /// of the next, and its search looks for predecessors of the last of them.
    pub open spec fn well_formed(self) -> bool {
        &&& self.grids.len() > 0
        &&& forall|i: int| 0 <= i < self.grids.len() ==> is_state(#[trigger] self.grids[i])
        &&& self.linked()
        &&& self.search.well_formed()
        &&& self.search.target == self.grids.last()
        &&& self.terminated ==> self.search.exhausted()
    }

    /// How promising the chain is, the smaller the better: the number of living cells of
    /// its last frame, less the number of its frames.
    pub open spec fn key(self) -> int {
        alive_positions(self.grids.last()).len() - self.grids.len()
    }

    /// The chain one link longer, by the predecessor `grid` of its last frame.
    pub open spec fn extended(self, grid: Seq<int>) -> Chain {
        Chain {
            grids: self.grids.push(grid),
            search: Machine::start(grid, search_order(grid)),
            terminated: false,
        }
    }

    /// One turn: the search runs for at most `budget` actions. A predecessor that it finds
    /// starts a chain of its own, one link longer; a search that has tried every branch
    /// terminates the chain.
    pub open spec fn advance(self, budget: nat) -> Advanced {
        let (search, outcome) = self.search.run(budget, 0);
        match outcome {
            Outcome::Found(grid, iterations) => Advanced {
                parent: Chain { search, ..self },
                child: Some(self.extended(grid)),
                iterations,
            },
            Outcome::Working(iterations) => Advanced {
                parent: Chain { search, ..self },
                child: None,
                iterations,
            },
            Outcome::Unsatisfiable => Advanced {
                parent: Chain { search, terminated: true, ..self },
                child: None,
                iterations: 0,
            },
        }
    }
}

/// A chain of predecessors with the search for the next one.
pub struct Sequence {
    /// The frames, the latest first.
    grids: Vec<Grid>,
    /// The search for predecessors of the last frame.
    searcher: Searcher,
    /// Whether the search has ended.
    terminated: bool,
}

/// What a turn of a sequence has brought.
pub struct Turn {
    /// The sequence that is one link longer, if a predecessor has been found.
    pub child: Option<Sequence>,
    /// The number of actions that the search has processed.
    pub iterations: usize,
}

/// A list of grids as plain boards.
pub open spec fn boards_of(grids: Seq<Grid>) -> Seq<Seq<int>> {
    Seq::new(grids.len(), |i: int| grids[i]@)
}

impl View for Sequence {
    type V = Chain;

    closed spec fn view(&self) -> Chain {
        Chain {
            grids: boards_of(self.grids@),
            search: self.searcher@,
            terminated: self.terminated,
        }
    }
}

/// A copy of a list of grids.
fn copy_of(grids: &Vec<Grid>) -> (copy: Vec<Grid>)
    ensures
        boards_of(copy@) == boards_of(grids@),
{
    let mut copy: Vec<Grid> = Vec::new();
    let mut i: usize = 0;
    while i < grids.len()
        invariant
            i <= grids.len(),
            copy.len() == i,
            forall|j: int| 0 <= j < i ==> (#[trigger] copy@[j])@ == grids@[j]@,
        decreases grids.len() - i,
    {
        copy.push(grids[i].clone());
        i = i + 1;
    }
    proof {
        assert(boards_of(copy@) =~= boards_of(grids@));
    }
    copy
}

impl Sequence {
    /// The invariant of a sequence: see [`Chain::well_formed`].
    pub open spec fn wf(&self) -> bool {
        self@.well_formed()
    }

    /// The chain that consists of `target` alone.
    pub fn new(target: Grid) -> (sequence: Sequence)
        requires
            is_state(target@),
        ensures
            sequence.wf(),
            sequence@ == Chain::start(target@),
    {
        let mut grids: Vec<Grid> = Vec::new();
        grids.push(target.clone());
        let sequence = Sequence { grids, searcher: Searcher::new(target), terminated: false };
        proof {
            assert(sequence@.grids =~= seq![target@]);
        }
        sequence
    }

    /// The frames of the chain, the latest first.
    pub fn grids(&self) -> (grids: Vec<Grid>)
        ensures
            boards_of(grids@) == self@.grids,
    {
        copy_of(&self.grids)
    }

    /// The number of frames of the chain.
    pub fn len(&self) -> (len: usize)
        ensures
            len == self@.grids.len(),
    {
        self.grids.len()
    }

    /// Whether the search for the next link has tried every branch.
    pub fn is_terminated(&self) -> (terminated: bool)
        ensures
            terminated == self@.terminated,
    {
        self.terminated
    }

    /// How promising the chain is, the smaller the better: see [`Chain::key`].
    pub fn key(&self) -> (key: i128)
        requires
            self.wf(),
        ensures
            key == self@.key(),
    {
        let last = &self.grids[self.grids.len() - 1];
        proof {
            assert(self@.grids.last() == last@);
        }
        last.population() as i128 - self.grids.len() as i128
    }

    /// One turn of the sequence: see [`Chain::advance`].
    pub fn advance(&mut self, budget: usize) -> (turn: Turn)
        requires
            old(self).wf(),
        ensures
            final(self).wf(),
            final(self)@ == old(self)@.advance(budget as nat).parent,
            turn.iterations == old(self)@.advance(budget as nat).iterations,
            match turn.child {
                Some(child) => old(self)@.advance(budget as nat).child == Some(child@)
                    && child.wf(),
                None => old(self)@.advance(budget as nat).child is None,
            },
    {
        let ghost before = self@;
        match self.searcher.search(budget) {
            SearchResult::Found(grid, iterations) => {
                let mut grids = copy_of(&self.grids);
                grids.push(grid.clone());
                let child = Sequence { grids, searcher: Searcher::new(grid), terminated: false };
                proof {
                    assert(child@.grids =~= before.grids.push(grid@));
                    assert(child@ == before.extended(grid@));
                    assert forall|i: int| 0 <= i < child@.grids.len() implies is_state(
                        #[trigger] child@.grids[i],
                    ) by {
                        if i < before.grids.len() {
                            assert(child@.grids[i] == before.grids[i]);
                        }
                    }
                    assert forall|i: int| 0 < i < child@.grids.len() implies step_of(
                        #[trigger] child@.grids[i],
                    ) == child@.grids[i - 1] by {
                        if i < before.grids.len() {
                            assert(child@.grids[i] == before.grids[i]);
                            assert(child@.grids[i - 1] == before.grids[i - 1]);
                        }
                    }
                }
                Turn { child: Some(child), iterations }
            },
            SearchResult::Working(iterations) => Turn { child: None, iterations },
            SearchResult::Unsatisfiable => {
                self.terminated = true;
                Turn { child: None, iterations: 0 }
            },
        }
    }
}

/// A population of chains, as plain values.
pub struct Crowd {
    /// The chains whose search goes on.
    pub running: Seq<Chain>,
    /// The chains whose search has tried every branch.
    pub finished: Seq<Chain>,
}

/// What one round over the chosen chains has brought.
pub struct Round {
    /// The chains that have had their turn and go on.
    pub running: Seq<Chain>,
    /// The chains that have come up, each one link longer than the chain it came from.
    pub children: Seq<Chain>,
    /// The chains that have had their turn and are terminated.
    pub finished: Seq<Chain>,
    /// The number of actions that the searches have processed in all.
    pub iterations: nat,
}

/// The position of the most promising of the first `upto` chains: the first of those
/// with the least key.
pub open spec fn first_best(chains: Seq<Chain>, upto: int) -> int
    decreases upto,
{
    if upto <= 1 {
        0
    } else {
        let before = first_best(chains, upto - 1);
        if chains[upto - 1].key() < chains[before].key() {
            upto - 1
        } else {
            before
        }
    }
}

/// The `count` most promising chains, the most promising first: the best of all, then
/// the best of the rest, and so on. Of two chains with the same key the earlier comes first.
pub open spec fn best(chains: Seq<Chain>, count: nat) -> Seq<Chain>
    decreases count,
{
    if count == 0 || chains.len() == 0 {
        Seq::empty()
    } else {
        let i = first_best(chains, chains.len() as int);
        seq![chains[i]] + best(chains.remove(i), (count - 1) as nat)
    }
}

impl Round {
    /// The round before any chain has had its turn.
    pub open spec fn none() -> Round {
        Round { running: Seq::empty(), children: Seq::empty(), finished: Seq::empty(), iterations: 0 }
    }

    /// The round with the turn of one more chain.
    pub open spec fn with_turn(self, chain: Chain, budget: nat) -> Round {
        let turn = chain.advance(budget);
        Round {
            running: if turn.parent.terminated {
                self.running
            } else {
                self.running.push(turn.parent)
            },
            children: match turn.child {
                Some(child) => self.children.push(child),
                None => self.children,
            },
            finished: if turn.parent.terminated {
                self.finished.push(turn.parent)
            } else {
                self.finished
            },
            iterations: self.iterations + turn.iterations,
        }
    }
}

/// The round in which the first `upto` of `chosen` have had their turn, one after another.
pub open spec fn round(chosen: Seq<Chain>, budget: nat, upto: int) -> Round
    decreases upto,
{
    if upto <= 0 {
        Round::none()
    } else {
        round(chosen, budget, upto - 1).with_turn(chosen[upto - 1], budget)
    }
}

/// Every one of the chains is well formed, and its search goes on.
pub open spec fn all_running(chains: Seq<Chain>) -> bool {
    forall|i: int| 0 <= i < chains.len() ==> (#[trigger] chains[i]).well_formed() && !chains[i].terminated
}

/// Every one of the chains is well formed, and its search has ended.
pub open spec fn all_finished(chains: Seq<Chain>) -> bool {
    forall|i: int| 0 <= i < chains.len() ==> (#[trigger] chains[i]).well_formed() && chains[i].terminated
}

/// One more chain whose search goes on.
proof fn lemma_one_more_running(chains: Seq<Chain>, chain: Chain)
    requires
        all_running(chains),
        chain.well_formed(),
        !chain.terminated,
    ensures
        all_running(chains.push(chain)),
{
    let longer = chains.push(chain);
    assert forall|i: int| 0 <= i < longer.len() implies (#[trigger] longer[i]).well_formed()
        && !longer[i].terminated by {
        if i < chains.len() {
            assert(longer[i] == chains[i]);
        }
    }
}

/// One more chain whose search has ended.
proof fn lemma_one_more_finished(chains: Seq<Chain>, chain: Chain)
    requires
        all_finished(chains),
        chain.well_formed(),
        chain.terminated,
    ensures
        all_finished(chains.push(chain)),
{
    let longer = chains.push(chain);
    assert forall|i: int| 0 <= i < longer.len() implies (#[trigger] longer[i]).well_formed()
        && longer[i].terminated by {
        if i < chains.len() {
            assert(longer[i] == chains[i]);
        }
    }
}

/// One chain less, and the others go on as before.
proof fn lemma_one_less_running(chains: Seq<Chain>, i: int)
    requires
        all_running(chains),
        0 <= i < chains.len(),
    ensures
        all_running(chains.remove(i)),
{
    let shorter = chains.remove(i);
    assert forall|k: int| 0 <= k < shorter.len() implies (#[trigger] shorter[k]).well_formed()
        && !shorter[k].terminated by {
        if k < i {
            assert(shorter[k] == chains[k]);
        } else {
            assert(shorter[k] == chains[k + 1]);
        }
    }
}

/// Two lists of chains whose search goes on, one after the other.
proof fn lemma_both_running(first: Seq<Chain>, second: Seq<Chain>)
    requires
        all_running(first),
        all_running(second),
    ensures
        all_running(first + second),
{
    let both = first + second;
    assert forall|i: int| 0 <= i < both.len() implies (#[trigger] both[i]).well_formed()
        && !both[i].terminated by {
        if i < first.len() {
            assert(both[i] == first[i]);
        } else {
            assert(both[i] == second[i - first.len()]);
        }
    }
}

/// The length of the longest of the first `upto` chains.
pub open spec fn longest(chains: Seq<Chain>, upto: int) -> nat
    decreases upto,
{
    if upto <= 0 {
        0
    } else {
        let before = longest(chains, upto - 1);
        if chains[upto - 1].grids.len() > before {
            chains[upto - 1].grids.len()
        } else {
            before
        }
    }
}

/// Whether the chain at position `i` is the first of the longest of `chains`.
pub open spec fn is_first_longest(chains: Seq<Chain>, i: int) -> bool {
    &&& 0 <= i < chains.len()
    &&& chains[i].grids.len() == longest(chains, chains.len() as int)
    &&& forall|j: int|
        0 <= j < i ==> (#[trigger] chains[j]).grids.len() != longest(chains, chains.len() as int)
}

impl Crowd {
    /// The crowd of one chain that consists of `target` alone.
    pub open spec fn start(target: Seq<int>) -> Crowd {
        Crowd { running: seq![Chain::start(target)], finished: Seq::empty() }
    }

    /// The invariant of a population: every chain is well formed, and the terminated
    /// ones are kept apart.
    pub open spec fn well_formed(self) -> bool {
        all_running(self.running) && all_finished(self.finished)
    }

    /// The round of one step: the `max_attempts` most promising of the running chains,
    /// each with a turn of at most `budget` actions.
    pub open spec fn chosen_round(self, max_attempts: nat, budget: nat) -> Round {
        let chosen = best(self.running, max_attempts);
        round(chosen, budget, chosen.len() as int)
    }

    /// The crowd after one step. The chains that were not chosen are given up; those that
    /// were and go on come first, then the chains that have come up in this step.
    pub open spec fn macro_step(self, max_attempts: nat, budget: nat) -> Crowd {
        let round = self.chosen_round(max_attempts, budget);
        Crowd {
            running: round.running + round.children,
            finished: self.finished + round.finished,
        }
    }

    /// All chains: those whose search goes on, then those whose search has ended.
    pub open spec fn all(self) -> Seq<Chain> {
        self.running + self.finished
    }

    /// The length of the longest chain.
    pub open spec fn longest(self) -> nat {
        longest(self.all(), self.all().len() as int)
    }
}

/// A population of sequences.
pub struct Population {
    /// The sequences whose search goes on.
    running: Vec<Sequence>,
    /// The sequences whose search has ended.
    finished: Vec<Sequence>,
}

/// The counts after one step of a population.
pub struct Report {
    /// The number of actions that the searches have processed in this step.
    pub iterations: u128,
    /// The number of sequences whose search goes on.
    pub running: usize,
    /// The number of sequences whose search has ended.
    pub terminated: usize,
    /// The number of frames of the longest chain.
    pub longest: usize,
}

/// A list of sequences as plain chains.
pub open spec fn chains_of(sequences: Seq<Sequence>) -> Seq<Chain> {
    Seq::new(sequences.len(), |i: int| sequences[i]@)
}

impl View for Population {
    type V = Crowd;

    closed spec fn view(&self) -> Crowd {
        Crowd { running: chains_of(self.running@), finished: chains_of(self.finished@) }
    }
}

/// The position of the most promising of `sequences`: see [`first_best`].
fn index_of_best(sequences: &Vec<Sequence>) -> (index: usize)
    requires
        sequences.len() > 0,
        all_running(chains_of(sequences@)),
    ensures
        index == first_best(chains_of(sequences@), sequences.len() as int),
        index < sequences.len(),
{
    let ghost chains = chains_of(sequences@);
    let mut index: usize = 0;
    proof {
        assert(chains[0].well_formed());
    }
    let mut least = sequences[0].key();
    let mut i: usize = 1;
    while i < sequences.len()
        invariant
            1 <= i <= sequences.len(),
            chains == chains_of(sequences@),
            all_running(chains),
            index == first_best(chains, i as int),
            index < i,
            least == chains[index as int].key(),
        decreases sequences.len() - i,
    {
        proof {
            assert(chains[i as int].well_formed());
        }
        let key = sequences[i].key();
        if key < least {
            index = i;
            least = key;
        }
        i = i + 1;
    }
    index
}

/// The number of frames of the longest of `sequences`, or `least` if that is more.
fn longest_of(sequences: &Vec<Sequence>, least: usize) -> (length: usize)
    ensures
        length >= least,
        length >= longest(chains_of(sequences@), sequences.len() as int),
        length == least || length == longest(chains_of(sequences@), sequences.len() as int),
{
    let ghost chains = chains_of(sequences@);
    let mut length = least;
    let mut i: usize = 0;
    while i < sequences.len()
        invariant
            i <= sequences.len(),
            chains == chains_of(sequences@),
            length >= least,
            length >= longest(chains, i as int),
            length == least || length == longest(chains, i as int),
        decreases sequences.len() - i,
    {
        let here = sequences[i].len();
        if here > length {
            length = here;
        }
        i = i + 1;
    }
    length
}

/// The longer of the two has the length of the longest chain of both lists together.
proof fn lemma_longest_of_both(first: Seq<Chain>, second: Seq<Chain>, upto: int)
    requires
        0 <= upto <= second.len(),
    ensures
        longest(first + second, first.len() + upto) == if longest(second, upto) > longest(
            first,
            first.len() as int,
        ) {
            longest(second, upto)
        } else {
            longest(first, first.len() as int)
        },
    decreases upto,
{
    let both = first + second;
    if upto == 0 {
        lemma_longest_of_front(first, second, first.len() as int);
    } else {
        lemma_longest_of_both(first, second, upto - 1);
        assert(both[first.len() + upto - 1] == second[upto - 1]);
    }
}

/// The longest among the first chains of a list does not depend on what follows them.
proof fn lemma_longest_of_front(first: Seq<Chain>, second: Seq<Chain>, upto: int)
    requires
        0 <= upto <= first.len(),
    ensures
        longest(first + second, upto) == longest(first, upto),
    decreases upto,
{
    if upto > 0 {
        lemma_longest_of_front(first, second, upto - 1);
        assert((first + second)[upto - 1] == first[upto - 1]);
    }
}

/// The `count` most promising of `sequences`, the most promising first: see [`best`].
fn choose_best(sequences: Vec<Sequence>, count: usize) -> (chosen: Vec<Sequence>)
    requires
        all_running(chains_of(sequences@)),
    ensures
        chains_of(chosen@) == best(chains_of(sequences@), count as nat),
        all_running(chains_of(chosen@)),
{
    let ghost all = chains_of(sequences@);
    let mut rest = sequences;
    let mut chosen: Vec<Sequence> = Vec::new();
    proof {
        assert(chains_of(chosen@) + best(all, count as nat) =~= best(all, count as nat));
    }
    while chosen.len() < count && rest.len() > 0
        invariant
            chosen.len() <= count,
            all_running(chains_of(rest@)),
            all_running(chains_of(chosen@)),
            chains_of(chosen@) + best(chains_of(rest@), (count - chosen.len()) as nat) == best(
                all,
                count as nat,
            ),
        decreases rest.len(),
    {
        let ghost left = chains_of(rest@);
        let ghost taken = chains_of(chosen@);
        let i = index_of_best(&rest);
        let sequence = rest.remove(i);
        chosen.push(sequence);
        proof {
            assert(chains_of(rest@) =~= left.remove(i as int));
            assert(chains_of(chosen@) =~= taken.push(left[i as int]));
            assert(taken.push(left[i as int]) + best(
                left.remove(i as int),
                (count - chosen.len()) as nat,
            ) =~= taken + best(left, (count - taken.len()) as nat));
            lemma_one_less_running(left, i as int);
            lemma_one_more_running(taken, left[i as int]);
        }
    }
    proof {
        assert(chains_of(chosen@) =~= best(all, count as nat));
    }
    chosen
}

/// One turn of `sequence`, after which it goes on or is terminated, and has a child or not.
fn take_turn(
    sequence: Sequence,
    budget: usize,
    running: &mut Vec<Sequence>,
    children: &mut Vec<Sequence>,
    finished: &mut Vec<Sequence>,
) -> (iterations: usize)
    requires
        sequence.wf(),
        !sequence@.terminated,
        all_running(chains_of(old(running)@)),
        all_running(chains_of(old(children)@)),
        all_finished(chains_of(old(finished)@)),
    ensures
        iterations == sequence@.advance(budget as nat).iterations,
        chains_of(final(running)@) == if sequence@.advance(budget as nat).parent.terminated {
            chains_of(old(running)@)
        } else {
            chains_of(old(running)@).push(sequence@.advance(budget as nat).parent)
        },
        chains_of(final(children)@) == match sequence@.advance(budget as nat).child {
            Some(child) => chains_of(old(children)@).push(child),
            None => chains_of(old(children)@),
        },
        chains_of(final(finished)@) == if sequence@.advance(budget as nat).parent.terminated {
            chains_of(old(finished)@).push(sequence@.advance(budget as nat).parent)
        } else {
            chains_of(old(finished)@)
        },
        all_running(chains_of(final(running)@)),
        all_running(chains_of(final(children)@)),
        all_finished(chains_of(final(finished)@)),
{
    let ghost going = chains_of(running@);
    let ghost grown = chains_of(children@);
    let ghost ended = chains_of(finished@);
    let ghost advanced = sequence@.advance(budget as nat);
    let mut sequence = sequence;
    let turn = sequence.advance(budget);
    match turn.child {
        Some(child) => {
            children.push(child);
            proof {
                assert(chains_of(children@) =~= grown.push(advanced.child->0));
                lemma_one_more_running(grown, advanced.child->0);
            }
        },
        None => {},
    }
    if sequence.is_terminated() {
        finished.push(sequence);
        proof {
            assert(chains_of(finished@) =~= ended.push(advanced.parent));
            lemma_one_more_finished(ended, advanced.parent);
        }
    } else {
        running.push(sequence);
        proof {
            assert(chains_of(running@) =~= going.push(advanced.parent));
            lemma_one_more_running(going, advanced.parent);
        }
    }
    turn.iterations
}

impl Population {
    /// The invariant of a population: see [`Crowd::well_formed`].
    pub open spec fn wf(&self) -> bool {
        self@.well_formed()
    }

    /// The population of one chain that consists of `target` alone.
    pub fn new(target: Grid) -> (population: Population)
        requires
            is_state(target@),
        ensures
            population.wf(),
            population@ == Crowd::start(target@),
    {
        let mut running: Vec<Sequence> = Vec::new();
        running.push(Sequence::new(target));
        let population = Population { running, finished: Vec::new() };
        proof {
            assert(population@.running =~= seq![Chain::start(target@)]);
            assert(population@.finished =~= Seq::<Chain>::empty());
        }
        population
    }

    /// The number of sequences whose search goes on.
    pub fn running(&self) -> (count: usize)
        ensures
            count == self@.running.len(),
    {
        self.running.len()
    }

    /// The number of sequences whose search has ended.
    pub fn terminated(&self) -> (count: usize)
        ensures
            count == self@.finished.len(),
    {
        self.finished.len()
    }

    /// The number of frames of the longest chain, or 0 if there is no chain.
    pub fn longest(&self) -> (length: usize)
        ensures
            length == self@.longest(),
    {
        let running = longest_of(&self.running, 0);
        let both = longest_of(&self.finished, running);
        proof {
            lemma_longest_of_both(self@.running, self@.finished, self@.finished.len() as int);
        }
        both
    }

    /// One step of the population: the `max_attempts` most promising sequences have a
    /// turn of at most `micro_step_size` actions each, the others are given up. Every
    /// predecessor that is found starts a sequence of its own.
    pub fn macro_step(&mut self, max_attempts: usize, micro_step_size: usize) -> (report: Report)
        requires
            old(self).wf(),
        ensures
            final(self).wf(),
            final(self)@ == old(self)@.macro_step(max_attempts as nat, micro_step_size as nat),
            report.iterations == old(self)@.chosen_round(
                max_attempts as nat,
                micro_step_size as nat,
            ).iterations,
            report.running == final(self)@.running.len(),
            report.terminated == final(self)@.finished.len(),
            report.longest == final(self)@.longest(),
    {
        let ghost before = self@;
        let ghost budget = micro_step_size as nat;
        let mut rest: Vec<Sequence> = Vec::new();
        std::mem::swap(&mut rest, &mut self.running);
        let mut chosen = choose_best(rest, max_attempts);
        let ghost picked = chains_of(chosen@);
        let mut children: Vec<Sequence> = Vec::new();
        let mut iterations: u128 = 0;
        let ghost mut done: int = 0;
        proof {
            assert(picked.len() == chosen.len());
            assert(picked.skip(0) =~= picked);
            assert(chains_of(self.running@) =~= Round::none().running);
            assert(chains_of(children@) =~= Round::none().children);
            assert(chains_of(self.finished@) =~= before.finished + Round::none().finished);
        }
        while chosen.len() > 0
            invariant
                0 <= done <= picked.len() <= usize::MAX,
                budget == micro_step_size,
                chains_of(chosen@) == picked.skip(done),
                all_running(picked),
                chains_of(self.running@) == round(picked, budget, done).running,
                chains_of(children@) == round(picked, budget, done).children,
                chains_of(self.finished@) == before.finished + round(picked, budget, done).finished,
                iterations == round(picked, budget, done).iterations,
                iterations <= done * 0x1_0000_0000_0000_0000,
                all_running(chains_of(self.running@)),
                all_running(chains_of(children@)),
                all_finished(chains_of(self.finished@)),
            decreases chosen.len(),
        {
            let ghost waiting = chains_of(chosen@);
            let ghost ended = round(picked, budget, done).finished;
            proof {
                assert(waiting.len() == picked.len() - done);
                assert(waiting[0] == picked[done]);
            }
            let sequence = chosen.remove(0);
            proof {
                assert(sequence@ == picked[done]);
                assert forall|k: int| 0 <= k < chosen.len() implies chains_of(chosen@)[k]
                    == picked.skip(done + 1)[k] by {
                    assert(chains_of(chosen@)[k] == waiting[k + 1]);
                }
                assert(chains_of(chosen@) =~= picked.skip(done + 1));
                assert(picked[done].well_formed() && !picked[done].terminated);
            }
            let used = take_turn(
                sequence,
                micro_step_size,
                &mut self.running,
                &mut children,
                &mut self.finished,
            );
            iterations = iterations + used as u128;
            proof {
                let turn = picked[done].advance(budget);
                if turn.parent.terminated {
                    assert(chains_of(self.finished@) =~= before.finished + ended.push(turn.parent));
                }
                done = done + 1;
            }
        }
        let ghost going = chains_of(self.running@);
        let ghost grown = chains_of(children@);
        self.running.append(&mut children);
        proof {
            assert(done == picked.len());
            assert(chains_of(self.running@) =~= going + grown);
            lemma_both_running(going, grown);
        }
        let longest = self.longest();
        Report {
            iterations,
            running: self.running.len(),
            terminated: self.finished.len(),
            longest,
        }
    }

    /// The frames of the first of the longest chains, the latest frame first: of the
    /// chains whose search goes on if one of them is as long as any, else of those
    /// whose search has ended. There is none only where there is no chain at all.
    pub fn longest_chain(&self) -> (grids: Option<Vec<Grid>>)
        requires
            self.wf(),
        ensures
            match grids {
                Some(grids) => exists|i: int|
                    #[trigger] is_first_longest(self@.all(), i) && self@.all()[i].grids
                        == boards_of(grids@),
                None => self@.all().len() == 0,
            },
    {
        let length = self.longest();
        let ghost all = self@.all();
        let mut i: usize = 0;
        while i < self.running.len()
            invariant
                i <= self.running.len(),
                all == self@.running + self@.finished,
                length == longest(all, all.len() as int),
                forall|j: int| 0 <= j < i ==> (#[trigger] self@.running[j]).grids.len() != length,
            decreases self.running.len() - i,
        {
            proof {
                assert(self@.running[i as int] == self.running@[i as int]@);
            }
            if self.running[i].len() == length {
                let grids = self.running[i].grids();
                proof {
                    assert(all[i as int] == self@.running[i as int]);
                    assert forall|j: int| 0 <= j < i implies (#[trigger] all[j]).grids.len()
                        != length by {
                        assert(all[j] == self@.running[j]);
                    }
                    assert(is_first_longest(all, i as int));
                    assert(all == self@.all());
                    assert(self@.all()[i as int].grids == boards_of(grids@));
                }
                return Some(grids);
            }
            i = i + 1;
        }
        let mut k: usize = 0;
        while k < self.finished.len()
            invariant
                k <= self.finished.len(),
                all == self@.running + self@.finished,
                length == longest(all, all.len() as int),
                forall|j: int|
                    0 <= j < self@.running.len() ==> (#[trigger] self@.running[j]).grids.len()
                        != length,
                forall|j: int| 0 <= j < k ==> (#[trigger] self@.finished[j]).grids.len() != length,
            decreases self.finished.len() - k,
        {
            proof {
                assert(self@.finished[k as int] == self.finished@[k as int]@);
            }
            if self.finished[k].len() == length {
                let grids = self.finished[k].grids();
                proof {
                    let here = self@.running.len() + k;
                    assert(all[here] == self@.finished[k as int]);
                    assert forall|j: int| 0 <= j < here implies (#[trigger] all[j]).grids.len()
                        != length by {
                        if j < self@.running.len() {
                            assert(all[j] == self@.running[j]);
                        } else {
                            assert(all[j] == self@.finished[j - self@.running.len()]);
                        }
                    }
                    assert(is_first_longest(all, here));
                    assert(all == self@.all());
                    assert(self@.all()[here].grids == boards_of(grids@));
                }
                return Some(grids);
            }
            k = k + 1;
        }
        proof {
            if all.len() > 0 {
                assert forall|i: int| 0 <= i < all.len() implies (#[trigger] all[i]).grids.len()
                    > 0 by {
                    if i < self@.running.len() {
                        assert(all[i] == self@.running[i]);
                    } else {
                        assert(all[i] == self@.finished[i - self@.running.len()]);
                    }
                }
                lemma_longest_is_reached(all, all.len() as int);
                let j = choose|j: int| 0 <= j < all.len() && all[j].grids.len() == longest(
                    all,
                    all.len() as int,
                );
                if j < self@.running.len() {
                    assert(all[j] == self@.running[j]);
                } else {
                    assert(all[j] == self@.finished[j - self@.running.len()]);
                }
            }
        }
        None
    }
}

/// Some chain is as long as the longest.
proof fn lemma_longest_is_reached(chains: Seq<Chain>, upto: int)
    requires
        0 < upto <= chains.len(),
        forall|i: int| 0 <= i < chains.len() ==> (#[trigger] chains[i]).grids.len() > 0,
    ensures
        exists|j: int| 0 <= j < upto && (#[trigger] chains[j]).grids.len() == longest(chains, upto),
    decreases upto,
{
    if upto > 1 {
        lemma_longest_is_reached(chains, upto - 1);
        let before = choose|j: int|
            0 <= j < upto - 1 && (#[trigger] chains[j]).grids.len() == longest(chains, upto - 1);
        if chains[upto - 1].grids.len() > longest(chains, upto - 1) {
            assert(chains[upto - 1].grids.len() == longest(chains, upto));
        } else {
            assert(chains[before].grids.len() == longest(chains, upto));
        }
    } else {
        reveal_with_fuel(longest, 2);
        assert(chains[0].grids.len() == longest(chains, upto));
    }
}

} // verus!
