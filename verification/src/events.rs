//! What the search tells a caller that wants to watch it.

use crate::cell::Cell;
use crate::grid::Grid;
use vstd::prelude::*;

verus! {

/// One step of the search, as it is recorded.
#[derive(Clone, Copy, Debug, PartialEq, Eq)]
pub enum Event {
    /// The board as a round of propagation finds it.
    State(Grid),
    /// A cell has no candidate left: this branch of the search fails.
    DeadEnd,
    /// Every cell has one candidate left: the search succeeds.
    Solved,
    /// The candidate `guess` is tried for the cell at `index`, which has the
    /// candidates `from`; `guesses` counts the guesses that stand with it.
    Guess { index: usize, guess: Cell, from: Cell, guesses: i32 },
    /// The candidate `guess` failed for the cell at `index` and is removed,
    /// which leaves the candidates `left`; `guesses` counts the guesses that
    /// still stand.
    BadGuess { index: usize, guess: Cell, left: Cell, guesses: i32 },
}

/// One step of the search, over boards of candidate sets.
pub enum Step {
    /// The board as a round of propagation finds it.
    State(Seq<Set<int>>),
    /// A cell has no candidate left.
    DeadEnd,
    /// Every cell has one candidate left.
    Solved,
    /// A candidate is tried.
    Guess { index: int, guess: Set<int>, from: Set<int>, guesses: int },
    /// A candidate failed and is removed.
    BadGuess { index: int, guess: Set<int>, left: Set<int>, guesses: int },
}

impl View for Event {
    type V = Step;

    open spec fn view(&self) -> Step {
        match *self {
            Event::State(grid) => Step::State(grid@),
            Event::DeadEnd => Step::DeadEnd,
            Event::Solved => Step::Solved,
            Event::Guess { index, guess, from, guesses } => Step::Guess {
                index: index as int,
                guess: guess@,
                from: from@,
                guesses: guesses as int,
            },
            Event::BadGuess { index, guess, left, guesses } => Step::BadGuess {
                index: index as int,
                guess: guess@,
                left: left@,
                guesses: guesses as int,
            },
        }
    }
}

/// The steps that a record of events holds.
pub open spec fn steps(log: Seq<Event>) -> Seq<Step> {
    log.map_values(|e: Event| e@)
}

/// Whether the record `after` is the record `before` with the steps `added`
/// at its end, or unchanged where `interactive` is not set.
pub open spec fn records(
    before: Seq<Event>,
    after: Seq<Event>,
    interactive: bool,
    added: Seq<Step>,
) -> bool {
    &&& before.is_prefix_of(after)
    &&& !interactive ==> after == before
    &&& interactive ==> steps(after) == steps(before) + added
}

/// A record that continues a record that continues a third continues the
/// third.
pub proof fn lemma_prefix_chain(a: Seq<Event>, b: Seq<Event>, c: Seq<Event>)
    requires
        a.is_prefix_of(b),
        b.is_prefix_of(c),
    ensures
        a.is_prefix_of(c),
{
    assert(a =~= c.subrange(0, a.len() as int)) by {
        assert forall|i: int| 0 <= i < a.len() implies a[i] == c[i] by {
            assert(a[i] == b.subrange(0, a.len() as int)[i]);
            assert(b[i] == c.subrange(0, b.len() as int)[i]);
        }
    }
}

/// A record with an event pushed to it continues the record.
pub proof fn lemma_prefix_push(a: Seq<Event>, b: Seq<Event>, e: Event)
    requires
        a.is_prefix_of(b),
    ensures
        a.is_prefix_of(b.push(e)),
{
    assert(b =~= b.push(e).subrange(0, b.len() as int));
    lemma_prefix_chain(a, b, b.push(e));
}

/// A record grows by the step of the event that is pushed to it.
pub proof fn lemma_steps_push(log: Seq<Event>, e: Event)
    ensures
        steps(log.push(e)) == steps(log).push(e@),
{
    assert(steps(log.push(e)) =~= steps(log).push(e@));
}

} // verus!
