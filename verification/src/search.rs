//! Propagation to a fixpoint and the backtracking search, as functions on
//! boards of candidate sets.

use crate::digits::{least, lemma_digits_finite, lemma_least};
use crate::events::Step;
use crate::grid::{all_solvable, all_solved, is_board, lemma_simplest_unsolved, simplest_unsolved};
use crate::progress::{
    advances, lemma_advances_chain, lemma_open_falls, lemma_open_shrinks, lemma_sweep,
    lemma_total_falls, lemma_total_shrinks, open_cells, shrinks, total,
};
use crate::rules::sweep;
use vstd::prelude::*;

verus! {

/// The board that propagation leaves: sweeps follow one another for as long
/// as every cell has a candidate and the last sweep changed the board.
pub open spec fn fixpoint(g: Seq<Set<int>>) -> Seq<Set<int>>
    decreases total(g),
{
    if is_board(g) && all_solvable(g) && sweep(g).1 {
        proof {
            lemma_sweep(g);
        }
        fixpoint(sweep(g).0)
    } else {
        g
    }
}

/// The board `g` with the cell at `i` cut down to its smallest candidate.
pub open spec fn with_guess(g: Seq<Set<int>>, i: int) -> Seq<Set<int>> {
    g.update(i, least(g[i]))
}

/// The board `g` with the smallest candidate of the cell at `i` removed.
pub open spec fn without_guess(g: Seq<Set<int>>, i: int) -> Seq<Set<int>> {
    g.update(i, g[i].difference(least(g[i])))
}

/// The search: the board it leaves and whether that board is solved.
///
/// The board is propagated to a fixpoint. A cell without candidates there
/// ends the search in failure, and a board with one candidate in every cell
/// ends it in success. Otherwise the smallest candidate of the cell to
/// branch on is tried on a board of its own; where that search fails, the
/// candidate is removed and the search goes on.
pub open spec fn search(g: Seq<Set<int>>) -> (Seq<Set<int>>, bool)
    decreases total(g),
{
    let f = fixpoint(g);
    let i = simplest_unsolved(f);
    if !is_board(g) || !all_solvable(f) {
        (f, false)
    } else if all_solved(f) {
        (f, true)
    } else {
        proof {
            lemma_branch(g);
        }
        let tried = search(with_guess(f, i));
        if tried.1 {
            tried
        } else {
            search(without_guess(f, i))
        }
    }
}

/// What propagation records of its course: the board as each round finds
/// it, the last of these being the board that propagation leaves.
pub open spec fn propagation_steps(g: Seq<Set<int>>) -> Seq<Step>
    decreases total(g),
{
    if is_board(g) && all_solvable(g) && sweep(g).1 {
        proof {
            lemma_sweep(g);
        }
        seq![Step::State(g)] + propagation_steps(sweep(g).0)
    } else {
        seq![Step::State(g)]
    }
}

/// What the search records of its course when it begins with `guesses`
/// guesses standing: the rounds of propagation, then the end of the branch
/// or the guess with the course of the search on it and, where that fails,
/// its removal and the course of the search that goes on.
pub open spec fn search_steps(g: Seq<Set<int>>, guesses: int) -> Seq<Step>
    decreases total(g),
{
    let f = fixpoint(g);
    let i = simplest_unsolved(f);
    if !is_board(g) || !all_solvable(f) {
        propagation_steps(g).push(Step::DeadEnd)
    } else if all_solved(f) {
        propagation_steps(g).push(Step::Solved)
    } else {
        proof {
            lemma_branch(g);
        }
        let tried = propagation_steps(g).push(
            Step::Guess { index: i, guess: least(f[i]), from: f[i], guesses: guesses + 1 },
        ) + search_steps(with_guess(f, i), guesses + 1);
        if search(with_guess(f, i)).1 {
            tried
        } else {
            tried.push(
                Step::BadGuess {
                    index: i,
                    guess: least(f[i]),
                    left: f[i].difference(least(f[i])),
                    guesses,
                },
            ) + search_steps(without_guess(f, i), guesses)
        }
    }
}

/// Propagation advances the board, and leaves it with a cell without
/// candidates or at rest: a further sweep would change nothing.
pub proof fn lemma_fixpoint(g: Seq<Set<int>>)
    requires
        is_board(g),
    ensures
        advances(g, fixpoint(g)),
        total(fixpoint(g)) <= total(g),
        all_solvable(fixpoint(g)) ==> sweep(fixpoint(g)) == (fixpoint(g), false),
        fixpoint(fixpoint(g)) == fixpoint(g),
    decreases total(g),
{
    lemma_sweep(g);
    if all_solvable(g) && sweep(g).1 {
        let h = sweep(g).0;
        lemma_fixpoint(h);
        lemma_advances_chain(g, h, fixpoint(h));
    } else {
        assert(shrinks(g, g));
    }
    lemma_total_shrinks(g, fixpoint(g), 81);
}

/// Where the search branches, both boards it goes on with are boards with
/// fewer candidates than the board it came from.
pub proof fn lemma_branch(g: Seq<Set<int>>)
    requires
        is_board(g),
        all_solvable(fixpoint(g)),
        !all_solved(fixpoint(g)),
    ensures
        ({
            let f = fixpoint(g);
            let i = simplest_unsolved(f);
            &&& 0 <= i < 81
            &&& f[i].len() >= 2
            &&& least(f[i]).len() == 1
            &&& least(f[i]).subset_of(f[i])
            &&& is_board(with_guess(f, i))
            &&& is_board(without_guess(f, i))
            &&& total(with_guess(f, i)) < total(f) <= total(g)
            &&& total(without_guess(f, i)) < total(f)
            &&& advances(f, with_guess(f, i))
            &&& advances(f, without_guess(f, i))
            &&& open_cells(with_guess(f, i)) < open_cells(f) <= open_cells(g)
            &&& open_cells(without_guess(f, i)) <= open_cells(f)
        }),
{
    let f = fixpoint(g);
    let i = simplest_unsolved(f);
    lemma_fixpoint(g);
    lemma_simplest_unsolved(f, i);
    let other = choose|j: int| 0 <= j < f.len() && (#[trigger] f[j]).len() != 1;
    assert(f[other].len() >= 1);
    assert(!(f[other].len() <= 1));
    lemma_digits_finite(f[i]);
    lemma_least(f[i]);
    let a = with_guess(f, i);
    let b = without_guess(f, i);
    let m = least(f[i]);
    lemma_digits_finite(m);
    vstd::set_lib::lemma_len_subset(f[i].difference(m), f[i]);
    assert(f[i].difference(m).len() < f[i].len()) by {
        if f[i].difference(m).len() == f[i].len() {
            vstd::set_lib::lemma_subset_equality(f[i].difference(m), f[i]);
            let d = m.choose();
            assert(m.contains(d));
            assert(f[i].contains(d));
            assert(!f[i].difference(m).contains(d));
        }
    }
    assert(shrinks(f, a));
    assert(shrinks(f, b));
    lemma_total_falls(f, a, i, 81);
    lemma_total_falls(f, b, i, 81);
    assert(a[i] != f[i]);
    assert(b[i] != f[i]);
    lemma_open_shrinks(g, f, 81);
    lemma_open_shrinks(f, b, 81);
    lemma_open_falls(f, a, i, 81);
}

} // verus!
