//! Constraint propagation and backtracking search.

use crate::cell::Cell;
use crate::digits::digit_set;
use crate::events::{
    lemma_prefix_chain, lemma_prefix_push, lemma_steps_push, records, steps, Event, Step,
};
use crate::grid::{all_solvable, all_solved, is_board, Grid};
use crate::progress::{advances, lemma_open_bound, lemma_sweep, open_cells, total};
use crate::rules::{eliminate, others_upto, sweep, sweep_upto, unit_step, Visit};
use crate::search::{
    fixpoint, lemma_branch, lemma_fixpoint, propagation_steps, search, search_steps, with_guess,
    without_guess,
};
use crate::solution::{
    is_complete, lemma_fixpoint_sound, lemma_rest_complete, lemma_search, lemma_search_finds,
    lemma_sweep_sound, refines,
};
use crate::units::{is_peer, lemma_member, lemma_slot, member_index, slot, Unit};
use vstd::prelude::*;

verus! {

/// The board `g` after `cell` has left the peers of `p` in the slots below
/// `k` of the unit of kind `u`.
spec fn eliminate_upto(g: Seq<Set<int>>, u: Unit, p: int, cell: Set<int>, k: int) -> Seq<Set<int>> {
    Seq::new(
        g.len(),
        |q: int|
            if is_peer(u, p, q) && slot(u, q) < k {
                g[q].difference(cell)
            } else {
                g[q]
            },
    )
}

/// Both rules for the cell at `p` and its unit of kind `u`: returns the
/// candidates of the cell, whether they count as at most one, and whether
/// anything has changed.
fn apply_unit(grid: &mut Grid, u: Unit, p: usize, cell: Cell, single: bool, modified: bool) -> (r: (
    Cell,
    bool,
    bool,
))
    requires
        p < 81,
    ensures
        ({
            let v = Visit { board: old(grid)@, cell: cell@, single, changed: modified };
            let w = unit_step(v, u, p as int);
            &&& final(grid)@ == w.board
            &&& r.0@ == w.cell
            &&& r.1 == w.single
            &&& r.2 == w.changed
        }),
{
    let ghost g0 = grid@;
    let ghost g1 = if single {
        eliminate(g0, u, p as int, cell@)
    } else {
        g0
    };
    let mut unit = Cell::new(0);
    let mut changed = modified;
    let mut k: usize = 0;
    proof {
        grid.lemma_view();
        assert(digit_set(0) =~= Set::empty());
        assert(grid@ =~= eliminate_upto(g0, u, p as int, cell@, 0));
    }
    while k < 9
        invariant
            k <= 9,
            p < 81,
            g0.len() == 81,
            g1 == if single {
                eliminate(g0, u, p as int, cell@)
            } else {
                g0
            },
            grid@ == if single {
                eliminate_upto(g0, u, p as int, cell@, k as int)
            } else {
                g0
            },
            unit@ == others_upto(g1, u, p as int, k as nat),
            changed == (modified || grid@ != g0),
        decreases 9 - k,
    {
        let q = member_index(u, p, k);
        let ghost before = grid@;
        proof {
            lemma_member(u, p as int, k as int);
        }
        if q != p {
            let peer1: Cell = *grid.at_index(q);
            proof {
                assert(grid@ =~= before);
            }
            let mut peer: Cell = peer1;
            if single {
                peer = peer - cell;
                if peer != peer1 {
                    changed = true;
                }
                proof {
                    use_type_invariant(&peer);
                    use_type_invariant(&peer1);
                    if peer@ == peer1@ {
                        peer.lemma_view_injective(&peer1);
                    }
                }
            }
            unit = unit + peer;
            *grid.at_index(q) = peer;
            proof {
                assert(grid@ == before.update(q as int, peer@));
                if single {
                    assert forall|i: int| 0 <= i < 81 implies grid@[i] == eliminate_upto(
                        g0,
                        u,
                        p as int,
                        cell@,
                        k + 1,
                    )[i] by {
                        if is_peer(u, p as int, i) {
                            lemma_slot(u, p as int, i);
                        }
                    }
                    assert(grid@ =~= eliminate_upto(g0, u, p as int, cell@, k + 1));
                    if peer@ == peer1@ {
                        assert(grid@ =~= before);
                    } else {
                        assert(grid@[q as int] != g0[q as int]);
                    }
                    if before != g0 && grid@ == g0 {
                        assert(before =~= g0);
                    }
                } else {
                    assert(grid@ =~= before);
                }
                assert(g1[q as int] == peer@);
            }
        } else {
            proof {
                if single {
                    assert forall|i: int| 0 <= i < 81 implies grid@[i] == eliminate_upto(
                        g0,
                        u,
                        p as int,
                        cell@,
                        k + 1,
                    )[i] by {
                        if is_peer(u, p as int, i) {
                            lemma_slot(u, p as int, i);
                        }
                    }
                    assert(grid@ =~= eliminate_upto(g0, u, p as int, cell@, k + 1));
                }
            }
        }
        k += 1;
    }
    proof {
        if single {
            assert forall|i: int| 0 <= i < 81 implies grid@[i] == eliminate(g0, u, p as int, cell@)[i] by {
                if is_peer(u, p as int, i) {
                    lemma_slot(u, p as int, i);
                }
            }
            assert(grid@ =~= eliminate(g0, u, p as int, cell@));
        }
    }
    let forced = core::ops::Not::not(unit);
    if !single && forced.solved() {
        (forced, true, true)
    } else {
        (cell, single, changed)
    }
}

/// One sweep of the two rules over the whole board. Returns whether any
/// cell's candidates changed.
pub fn constrain(grid: &mut Grid) -> (modified: bool)
    ensures
        (final(grid)@, modified) == sweep(old(grid)@),
        modified == (final(grid)@ != old(grid)@),
        advances(old(grid)@, final(grid)@),
        forall|t: Seq<Set<int>>|
            is_complete(t) && refines(t, old(grid)@) ==> #[trigger] refines(t, final(grid)@),
{
    proof {
        grid.lemma_view();
        lemma_sweep(grid@);
        assert forall|t: Seq<Set<int>>| is_complete(t) && refines(t, grid@) implies #[trigger] refines(
            t,
            sweep(grid@).0,
        ) by {
            lemma_sweep_sound(grid@, t);
        }
    }
    let mut modified = false;
    let mut y: usize = 0;
    while y < Grid::HEIGHT
        invariant
            y <= 9,
            (grid@, modified) == sweep_upto(old(grid)@, (9 * y) as nat),
        decreases 9 - y,
    {
        let mut x: usize = 0;
        while x < Grid::WIDTH
            invariant
                y < 9,
                x <= 9,
                (grid@, modified) == sweep_upto(old(grid)@, (9 * y + x) as nat),
            decreases 9 - x,
        {
            let p: usize = x + y * Grid::WIDTH;
            let ghost arrival = grid@;
            proof {
                grid.lemma_view();
            }
            let cell: Cell = *grid.at_position(x, y);
            let single = cell.single();
            proof {
                assert(grid@ =~= arrival);
            }
            let (cell, single, changed) = apply_unit(grid, Unit::Row, p, cell, single, modified);
            let (cell, single, changed) = apply_unit(grid, Unit::Column, p, cell, single, changed);
            let (cell, single, changed) = apply_unit(grid, Unit::Block, p, cell, single, changed);
            *grid.at_position(x, y) = cell;
            modified = changed;
            x += 1;
        }
        y += 1;
    }
    modified
}

/// Sweeps the board until a sweep changes nothing or a cell has no candidate
/// left. With `interactive` set, the board as each round finds it is added
/// to `log`.
pub fn propagate(grid: &mut Grid, interactive: bool, log: &mut Vec<Event>)
    ensures
        final(grid)@ == fixpoint(old(grid)@),
        advances(old(grid)@, final(grid)@),
        all_solvable(final(grid)@) ==> sweep(final(grid)@) == (final(grid)@, false),
        all_solvable(final(grid)@) && all_solved(final(grid)@) ==> is_complete(final(grid)@),
        forall|t: Seq<Set<int>>|
            is_complete(t) && refines(t, old(grid)@) ==> #[trigger] refines(t, final(grid)@),
        records(old(log)@, final(log)@, interactive, propagation_steps(old(grid)@)),
{
    proof {
        grid.lemma_view();
        lemma_fixpoint(grid@);
        if all_solvable(fixpoint(grid@)) && all_solved(fixpoint(grid@)) {
            lemma_rest_complete(fixpoint(grid@));
        }
        assert forall|t: Seq<Set<int>>| is_complete(t) && refines(t, grid@) implies #[trigger] refines(
            t,
            fixpoint(grid@),
        ) by {
            lemma_fixpoint_sound(grid@, t);
        }
        assert(steps(log@) + propagation_steps(grid@) =~= steps(log@) + propagation_steps(grid@));
    }
    loop
        invariant_except_break
            interactive ==> steps(old(log)@) + propagation_steps(old(grid)@) == steps(log@)
                + propagation_steps(grid@),
        invariant
            is_board(grid@),
            fixpoint(grid@) == fixpoint(old(grid)@),
            old(log)@.is_prefix_of(log@),
            !interactive ==> log@ == old(log)@,
        ensures
            grid@ == fixpoint(old(grid)@),
            records(old(log)@, log@, interactive, propagation_steps(old(grid)@)),
        decreases total(grid@),
    {
        let ghost round = grid@;
        let ghost before = log@;
        if interactive {
            log.push(Event::State(*grid));
            proof {
                lemma_steps_push(before, Event::State(*grid));
                lemma_prefix_push(old(log)@, before, Event::State(*grid));
            }
        }
        if !grid.solvable() {
            proof {
                assert(steps(before) + propagation_steps(round) =~= steps(before).push(
                    Step::State(round),
                ));
            }
            break ;
        }
        if !constrain(grid) {
            proof {
                assert(steps(before) + propagation_steps(round) =~= steps(before).push(
                    Step::State(round),
                ));
            }
            break ;
        }
        proof {
            assert(steps(before) + propagation_steps(round) =~= steps(before).push(
                Step::State(round),
            ) + propagation_steps(grid@));
        }
    }
}

/// The search on `grid`, with `guess` guesses standing. Leaves the solved
/// board and returns true, or leaves a board with a cell without candidates
/// and returns false. Each guess closes an open cell, so the guesses that
/// stand at one time are no more than the cells that were open at first.
fn search_board(grid: &mut Grid, interactive: bool, guess: i32, log: &mut Vec<Event>) -> (ok: bool)
    requires
        guess + open_cells(old(grid)@) <= i32::MAX,
    ensures
        (final(grid)@, ok) == search(old(grid)@),
        records(old(log)@, final(log)@, interactive, search_steps(old(grid)@, guess as int)),
    decreases total(old(grid)@),
{
    proof {
        grid.lemma_view();
    }
    loop
        invariant
            is_board(grid@),
            search(grid@) == search(old(grid)@),
            total(grid@) <= total(old(grid)@),
            guess + open_cells(grid@) <= i32::MAX,
            old(log)@.is_prefix_of(log@),
            !interactive ==> log@ == old(log)@,
            interactive ==> steps(old(log)@) + search_steps(old(grid)@, guess as int) == steps(
                log@,
            ) + search_steps(grid@, guess as int),
        decreases total(grid@),
    {
        let ghost start = grid@;
        let ghost arrival = log@;
        let ghost before = steps(log@);
        let ghost course = search_steps(start, guess as int);
        // first, constrain the board as much as possible
        propagate(grid, interactive, log);
        proof {
            lemma_fixpoint(start);
            grid.lemma_view();
            lemma_prefix_chain(old(log)@, arrival, log@);
        }
        if !grid.solvable() {
            if interactive {
                proof {
                    lemma_steps_push(log@, Event::DeadEnd);
                    lemma_prefix_push(old(log)@, log@, Event::DeadEnd);
                }
                log.push(Event::DeadEnd);
                proof {
                    assert(steps(log@) =~= before + course);
                }
            }
            return false;
        }
        if grid.solved() {
            if interactive {
                proof {
                    lemma_steps_push(log@, Event::Solved);
                    lemma_prefix_push(old(log)@, log@, Event::Solved);
                }
                log.push(Event::Solved);
                proof {
                    assert(steps(log@) =~= before + course);
                }
            }
            return true;
        }
        let ghost rest = grid@;
        proof {
            lemma_branch(start);
        }
        // guess the smallest candidate of an unsolved cell with the fewest
        let index = grid.simplest_unsolved_cell_index();
        let cell: Cell = *grid.at_index(index);
        let candidate = cell.min();
        let mut copy: Grid = *grid;
        *copy.at_index(index) = candidate;
        proof {
            assert(grid@ =~= rest);
            assert(copy@ =~= with_guess(rest, index as int));
        }
        if interactive {
            let event = Event::Guess { index, guess: candidate, from: cell, guesses: guess + 1 };
            proof {
                lemma_steps_push(log@, event);
                lemma_prefix_push(old(log)@, log@, event);
            }
            log.push(event);
        }
        let ghost guessed = log@;
        let ok = search_board(&mut copy, interactive, guess + 1, log);
        proof {
            lemma_prefix_chain(old(log)@, guessed, log@);
        }
        if ok {
            *grid = copy;
            proof {
                if interactive {
                    assert(steps(log@) =~= before + course);
                }
            }
            return true;
        }
        // that was a bad guess: remove it and go on
        let left = cell - candidate;
        *grid.at_index(index) = left;
        proof {
            assert(grid@ =~= without_guess(rest, index as int));
        }
        if interactive {
            let event = Event::BadGuess { index, guess: candidate, left, guesses: guess };
            proof {
                lemma_steps_push(log@, event);
                lemma_prefix_push(old(log)@, log@, event);
            }
            log.push(event);
            proof {
                assert(steps(log@) + search_steps(grid@, guess as int) =~= before + course);
            }
        }
    }
}

/// Solves the board by propagation and, where propagation comes to rest on
/// an unsolved board, by guessing and backtracking. Returns whether the
/// board is solved; if not, the board is left with a cell without
/// candidates. `guess` is the number of guesses that stand when the search
/// begins; the search never nests deeper than 81 guesses, one for each cell.
/// With `interactive` set, the course of the search is added to `log`.
pub fn solve(grid: &mut Grid, interactive: bool, guess: i32, log: &mut Vec<Event>) -> (ok: bool)
    requires
        guess <= i32::MAX - 81,
    ensures
        (final(grid)@, ok) == search(old(grid)@),
        advances(old(grid)@, final(grid)@),
        ok ==> is_complete(final(grid)@),
        !ok ==> !all_solvable(final(grid)@),
        forall|t: Seq<Set<int>>| is_complete(t) && #[trigger] refines(t, old(grid)@) ==> ok,
        records(old(log)@, final(log)@, interactive, search_steps(old(grid)@, guess as int)),
{
    proof {
        grid.lemma_view();
        lemma_open_bound(grid@, 81);
        lemma_search(grid@);
        assert forall|t: Seq<Set<int>>| is_complete(t) && #[trigger] refines(t, grid@) implies search(
            grid@,
        ).1 by {
            lemma_search_finds(grid@, t);
        }
    }
    search_board(grid, interactive, guess, log)
}

} // verus!
