//! What the solver is good for: a board that the search calls solved is a
//! completed puzzle, and the search finds a completion wherever there is
//! one within the candidates it was given.

use crate::digits::{all_digits, lemma_all_digits, lemma_digits_finite, lemma_single_member};
use crate::grid::{all_solvable, all_solved, is_board, simplest_unsolved};
use crate::progress::{
    advances, effective, lemma_advances_chain, lemma_sweep_upto, lemma_unit_step, lemma_visit,
    total, visit_ok,
};
use crate::rules::{eliminate, others, others_upto, sweep, sweep_upto, unit_step, visit, Visit};
use crate::search::{fixpoint, lemma_branch, lemma_fixpoint, search, with_guess, without_guess};
use crate::units::{is_peer, lemma_member, lemma_slot, member, slot, Unit};
use vstd::prelude::*;
use vstd::set_lib::{lemma_set_disjoint_lens, lemma_subset_equality};

verus! {

/// Whether no two cells of a row, a column or a box share a candidate.
pub open spec fn peers_disjoint(g: Seq<Set<int>>) -> bool {
    forall|u: Unit, p: int, q: int| 0 <= p < 81 && #[trigger] is_peer(u, p, q) ==> g[p].disjoint(g[q])
}

/// Whether `g` is a completed puzzle: every cell holds one digit, and no
/// digit stands twice in a row, a column or a box.
pub open spec fn is_complete(g: Seq<Set<int>>) -> bool {
    &&& is_board(g)
    &&& all_solved(g)
    &&& peers_disjoint(g)
}

/// Whether the board `t` stays within the candidates of `g`, cell by cell.
pub open spec fn refines(t: Seq<Set<int>>, g: Seq<Set<int>>) -> bool {
    &&& t.len() == g.len()
    &&& forall|i: int| 0 <= i < g.len() ==> (#[trigger] t[i]).subset_of(g[i])
}

/// Whether `g` is a puzzle as it is set: every cell holds one digit or is
/// open to all nine.
pub open spec fn is_puzzle(g: Seq<Set<int>>) -> bool {
    &&& is_board(g)
    &&& forall|i: int| 0 <= i < 81 ==> (#[trigger] g[i]).len() == 1 || g[i] == all_digits()
}

/// Once a visit has changed the board, the sweep reports a change.
proof fn lemma_flag_stays(g: Seq<Set<int>>, n: nat, m: nat)
    requires
        is_board(g),
        n <= m <= 81,
        sweep_upto(g, n).1,
    ensures
        sweep_upto(g, m).1,
    decreases m - n,
{
    if n < m {
        lemma_flag_stays(g, n, (m - 1) as nat);
        lemma_sweep_upto(g, (m - 1) as nat);
        let before = sweep_upto(g, (m - 1) as nat);
        lemma_visit(before.0, before.1, m - 1);
    }
}

/// On a board that a sweep leaves unchanged, the candidate of a cell that
/// is down to one or none stands in no peer.
proof fn lemma_rest_visit(g: Seq<Set<int>>, p: int, u: Unit)
    requires
        is_board(g),
        !sweep(g).1,
        0 <= p < 81,
        g[p].len() <= 1,
    ensures
        eliminate(g, u, p, g[p]) == g,
{
    lemma_sweep_upto(g, p as nat);
    if sweep_upto(g, p as nat).1 {
        lemma_flag_stays(g, p as nat, 81);
    }
    if sweep_upto(g, (p + 1) as nat).1 {
        lemma_flag_stays(g, (p + 1) as nat, 81);
    }
    assert(sweep_upto(g, p as nat).0 == g);
    assert(sweep_upto(g, (p + 1) as nat) == visit(g, false, p));
    let v0 = Visit { board: g, cell: g[p], single: true, changed: false };
    let v1 = unit_step(v0, Unit::Row, p);
    let v2 = unit_step(v1, Unit::Column, p);
    let v3 = unit_step(v2, Unit::Block, p);
    lemma_unit_step(v0, Unit::Row, p);
    lemma_unit_step(v1, Unit::Column, p);
    lemma_unit_step(v2, Unit::Block, p);
    assert(!v3.changed);
    assert(!v2.changed);
    assert(!v1.changed);
    assert(v1.board == g);
    assert(v2.board == g);
}

/// A board with one candidate in every cell that a sweep leaves unchanged is
/// a completed puzzle.
pub proof fn lemma_rest_complete(g: Seq<Set<int>>)
    requires
        is_board(g),
        all_solved(g),
        !sweep(g).1,
    ensures
        is_complete(g),
{
    assert forall|u: Unit, p: int, q: int| 0 <= p < 81 && #[trigger] is_peer(u, p, q) implies g[p].disjoint(
        g[q],
    ) by {
        lemma_rest_visit(g, p, u);
        assert(eliminate(g, u, p, g[p])[q] == g[q].difference(g[p]));
        assert forall|d: int| !(g[p].contains(d) && g[q].contains(d)) by {
            if g[p].contains(d) && g[q].contains(d) {
                assert(!g[q].difference(g[p]).contains(d));
            }
        }
    }
}

/// What the search leaves: a board that stems from the given one without a
/// cell gaining candidates and with every cell that held one digit still
/// holding it or empty; a completed puzzle where the search succeeds, and a
/// board with a cell without candidates where it fails.
pub proof fn lemma_search(g: Seq<Set<int>>)
    requires
        is_board(g),
    ensures
        advances(g, search(g).0),
        search(g).1 ==> is_complete(search(g).0),
        !search(g).1 ==> !all_solvable(search(g).0),
    decreases total(g),
{
    let f = fixpoint(g);
    let i = simplest_unsolved(f);
    lemma_fixpoint(g);
    if !all_solvable(f) {
    } else if all_solved(f) {
        lemma_rest_complete(f);
    } else {
        lemma_branch(g);
        let a = with_guess(f, i);
        lemma_search(a);
        if search(a).1 {
            lemma_advances_chain(g, f, a);
            lemma_advances_chain(g, a, search(a).0);
        } else {
            let b = without_guess(f, i);
            lemma_search(b);
            lemma_advances_chain(g, f, b);
            lemma_advances_chain(g, b, search(b).0);
        }
    }
}

/// The solved board of a puzzle as it is set keeps every given digit and
/// fills the open cells.
pub proof fn lemma_search_puzzle(g: Seq<Set<int>>)
    requires
        is_puzzle(g),
        search(g).1,
    ensures
        is_complete(search(g).0),
        refines(search(g).0, g),
        forall|i: int| 0 <= i < 81 && g[i].len() == 1 ==> search(g).0[i] == g[i],
{
    lemma_search(g);
    let h = search(g).0;
    assert forall|i: int| 0 <= i < 81 && g[i].len() == 1 implies h[i] == g[i] by {
        lemma_digits_finite(g[i]);
        lemma_digits_finite(h[i]);
        lemma_subset_equality(h[i], g[i]);
    }
}

/// The digits that stand in the first `k` slots of the unit of kind `u`
/// that holds the cell at `p`.
pub open spec fn unit_digits(t: Seq<Set<int>>, u: Unit, p: int, k: nat) -> Set<int>
    decreases k,
{
    if k == 0 {
        Set::empty()
    } else {
        unit_digits(t, u, p, (k - 1) as nat).union(t[member(u, p, k - 1)])
    }
}

/// In a completed puzzle the first `k` slots of a unit hold `k` digits.
proof fn lemma_unit_digits(t: Seq<Set<int>>, u: Unit, p: int, k: nat)
    requires
        is_complete(t),
        0 <= p < 81,
        k <= 9,
    ensures
        unit_digits(t, u, p, k).finite(),
        unit_digits(t, u, p, k).len() == k,
        unit_digits(t, u, p, k).subset_of(all_digits()),
        forall|d: int|
            unit_digits(t, u, p, k).contains(d) ==> exists|j: int|
                0 <= j < k && (#[trigger] t[member(u, p, j)]).contains(d),
    decreases k,
{
    if k > 0 {
        lemma_unit_digits(t, u, p, (k - 1) as nat);
        let m = member(u, p, k - 1);
        lemma_member(u, p, k - 1);
        let rest = unit_digits(t, u, p, (k - 1) as nat);
        assert forall|d: int| !(rest.contains(d) && t[m].contains(d)) by {
            if rest.contains(d) && t[m].contains(d) {
                let j = choose|j: int| 0 <= j < k - 1 && (#[trigger] t[member(u, p, j)]).contains(d);
                lemma_member(u, p, j);
                let mj = member(u, p, j);
                assert(is_peer(u, mj, m));
                assert(t[mj].disjoint(t[m]));
            }
        }
        assert(rest.disjoint(t[m]));
        lemma_digits_finite(t[m]);
        lemma_set_disjoint_lens(rest, t[m]);
        assert(rest + t[m] == unit_digits(t, u, p, k));
        assert forall|d: int| unit_digits(t, u, p, k).contains(d) implies exists|j: int|
            0 <= j < k && (#[trigger] t[member(u, p, j)]).contains(d) by {
            if t[m].contains(d) {
                assert(t[member(u, p, k - 1)].contains(d));
            } else {
                let j = choose|j: int| 0 <= j < k - 1 && (#[trigger] t[member(u, p, j)]).contains(d);
                assert(t[member(u, p, j)].contains(d));
            }
        }
    }
}

/// In a completed puzzle every digit stands in every row, column and box,
/// and in one slot only. Returns the slot of `d` in the unit of kind `u`
/// that holds the cell at `p`.
pub proof fn lemma_unit_has_digit(t: Seq<Set<int>>, u: Unit, p: int, d: int) -> (k: int)
    requires
        is_complete(t),
        0 <= p < 81,
        1 <= d <= 9,
    ensures
        0 <= k < 9,
        t[member(u, p, k)].contains(d),
        forall|j: int| 0 <= j < 9 && (#[trigger] t[member(u, p, j)]).contains(d) ==> j == k,
{
    lemma_unit_digits(t, u, p, 9);
    lemma_all_digits();
    lemma_subset_equality(unit_digits(t, u, p, 9), all_digits());
    assert(all_digits().contains(d));
    let k = choose|j: int| 0 <= j < 9 && (#[trigger] t[member(u, p, j)]).contains(d);
    assert forall|j: int| 0 <= j < 9 && (#[trigger] t[member(u, p, j)]).contains(d) implies j
        == k by {
        if j != k {
            lemma_member(u, p, j);
            lemma_member(u, p, k);
            assert(is_peer(u, member(u, p, j), member(u, p, k)));
            assert(t[member(u, p, j)].disjoint(t[member(u, p, k)]));
        }
    }
    k
}

/// A candidate of a peer in one of the first `k` slots is among the
/// candidates of the peers in these slots.
proof fn lemma_others_upto(g: Seq<Set<int>>, u: Unit, p: int, k: nat, j: int, d: int)
    requires
        0 <= j < k,
        member(u, p, j) != p,
        g[member(u, p, j)].contains(d),
    ensures
        others_upto(g, u, p, k).contains(d),
    decreases k,
{
    if j < k - 1 {
        lemma_others_upto(g, u, p, (k - 1) as nat, j, d);
    }
}

/// A candidate of a peer is among the candidates of the peers.
pub proof fn lemma_others_has(g: Seq<Set<int>>, u: Unit, p: int, q: int, d: int)
    requires
        0 <= p < 81,
        is_peer(u, p, q),
        g[q].contains(d),
    ensures
        others(g, u, p).contains(d),
{
    lemma_slot(u, p, q);
    lemma_others_upto(g, u, p, 9, slot(u, q), d);
}

/// The rules of one unit take no digit of a completed puzzle off the board.
proof fn lemma_unit_step_sound(v: Visit, u: Unit, p: int, t: Seq<Set<int>>)
    requires
        visit_ok(v, p),
        is_complete(t),
        refines(t, effective(v, p)),
    ensures
        refines(t, effective(unit_step(v, u, p), p)),
{
    let w = unit_step(v, u, p);
    let e = effective(v, p);
    let f = effective(w, p);
    lemma_digits_finite(v.cell);
    lemma_digits_finite(t[p]);
    assert(t[p].subset_of(e[p]));
    let own = t[p].choose();
    assert(t[p].contains(own));
    assert forall|i: int| 0 <= i < 81 implies (#[trigger] t[i]).subset_of(f[i]) by {
        assert(t[i].subset_of(e[i]));
        if i != p {
            assert(e[i] == v.board[i]);
            assert(f[i] == w.board[i]);
            if v.single && is_peer(u, p, i) {
                assert forall|d: int| t[i].contains(d) implies !v.cell.contains(d) by {
                    if v.cell.contains(d) {
                        lemma_single_member(v.cell, d, own);
                        assert(t[p].disjoint(t[i]));
                    }
                }
            }
        } else {
            let forced = all_digits().difference(others(w.board, u, p));
            if !v.single && forced.len() == 1 {
                lemma_digits_finite(forced);
                let d = forced.choose();
                assert(forced.contains(d));
                let k = lemma_unit_has_digit(t, u, p, d);
                let m = member(u, p, k);
                lemma_member(u, p, k);
                if m != p {
                    assert(t[m].subset_of(e[m]));
                    assert(e[m] == w.board[m]);
                    lemma_others_has(w.board, u, p, m, d);
                }
                assert forall|x: int| t[p].contains(x) implies forced.contains(x) by {
                    lemma_single_member(t[p], x, d);
                }
            }
        }
    }
}

/// A visit takes no digit of a completed puzzle off the board.
proof fn lemma_visit_sound(g: Seq<Set<int>>, changed: bool, p: int, t: Seq<Set<int>>)
    requires
        is_board(g),
        0 <= p < 81,
        is_complete(t),
        refines(t, g),
    ensures
        refines(t, visit(g, changed, p).0),
{
    let v0 = Visit { board: g, cell: g[p], single: g[p].len() <= 1, changed };
    let v1 = unit_step(v0, Unit::Row, p);
    let v2 = unit_step(v1, Unit::Column, p);
    assert(effective(v0, p) =~= g);
    lemma_unit_step(v0, Unit::Row, p);
    lemma_unit_step(v1, Unit::Column, p);
    lemma_unit_step_sound(v0, Unit::Row, p, t);
    lemma_unit_step_sound(v1, Unit::Column, p, t);
    lemma_unit_step_sound(v2, Unit::Block, p, t);
}

proof fn lemma_sweep_upto_sound(g: Seq<Set<int>>, n: nat, t: Seq<Set<int>>)
    requires
        is_board(g),
        n <= 81,
        is_complete(t),
        refines(t, g),
    ensures
        refines(t, sweep_upto(g, n).0),
    decreases n,
{
    if n > 0 {
        lemma_sweep_upto_sound(g, (n - 1) as nat, t);
        lemma_sweep_upto(g, (n - 1) as nat);
        let before = sweep_upto(g, (n - 1) as nat);
        lemma_visit_sound(before.0, before.1, n - 1, t);
    }
}

/// A sweep takes no digit of a completed puzzle off the board: a
/// completion within the candidates before is one within those after.
pub proof fn lemma_sweep_sound(g: Seq<Set<int>>, t: Seq<Set<int>>)
    requires
        is_board(g),
        is_complete(t),
        refines(t, g),
    ensures
        refines(t, sweep(g).0),
{
    lemma_sweep_upto_sound(g, 81, t);
}

/// Propagation takes no digit of a completed puzzle off the board.
pub proof fn lemma_fixpoint_sound(g: Seq<Set<int>>, t: Seq<Set<int>>)
    requires
        is_board(g),
        is_complete(t),
        refines(t, g),
    ensures
        refines(t, fixpoint(g)),
    decreases total(g),
{
    crate::progress::lemma_sweep(g);
    if all_solvable(g) && sweep(g).1 {
        lemma_sweep_sound(g, t);
        lemma_fixpoint_sound(sweep(g).0, t);
    }
}

/// The search succeeds wherever the given candidates admit a completed
/// puzzle.
pub proof fn lemma_search_finds(g: Seq<Set<int>>, t: Seq<Set<int>>)
    requires
        is_board(g),
        is_complete(t),
        refines(t, g),
    ensures
        search(g).1,
    decreases total(g),
{
    let f = fixpoint(g);
    let i = simplest_unsolved(f);
    lemma_fixpoint(g);
    lemma_fixpoint_sound(g, t);
    assert forall|j: int| 0 <= j < f.len() implies (#[trigger] f[j]).len() >= 1 by {
        assert(t[j].subset_of(f[j]));
        lemma_digits_finite(f[j]);
        vstd::set_lib::lemma_len_subset(t[j], f[j]);
    }
    if !all_solved(f) {
        lemma_branch(g);
        let a = with_guess(f, i);
        let b = without_guess(f, i);
        if !search(a).1 {
            assert(refines(t, b)) by {
                assert forall|j: int| 0 <= j < 81 implies (#[trigger] t[j]).subset_of(b[j]) by {
                    assert(t[j].subset_of(f[j]));
                    if j == i {
                        if !t[i].disjoint(a[i]) {
                            let d = choose|d: int| t[i].contains(d) && a[i].contains(d);
                            lemma_digits_finite(t[i]);
                            lemma_digits_finite(a[i]);
                            assert forall|x: int| t[i].contains(x) implies a[i].contains(x) by {
                                lemma_single_member(t[i], x, d);
                            }
                            assert(refines(t, a)) by {
                                assert forall|k: int| 0 <= k < 81 implies (#[trigger] t[k]).subset_of(
                                    a[k],
                                ) by {
                                    assert(t[k].subset_of(f[k]));
                                }
                            }
                            lemma_search_finds(a, t);
                        }
                    }
                }
            }
            lemma_search_finds(b, t);
        }
    }
}

/// A completed puzzle is at rest: a sweep changes nothing on it, and the
/// search leaves it as it is and succeeds.
pub proof fn lemma_complete_rests(g: Seq<Set<int>>)
    requires
        is_complete(g),
    ensures
        sweep(g) == (g, false),
        fixpoint(g) == g,
        search(g) == (g, true),
{
    crate::progress::lemma_sweep(g);
    lemma_sweep_sound(g, g);
    let h = sweep(g).0;
    assert forall|i: int| 0 <= i < 81 implies h[i] == g[i] by {
        assert(g[i].subset_of(h[i]));
        assert(h[i].len() <= g[i].len());
        lemma_digits_finite(g[i]);
        lemma_digits_finite(h[i]);
        vstd::set_lib::lemma_len_subset(g[i], h[i]);
        lemma_subset_equality(g[i], h[i]);
    }
    assert(h =~= g);
}

/// A puzzle with one completion only is solved to that completion.
pub proof fn lemma_search_unique(g: Seq<Set<int>>, t: Seq<Set<int>>)
    requires
        is_puzzle(g),
        is_complete(t),
        refines(t, g),
        forall|s: Seq<Set<int>>| is_complete(s) && #[trigger] refines(s, g) ==> s == t,
    ensures
        search(g) == (t, true),
{
    lemma_search_finds(g, t);
    lemma_search_puzzle(g);
}

} // verus!
