//! Why propagation comes to an end: a sweep never gives a cell more
//! candidates, and whenever it changes the board, the board has fewer
//! candidates in all.

use crate::digits::{all_digits, lemma_digits_finite};
use crate::grid::is_board;
use crate::rules::{others, sweep, sweep_upto, unit_step, visit, Visit};
use crate::units::Unit;
use vstd::prelude::*;
use vstd::set_lib::{lemma_len_subset, lemma_subset_equality};

verus! {

/// Whether the board `h` has, cell by cell, no more candidates than `g`.
pub open spec fn shrinks(g: Seq<Set<int>>, h: Seq<Set<int>>) -> bool {
    &&& g.len() == h.len()
    &&& forall|i: int| 0 <= i < g.len() ==> (#[trigger] h[i]).len() <= g[i].len()
}

/// The number of candidates in the first `n` cells of `g`.
pub open spec fn total_upto(g: Seq<Set<int>>, n: nat) -> nat
    decreases n,
{
    if n == 0 {
        0
    } else {
        total_upto(g, (n - 1) as nat) + g[n - 1].len()
    }
}

/// The number of candidates on the board `g`, all cells together.
pub open spec fn total(g: Seq<Set<int>>) -> nat {
    total_upto(g, g.len())
}

/// Whether the board `h` has, in each cell that has at most one candidate
/// in `g`, no candidate that the cell has not in `g`.
pub open spec fn keeps_singles(g: Seq<Set<int>>, h: Seq<Set<int>>) -> bool {
    forall|i: int| 0 <= i < g.len() && g[i].len() <= 1 ==> (#[trigger] h[i]).subset_of(g[i])
}

/// Whether the board `now` can stem from `before` by the steps of the
/// solver: no cell has gained candidates, a cell that was down to one
/// candidate has kept or lost it, and unless the board is the same, it has
/// fewer candidates in all.
pub open spec fn advances(before: Seq<Set<int>>, now: Seq<Set<int>>) -> bool {
    &&& is_board(now)
    &&& shrinks(before, now)
    &&& keeps_singles(before, now)
    &&& now != before ==> total(now) < total(before)
}

/// Where no cell gains a candidate, the total does not grow.
pub proof fn lemma_total_shrinks(g: Seq<Set<int>>, h: Seq<Set<int>>, n: nat)
    requires
        shrinks(g, h),
        n <= g.len(),
    ensures
        total_upto(h, n) <= total_upto(g, n),
    decreases n,
{
    if n > 0 {
        lemma_total_shrinks(g, h, (n - 1) as nat);
    }
}

/// Where no cell gains a candidate and the cell at `i` loses one, the total
/// falls.
pub proof fn lemma_total_falls(g: Seq<Set<int>>, h: Seq<Set<int>>, i: int, n: nat)
    requires
        shrinks(g, h),
        0 <= i < n <= g.len(),
        h[i].len() < g[i].len(),
    ensures
        total_upto(h, n) < total_upto(g, n),
    decreases n,
{
    if i == n - 1 {
        lemma_total_shrinks(g, h, (n - 1) as nat);
    } else {
        lemma_total_falls(g, h, i, (n - 1) as nat);
    }
}

/// The number of cells among the first `n` of `g` that have two or more
/// candidates.
pub open spec fn open_upto(g: Seq<Set<int>>, n: nat) -> nat
    decreases n,
{
    if n == 0 {
        0
    } else {
        open_upto(g, (n - 1) as nat) + if g[n - 1].len() >= 2 {
            1nat
        } else {
            0nat
        }
    }
}

/// The number of cells of `g` that have two or more candidates.
pub open spec fn open_cells(g: Seq<Set<int>>) -> nat {
    open_upto(g, g.len())
}

/// No more cells are open than there are cells.
pub proof fn lemma_open_bound(g: Seq<Set<int>>, n: nat)
    ensures
        open_upto(g, n) <= n,
    decreases n,
{
    if n > 0 {
        lemma_open_bound(g, (n - 1) as nat);
    }
}

/// Where no cell gains a candidate, no cell opens.
pub proof fn lemma_open_shrinks(g: Seq<Set<int>>, h: Seq<Set<int>>, n: nat)
    requires
        shrinks(g, h),
        n <= g.len(),
    ensures
        open_upto(h, n) <= open_upto(g, n),
    decreases n,
{
    if n > 0 {
        lemma_open_shrinks(g, h, (n - 1) as nat);
    }
}

/// Where no cell gains a candidate and the open cell at `i` is left with at
/// most one, fewer cells are open.
pub proof fn lemma_open_falls(g: Seq<Set<int>>, h: Seq<Set<int>>, i: int, n: nat)
    requires
        shrinks(g, h),
        0 <= i < n <= g.len(),
        g[i].len() >= 2,
        h[i].len() <= 1,
    ensures
        open_upto(h, n) < open_upto(g, n),
    decreases n,
{
    if i == n - 1 {
        lemma_open_shrinks(g, h, (n - 1) as nat);
    } else {
        lemma_open_falls(g, h, i, (n - 1) as nat);
    }
}

/// Two boards of one length that differ, differ in some cell.
pub proof fn lemma_differ(g: Seq<Set<int>>, h: Seq<Set<int>>) -> (i: int)
    requires
        g.len() == h.len(),
        g != h,
    ensures
        0 <= i < g.len(),
        g[i] != h[i],
{
    if forall|j: int| 0 <= j < g.len() ==> g[j] == h[j] {
        assert(g =~= h);
    }
    choose|j: int| 0 <= j < g.len() && g[j] != h[j]
}

/// Steps chain: where `b` stems from `a` and `c` from `b`, `c` stems from
/// `a`, and it is `a` only if neither step changed the board.
pub proof fn lemma_advances_chain(a: Seq<Set<int>>, b: Seq<Set<int>>, c: Seq<Set<int>>)
    requires
        advances(a, b),
        advances(b, c),
    ensures
        advances(a, c),
        c != a <==> b != a || c != b,
{
    lemma_total_shrinks(a, b, a.len());
    lemma_total_shrinks(b, c, b.len());
}

/// The board of a visit with the visited cell's candidates written in.
pub open spec fn effective(v: Visit, p: int) -> Seq<Set<int>> {
    v.board.update(p, v.cell)
}

/// Whether the state of a visit to the cell at `p` is in order.
pub open spec fn visit_ok(v: Visit, p: int) -> bool {
    &&& 0 <= p < 81
    &&& is_board(v.board)
    &&& v.cell.subset_of(all_digits())
    &&& v.single == (v.cell.len() <= 1)
}

/// One unit's rules keep the state of a visit in order and advance the
/// board.
pub proof fn lemma_unit_step(v: Visit, u: Unit, p: int)
    requires
        visit_ok(v, p),
    ensures
        visit_ok(unit_step(v, u, p), p),
        unit_step(v, u, p).board[p] == v.board[p],
        advances(effective(v, p), effective(unit_step(v, u, p), p)),
        unit_step(v, u, p).changed == (v.changed || effective(unit_step(v, u, p), p) != effective(
            v,
            p,
        )),
{
    let w = unit_step(v, u, p);
    let e = effective(v, p);
    let f = effective(w, p);
    lemma_digits_finite(v.cell);
    assert forall|i: int| 0 <= i < 81 implies (#[trigger] w.board[i]).subset_of(all_digits())
        && w.board[i].subset_of(v.board[i]) && w.board[i].len() <= v.board[i].len() by {
        lemma_digits_finite(v.board[i]);
        lemma_len_subset(w.board[i], v.board[i]);
    }
    let forced = all_digits().difference(others(w.board, u, p));
    lemma_digits_finite(forced);
    lemma_digits_finite(w.cell);
    assert(is_board(f)) by {
        assert forall|i: int| 0 <= i < 81 implies (#[trigger] f[i]).subset_of(all_digits()) by {
            if i != p {
                assert(f[i] == w.board[i]);
            }
        }
    }
    assert(shrinks(e, f)) by {
        assert forall|i: int| 0 <= i < 81 implies (#[trigger] f[i]).len() <= e[i].len() by {
            if i != p {
                assert(f[i] == w.board[i]);
                assert(e[i] == v.board[i]);
            }
        }
    }
    assert(keeps_singles(e, f)) by {
        assert forall|i: int| 0 <= i < 81 && e[i].len() <= 1 implies (#[trigger] f[i]).subset_of(
            e[i],
        ) by {
            if i != p {
                assert(f[i] == w.board[i]);
                assert(e[i] == v.board[i]);
            }
        }
    }
    if f != e {
        let i = lemma_differ(e, f);
        if i != p {
            assert(f[i] == w.board[i]);
            assert(e[i] == v.board[i]);
            lemma_digits_finite(v.board[i]);
            if f[i].len() == e[i].len() {
                lemma_subset_equality(f[i], e[i]);
            }
        }
        lemma_total_falls(e, f, i, 81);
    }
    if !v.single && forced.len() == 1 {
        assert(f[p] != e[p]);
    } else {
        if w.board != v.board {
            let i = lemma_differ(v.board, w.board);
            assert(f[i] == w.board[i]);
            assert(e[i] == v.board[i]);
        } else {
            assert(f =~= e);
        }
    }
}

/// A visit advances the board.
pub proof fn lemma_visit(g: Seq<Set<int>>, changed: bool, p: int)
    requires
        is_board(g),
        0 <= p < 81,
    ensures
        advances(g, visit(g, changed, p).0),
        visit(g, changed, p).1 == (changed || visit(g, changed, p).0 != g),
{
    let v0 = Visit { board: g, cell: g[p], single: g[p].len() <= 1, changed };
    let v1 = unit_step(v0, Unit::Row, p);
    let v2 = unit_step(v1, Unit::Column, p);
    let v3 = unit_step(v2, Unit::Block, p);
    assert(effective(v0, p) =~= g);
    lemma_unit_step(v0, Unit::Row, p);
    lemma_unit_step(v1, Unit::Column, p);
    lemma_unit_step(v2, Unit::Block, p);
    lemma_advances_chain(effective(v0, p), effective(v1, p), effective(v2, p));
    lemma_advances_chain(effective(v0, p), effective(v2, p), effective(v3, p));
}

/// The visits to the first `n` cells advance the board, and the flag they
/// give says whether they changed it.
pub proof fn lemma_sweep_upto(g: Seq<Set<int>>, n: nat)
    requires
        is_board(g),
        n <= 81,
    ensures
        advances(g, sweep_upto(g, n).0),
        sweep_upto(g, n).1 == (sweep_upto(g, n).0 != g),
    decreases n,
{
    if n == 0 {
        assert(shrinks(g, g));
    } else {
        lemma_sweep_upto(g, (n - 1) as nat);
        let before = sweep_upto(g, (n - 1) as nat);
        lemma_visit(before.0, before.1, n - 1);
        lemma_advances_chain(g, before.0, visit(before.0, before.1, n - 1).0);
    }
}

/// A sweep advances the board: it leaves a board, gives no cell more
/// candidates, reports a change exactly when the board is another one, and
/// then the board has fewer candidates in all.
pub proof fn lemma_sweep(g: Seq<Set<int>>)
    requires
        is_board(g),
    ensures
        advances(g, sweep(g).0),
        sweep(g).1 == (sweep(g).0 != g),
{
    lemma_sweep_upto(g, 81);
}

} // verus!
