//! The two deduction rules and the sweep that applies them, as functions on
//! boards of candidate sets.
//!
//! A sweep visits the 81 cells in row-major order. At each cell it takes the
//! row, the column and the box of the cell in turn, and applies to each:
//!
//! 1. the naked single: where the cell has at most one candidate, that
//!    candidate leaves every peer of the unit;
//! 2. the hidden single: where the cell has two or more candidates and the
//!    peers of the unit leave exactly one digit out, that digit alone
//!    becomes the cell's candidate set.

use crate::digits::all_digits;
use crate::units::{is_peer, member, Unit};
use vstd::prelude::*;

verus! {

/// The board `g` after `cell` has left the peers of `p` in the unit of kind
/// `u`.
pub open spec fn eliminate(g: Seq<Set<int>>, u: Unit, p: int, cell: Set<int>) -> Seq<Set<int>> {
    Seq::new(
        g.len(),
        |q: int|
            if is_peer(u, p, q) {
                g[q].difference(cell)
            } else {
                g[q]
            },
    )
}

/// The candidates of the peers of `p` in the first `k` slots of the unit of
/// kind `u`.
pub open spec fn others_upto(g: Seq<Set<int>>, u: Unit, p: int, k: nat) -> Set<int>
    decreases k,
{
    if k == 0 {
        Set::empty()
    } else {
        let q = member(u, p, k - 1);
        let rest = others_upto(g, u, p, (k - 1) as nat);
        if q == p {
            rest
        } else {
            rest.union(g[q])
        }
    }
}

/// The candidates of all peers of `p` in the unit of kind `u`.
pub open spec fn others(g: Seq<Set<int>>, u: Unit, p: int) -> Set<int> {
    others_upto(g, u, p, 9)
}

/// The state of a visit to one cell: the board, on which the visited cell
/// still holds what it held on arrival; the candidates the visit has for
/// that cell by now; whether these count as at most one; and whether the
/// sweep has changed anything so far.
pub struct Visit {
    pub board: Seq<Set<int>>,
    pub cell: Set<int>,
    pub single: bool,
    pub changed: bool,
}

/// Both rules applied for the cell at `p` and its unit of kind `u`.
pub open spec fn unit_step(v: Visit, u: Unit, p: int) -> Visit {
    let board = if v.single {
        eliminate(v.board, u, p, v.cell)
    } else {
        v.board
    };
    let forced = all_digits().difference(others(board, u, p));
    if !v.single && forced.len() == 1 {
        Visit { board, cell: forced, single: true, changed: true }
    } else {
        Visit { board, cell: v.cell, single: v.single, changed: v.changed || board != v.board }
    }
}

/// The visit to the cell at `p`: its row, its column and its box in turn,
/// and then the cell takes the candidates that the visit arrived at.
pub open spec fn visit(g: Seq<Set<int>>, changed: bool, p: int) -> (Seq<Set<int>>, bool) {
    let arrival = Visit { board: g, cell: g[p], single: g[p].len() <= 1, changed };
    let after_row = unit_step(arrival, Unit::Row, p);
    let after_column = unit_step(after_row, Unit::Column, p);
    let after_box = unit_step(after_column, Unit::Block, p);
    (after_box.board.update(p, after_box.cell), after_box.changed)
}

/// The board after the visits to the first `n` cells, and whether any of
/// them changed it.
pub open spec fn sweep_upto(g: Seq<Set<int>>, n: nat) -> (Seq<Set<int>>, bool)
    decreases n,
{
    if n == 0 {
        (g, false)
    } else {
        let before = sweep_upto(g, (n - 1) as nat);
        visit(before.0, before.1, n - 1)
    }
}

/// One sweep over the whole board: the board after it, and whether it
/// changed any cell.
pub open spec fn sweep(g: Seq<Set<int>>) -> (Seq<Set<int>>, bool) {
    sweep_upto(g, 81)
}

} // verus!
