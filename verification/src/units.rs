//! The geometry of the board: rows, columns and 3 by 3 boxes.
//!
//! Every cell belongs to one row, one column and one box; each of these
//! units has nine cells, numbered by their slot from 0 to 8.

use vstd::arithmetic::div_mod::lemma_fundamental_div_mod_converse;
use vstd::prelude::*;

verus! {

/// The three kinds of unit, in the order in which the rules take them.
#[derive(Clone, Copy, Debug, PartialEq, Eq, Structural)]
pub enum Unit {
    /// The nine cells of a row.
    Row,
    /// The nine cells of a column.
    Column,
    /// The nine cells of a 3 by 3 box.
    Block,
}

/// The row of the cell at index `p`.
pub open spec fn row_of(p: int) -> int {
    p / 9
}

/// The column of the cell at index `p`.
pub open spec fn column_of(p: int) -> int {
    p % 9
}

/// Whether the cells at `p` and `q` lie in the same unit of kind `u`.
pub open spec fn same_unit(u: Unit, p: int, q: int) -> bool {
    match u {
        Unit::Row => row_of(p) == row_of(q),
        Unit::Column => column_of(p) == column_of(q),
        Unit::Block => row_of(p) / 3 == row_of(q) / 3 && column_of(p) / 3 == column_of(q) / 3,
    }
}

/// Whether `q` is a peer of `p` in the unit of kind `u`: another cell of the
/// board in the same unit.
pub open spec fn is_peer(u: Unit, p: int, q: int) -> bool {
    0 <= q < 81 && q != p && same_unit(u, p, q)
}

/// The slot of the cell at `q` within its unit of kind `u`.
pub open spec fn slot(u: Unit, q: int) -> int {
    match u {
        Unit::Row => column_of(q),
        Unit::Column => row_of(q),
        Unit::Block => 3 * (row_of(q) % 3) + column_of(q) % 3,
    }
}

/// The index of the cell in slot `k` of the unit of kind `u` that holds the
/// cell at `p`.
pub open spec fn member(u: Unit, p: int, k: int) -> int {
    match u {
        Unit::Row => 9 * row_of(p) + k,
        Unit::Column => 9 * k + column_of(p),
        Unit::Block => 9 * (3 * (row_of(p) / 3) + k / 3) + 3 * (column_of(p) / 3) + k % 3,
    }
}

/// The cell in a slot of the unit of `p` lies on the board, in that unit and
/// in that slot.
pub proof fn lemma_member(u: Unit, p: int, k: int)
    requires
        0 <= p < 81,
        0 <= k < 9,
    ensures
        0 <= member(u, p, k) < 81,
        same_unit(u, p, member(u, p, k)),
        slot(u, member(u, p, k)) == k,
{
    let q = member(u, p, k);
    match u {
        Unit::Row => {
            lemma_fundamental_div_mod_converse(q, 9, row_of(p), k);
        },
        Unit::Column => {
            lemma_fundamental_div_mod_converse(q, 9, k, column_of(p));
        },
        Unit::Block => {
            let a = row_of(p) / 3;
            let b = column_of(p) / 3;
            lemma_fundamental_div_mod_converse(q, 9, 3 * a + k / 3, 3 * b + k % 3);
            lemma_fundamental_div_mod_converse(row_of(q), 3, a, k / 3);
            lemma_fundamental_div_mod_converse(column_of(q), 3, b, k % 3);
        },
    }
}

/// A cell of the unit of `p` is the member in its own slot.
pub proof fn lemma_slot(u: Unit, p: int, q: int)
    requires
        0 <= p < 81,
        0 <= q < 81,
        same_unit(u, p, q),
    ensures
        0 <= slot(u, q) < 9,
        member(u, p, slot(u, q)) == q,
{
}

/// The index of the cell in slot `k` of the unit of kind `u` that holds the
/// cell at `p`.
pub fn member_index(u: Unit, p: usize, k: usize) -> (q: usize)
    requires
        p < 81,
        k < 9,
    ensures
        q == member(u, p as int, k as int),
        q < 81,
{
    proof {
        lemma_member(u, p as int, k as int);
    }
    let x: usize = p % 9;
    let y: usize = p / 9;
    match u {
        Unit::Row => k + 9 * y,
        Unit::Column => x + 9 * k,
        Unit::Block => {
            let tile_x: usize = 3 * (x / 3);
            let tile_y: usize = 3 * (y / 3);
            (tile_x + k % 3) + 9 * (tile_y + k / 3)
        },
    }
}

} // verus!
