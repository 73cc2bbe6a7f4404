//! The board: 81 candidate sets in row-major order.

use crate::cell::Cell;
use crate::digits::{all_digits, digit_set, lemma_literal_size, literal};
use crate::text::{decimal, decimal_string};
use vstd::prelude::*;

verus! {

/// A 9 by 9 board of candidate sets. Cell `(x, y)` stands at index
/// `x + 9 * y`.
#[derive(Clone, Copy, Debug, PartialEq, Eq)]
pub struct Grid {
    cells: [Cell; 81],
}

impl View for Grid {
    type V = Seq<Set<int>>;

    /// The candidate sets of the 81 cells, in row-major order.
    closed spec fn view(&self) -> Seq<Set<int>> {
        Seq::new(81, |i: int| self.cells[i]@)
    }
}

/// Whether `g` is a board: 81 sets of digits.
pub open spec fn is_board(g: Seq<Set<int>>) -> bool {
    &&& g.len() == 81
    &&& forall|i: int| 0 <= i < 81 ==> (#[trigger] g[i]).subset_of(all_digits())
}

/// Whether every cell of `g` has a candidate left.
pub open spec fn all_solvable(g: Seq<Set<int>>) -> bool {
    forall|i: int| 0 <= i < g.len() ==> (#[trigger] g[i]).len() >= 1
}

/// Whether every cell of `g` has exactly one candidate left.
pub open spec fn all_solved(g: Seq<Set<int>>) -> bool {
    forall|i: int| 0 <= i < g.len() ==> (#[trigger] g[i]).len() == 1
}

/// Whether `r` names the cell to branch on: the first of the cells that have
/// the fewest candidates among those with two or more, or the length of `g`
/// when no cell has two or more.
pub open spec fn is_simplest_unsolved(g: Seq<Set<int>>, r: int) -> bool {
    if forall|i: int| 0 <= i < g.len() ==> (#[trigger] g[i]).len() <= 1 {
        r == g.len()
    } else {
        &&& 0 <= r < g.len()
        &&& g[r].len() >= 2
        &&& forall|j: int| 0 <= j < g.len() && (#[trigger] g[j]).len() >= 2 ==> g[r].len() <= g[j].len()
        &&& forall|j: int| 0 <= j < r && (#[trigger] g[j]).len() >= 2 ==> g[r].len() < g[j].len()
    }
}

/// The cell to branch on among the first `n` cells of `g`, found by going
/// through them in order: the first with the fewest candidates among those
/// with two or more, or the length of `g` when there is none.
pub open spec fn simplest_upto(g: Seq<Set<int>>, n: nat) -> int
    decreases n,
{
    if n == 0 {
        g.len() as int
    } else {
        let r = simplest_upto(g, (n - 1) as nat);
        if g[n - 1].len() >= 2 && (r == g.len() || g[n - 1].len() < g[r].len()) {
            n - 1
        } else {
            r
        }
    }
}

/// The cell of `g` to branch on, or the length of `g` when no cell has two
/// or more candidates.
pub open spec fn simplest_unsolved(g: Seq<Set<int>>) -> int {
    simplest_upto(g, g.len())
}

/// What going through the first `n` cells finds.
proof fn lemma_simplest_upto(g: Seq<Set<int>>, n: nat)
    requires
        n <= g.len(),
    ensures
        ({
            let r = simplest_upto(g, n);
            &&& r == g.len() || 0 <= r < n
            &&& r == g.len() ==> forall|j: int| 0 <= j < n ==> (#[trigger] g[j]).len() <= 1
            &&& r < g.len() ==> g[r].len() >= 2
            &&& r < g.len() ==> forall|j: int|
                0 <= j < n && (#[trigger] g[j]).len() >= 2 ==> g[r].len() <= g[j].len()
            &&& r < g.len() ==> forall|j: int|
                0 <= j < r && (#[trigger] g[j]).len() >= 2 ==> g[r].len() < g[j].len()
        }),
    decreases n,
{
    if n > 0 {
        lemma_simplest_upto(g, (n - 1) as nat);
    }
}

/// Going through the cells in order finds the cell to branch on, and there
/// is no other.
pub proof fn lemma_simplest_unsolved(g: Seq<Set<int>>, r: int)
    ensures
        is_simplest_unsolved(g, simplest_unsolved(g)),
        is_simplest_unsolved(g, r) ==> r == simplest_unsolved(g),
{
    lemma_simplest_upto(g, g.len());
    let s = simplest_unsolved(g);
    if s < g.len() {
        assert(!(g[s].len() <= 1));
    }
    if is_simplest_unsolved(g, r) && r != s {
        if forall|i: int| 0 <= i < g.len() ==> (#[trigger] g[i]).len() <= 1 {
        } else {
            assert(g[r].len() <= g[s].len());
            assert(g[s].len() <= g[r].len());
        }
    }
}

/// On a board with one candidate in every cell, every cell has a candidate
/// and there is no cell to branch on.
pub proof fn lemma_solved_board(g: Seq<Set<int>>)
    requires
        all_solved(g),
    ensures
        all_solvable(g),
        simplest_unsolved(g) == g.len(),
{
    lemma_simplest_unsolved(g, g.len() as int);
}

/// With two or more candidates in one cell of a board that has one in every
/// other, the board is not solved, and that cell is the one to branch on.
pub proof fn lemma_open_cell(g: Seq<Set<int>>, i: int, s: Set<int>)
    requires
        all_solved(g),
        0 <= i < g.len(),
        s.len() >= 2,
    ensures
        !all_solved(g.update(i, s)),
        simplest_unsolved(g.update(i, s)) == i,
{
    let h = g.update(i, s);
    assert(h[i].len() != 1);
    assert(!(h[i].len() <= 1));
    assert forall|j: int| 0 <= j < h.len() && j != i implies (#[trigger] h[j]).len() == 1 by {
        assert(h[j] == g[j]);
    }
    assert(is_simplest_unsolved(h, i));
    lemma_simplest_unsolved(h, i);
}

/// With no candidate in one of its cells, a board is not solvable.
pub proof fn lemma_empty_cell(g: Seq<Set<int>>, i: int)
    requires
        0 <= i < g.len(),
    ensures
        !all_solvable(g.update(i, Set::empty())),
{
    let h = g.update(i, Set::<int>::empty());
    assert(h[i].len() == 0);
}

/// What is written before cell `i`: nothing before the first cell, a line
/// break before each further row, with a rule above every third row, and a
/// space before each further cell of a row, with a bar before every third.
pub open spec fn separator(i: int) -> Seq<char> {
    if i <= 0 {
        Seq::empty()
    } else if i % 9 == 0 {
        if i % 27 == 0 {
            "\n"@ + "------+------+------\n"@
        } else {
            "\n"@
        }
    } else if i % 3 == 0 {
        " "@ + "|"@
    } else {
        " "@
    }
}

/// What is written for a cell: its digit, `0` when it has no candidate, and
/// `_` when it has two or more.
pub open spec fn glyph(s: Set<int>) -> Seq<char> {
    if s.len() <= 1 {
        decimal(literal(s, 9))
    } else {
        "_"@
    }
}

/// The text of the first `n` cells of `g`.
pub open spec fn render(g: Seq<Set<int>>, n: nat) -> Seq<char>
    decreases n,
{
    if n == 0 {
        Seq::empty()
    } else {
        render(g, (n - 1) as nat) + separator(n - 1) + glyph(g[n - 1])
    }
}

impl Grid {
    /// The number of cells in a row.
    pub const WIDTH: usize = 9;

    /// The number of cells in a column.
    pub const HEIGHT: usize = 9;

    /// The number of cells on the board.
    pub const SIZE: usize = 81;

    /// The view of a grid is a board.
    pub proof fn lemma_view(&self)
        ensures
            is_board(self@),
    {
        assert forall|i: int| 0 <= i < 81 implies (#[trigger] self@[i]).subset_of(all_digits()) by {
            self.cells[i].lemma_view();
        }
    }

    /// The board whose cell `i` holds the digits of the literal `values[i]`.
    pub fn new(values: &[u32; 81]) -> (g: Grid)
        ensures
            g@.len() == 81,
            forall|i: int| 0 <= i < 81 ==> g@[i] == digit_set(values[i] as nat),
    {
        let mut cells = [Cell::new(0);81];
        let mut i: usize = 0;
        while i < 81
            invariant
                i <= 81,
                forall|j: int| 0 <= j < i ==> (#[trigger] cells[j])@ == digit_set(values[j] as nat),
            decreases 81 - i,
        {
            cells[i] = Cell::new(values[i]);
            i += 1;
        }
        Grid { cells }
    }

    /// The cell at index `i`, for reading and writing.
    pub fn at_index(&mut self, i: usize) -> (cell: &mut Cell)
        requires
            i < 81,
        ensures
            cell@ == old(self)@[i as int],
            final(self)@ == old(self)@.update(i as int, final(cell)@),
    {
        &mut self.cells[i]
    }

    /// The cell in column `x` of row `y`, for reading and writing.
    pub fn at_position(&mut self, x: usize, y: usize) -> (cell: &mut Cell)
        requires
            x + y * 9 < 81,
        ensures
            cell@ == old(self)@[x + y * 9],
            final(self)@ == old(self)@.update(x + y * 9, final(cell)@),
    {
        &mut self.cells[x + y * Grid::HEIGHT]
    }

    /// Whether every cell has a candidate left.
    pub fn solvable(&self) -> (b: bool)
        ensures
            b == all_solvable(self@),
    {
        let mut i: usize = 0;
        while i < 81
            invariant
                i <= 81,
                forall|j: int| 0 <= j < i ==> (#[trigger] self@[j]).len() >= 1,
            decreases 81 - i,
        {
            if !self.cells[i].solvable() {
                assert(self@[i as int].len() < 1);
                return false;
            }
            i += 1;
        }
        true
    }

    /// Whether every cell has exactly one candidate left.
    pub fn solved(&self) -> (b: bool)
        ensures
            b == all_solved(self@),
    {
        let mut i: usize = 0;
        while i < 81
            invariant
                i <= 81,
                forall|j: int| 0 <= j < i ==> (#[trigger] self@[j]).len() == 1,
            decreases 81 - i,
        {
            if !self.cells[i].solved() {
                assert(self@[i as int].len() != 1);
                return false;
            }
            i += 1;
        }
        true
    }

    /// The index of the cell to branch on: the first of the cells with the
    /// fewest candidates among those with two or more, or `Grid::SIZE` when
    /// every cell has at most one candidate.
    pub fn simplest_unsolved_cell_index(&self) -> (r: usize)
        ensures
            r == simplest_unsolved(self@),
            is_simplest_unsolved(self@, r as int),
            r <= 81,
    {
        let mut guess: usize = Grid::SIZE;
        let mut guess_count: u32 = 10;
        let mut i: usize = 0;
        while i < 81
            invariant
                i <= 81,
                guess == 81 || guess < i,
                guess == 81 ==> guess_count == 10 && forall|j: int|
                    0 <= j < i ==> (#[trigger] self@[j]).len() <= 1,
                guess < 81 ==> self@[guess as int].len() == guess_count && guess_count >= 3,
                forall|j: int|
                    0 <= j < i && (#[trigger] self@[j]).len() >= 2 ==> guess_count <= self@[j].len(),
                forall|j: int|
                    0 <= j < guess && j < i && (#[trigger] self@[j]).len() >= 2 ==> guess_count
                        < self@[j].len(),
            decreases 81 - i,
        {
            let count: u32 = self.cells[i].count();
            proof {
                assert(self@[i as int].len() == count);
                self.cells[i as int].lemma_view();
            }
            if count >= 2 && count < guess_count {
                if 2 == count {
                    proof {
                        assert(!(self@[i as int].len() <= 1));
                        lemma_simplest_unsolved(self@, i as int);
                    }
                    return i;
                }
                guess_count = count;
                guess = i;
            }
            i += 1;
        }
        proof {
            if guess < 81 {
                assert(!(self@[guess as int].len() <= 1));
            }
            lemma_simplest_unsolved(self@, guess as int);
        }
        guess
    }

    /// The board as text: nine lines of nine cells, the boxes set apart by
    /// bars and rules, with no line break at the end.
    pub fn to_string(&self) -> (s: String)
        ensures
            s@ == render(self@, 81),
    {
        let mut s = String::new();
        let mut i: usize = 0;
        while i < 81
            invariant
                i <= 81,
                s@ == render(self@, i as nat),
            decreases 81 - i,
        {
            let ghost before = s@;
            if i > 0 {
                if 0 == i % 9 {
                    s.append("\n");
                    if 0 == i % 27 {
                        s.append("------+------+------\n");
                    }
                } else {
                    s.append(" ");
                    if 0 == i % 3 {
                        s.append("|");
                    }
                }
            }
            proof {
                assert(s@ =~= before + separator(i as int));
            }
            let value: u32 = self.cells[i].values();
            if value < 10 {
                let t = decimal_string(value);
                s.append(t.as_str());
            } else {
                s.append("_");
            }
            proof {
                assert(self@[i as int] == self.cells[i as int]@);
                self.cells[i as int].lemma_view();
                lemma_literal_size(self@[i as int]);
                assert(s@ =~= before + separator(i as int) + glyph(self@[i as int]));
            }
            i += 1;
        }
        s
    }
}

} // verus!
