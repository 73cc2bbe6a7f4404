//! Sudoku solving by constraint propagation and backtracking search over
//! bitset candidate sets.
//!
//! A [`Cell`] is the set of digits that may still stand in one cell, and a
//! [`Grid`] is a board of 81 cells. [`solver::constrain`] sweeps the two
//! deduction rules over the board once, [`solver::propagate`] sweeps until
//! nothing changes, and [`solver::solve`] adds guessing and backtracking.
//!
//! The contracts speak of a cell as a `Set<int>` of digits and of a board
//! as a `Seq<Set<int>>`. What the rules do is written down in [`rules`],
//! what the search does in [`search`]; [`progress`] shows why both come to
//! an end, and [`solution`] what their results are worth.

mod bits;
pub mod cell;
pub mod digits;
pub mod events;
pub mod grid;
pub mod progress;
pub mod rules;
pub mod search;
pub mod solution;
pub mod solver;
pub mod text;
pub mod units;

pub use cell::Cell;
pub use events::Event;
pub use grid::Grid;
