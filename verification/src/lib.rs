//! Tectonic (also known as Suguru) puzzles: a grid cut into irregular zones,
//! where a zone of `n` cells holds each of the digits `1..=n` once and no digit
//! touches itself, not even diagonally.
//!
//! [`Grid`] builds a puzzle, cell by cell or from a text, and [`Solver`]
//! solves it one step at a time: each step checks the grid for a
//! contradiction and then lets the first propagation rule that applies fire
//! once, or tries a candidate on a copy of the grid where no rule applies.
//!
//! Every function is verified against a contract stated over the views of
//! these types. The modules `consistency`, `rules` and `solver` say what the
//! check, the rules and a step compute; `soundness` proves what every step
//! keeps of the grid, and `solutions` that solving excludes no solution of
//! a puzzle that has exactly one.
pub mod action;
pub mod consistency;
pub mod grid;
pub mod line_column;
pub mod neighboring_line_columns;
pub mod parse;
pub mod rules;
pub mod search;
pub mod simple_09_set;
pub mod solutions;
pub mod solver;
pub mod soundness;

pub use action::{DifficultyLevel, SolvingAction, SolvingError};
pub use grid::{Cell, CellContent, Grid, Zone};
pub use line_column::LineColumn;
pub use neighboring_line_columns::NeighboringLineColumns;
pub use parse::{parse_grid, ParseGridError};
pub use simple_09_set::Simple09Set;
pub use solver::{Solver, SolvingOption};
