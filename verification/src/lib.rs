//! A verified 9x9 Sudoku library: board storage with row, column and block
//! views, a constraint checker that classifies groups and whole boards, a
//! backtracking solver, and a puzzle generator built on the solver.

pub mod checker;
pub mod generator;
pub mod grid;
mod rng;
pub mod solver;

use vstd::prelude::*;

verus! {

/// Errors returned by cell writes, grid construction and the generator.
#[derive(Clone, Copy, Debug, PartialEq, Eq, Structural)]
pub enum SudokuError {
    /// A cell write with a value outside `0..=9`.
    InvalidValue,
    /// Textual input whose shape or characters do not describe a 9x9 grid.
    MalformedGrid,
    /// Generator parameters outside the supported range, or a carving run
    /// that exhausted its attempt budget.
    InvalidConfiguration,
}

} // verus!
