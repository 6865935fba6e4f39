//! The error and the positional value that the whole crate shares.

use vstd::prelude::*;

verus! {

/// Everything that can go wrong while building, analysing or solving a grid.
#[derive(Debug, Clone, Copy, PartialEq, Eq, Structural)]
pub enum SudokuError {
    /// The side length is not a perfect square.
    InvalidSize,
    /// The rows of a matrix do not all have the length of the matrix.
    NotSquareMatrix,
    /// A row, column or box index lies outside the grid.
    OutOfBounds,
    /// A stored value is larger than the side length.
    ValueTooLarge,
    /// Some cell has no candidate left.
    Contradiction,
    /// A cell that is still open cannot be written as a number.
    Undetermined,
    /// The puzzle has been searched and no completion was found.
    NoSolutionFound,
}

/// What the functions of this crate return where they can fail.
pub type SudokuResult<T> = Result<T, SudokuError>;

/// A value together with the cell it belongs to.
#[derive(Debug, Clone, PartialEq)]
pub struct PositionalValue<T> {
    pub row: usize,
    pub col: usize,
    pub value: T,
}

} // verus!
