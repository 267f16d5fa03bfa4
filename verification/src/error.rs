//! The errors that the model reports to its callers.

use crate::assignment::AssignmentError;
use crate::column::ColumnError;
use vstd::prelude::*;

verus! {

/// An error that was found while a value was read; the field is what was
/// found.
#[derive(Debug, PartialEq, Eq)]
pub struct ParseError<T>(pub T);

/// Why a view, a state or a query refused its input.
#[derive(Debug, Clone, Copy, PartialEq, Eq, Structural)]
pub enum ModelError {
    /// The row index is not below the number of rows.
    RowOutOfBounds,
    /// The category is neither an existing one nor the next new one.
    CategoryOutOfBounds,
    /// No column has this identifier.
    UnknownColumn,
    /// The view index is neither an existing one nor the next new one.
    ViewOutOfBounds,
    /// The state index is not below the number of states.
    StateOutOfBounds,
    /// A column, a row or a table has another length than the model asks.
    LengthMismatch,
    /// A value is not below its column's cardinality.
    ValueOutOfRange,
    /// A column with this identifier is already held.
    DuplicateColumn,
    /// The labels of a partition skip a category, or its sizes are wrong.
    InvalidPartition,
    /// A column is both asked for and conditioned on.
    OverlappingContext,
    /// The ensemble holds no state.
    EmptyEnsemble,
}

/// The model's error for an error of a partition of rows.
pub open spec fn row_error(e: AssignmentError) -> ModelError {
    match e {
        AssignmentError::ItemOutOfBounds => ModelError::RowOutOfBounds,
        AssignmentError::CategoryOutOfBounds => ModelError::CategoryOutOfBounds,
        AssignmentError::EmptyCategory => ModelError::InvalidPartition,
    }
}

/// The model's error for an error of a column.
pub open spec fn cell_error(e: ColumnError) -> ModelError {
    match e {
        ColumnError::ValueOutOfRange => ModelError::ValueOutOfRange,
        ColumnError::LengthMismatch => ModelError::LengthMismatch,
        ColumnError::RowOutOfBounds => ModelError::RowOutOfBounds,
        ColumnError::CategoryOutOfBounds => ModelError::CategoryOutOfBounds,
    }
}

impl ModelError {
    /// The model's error for an error of a partition of rows.
    pub fn of_rows(e: AssignmentError) -> (m: ModelError)
        ensures
            m == row_error(e),
    {
        match e {
            AssignmentError::ItemOutOfBounds => ModelError::RowOutOfBounds,
            AssignmentError::CategoryOutOfBounds => ModelError::CategoryOutOfBounds,
            AssignmentError::EmptyCategory => ModelError::InvalidPartition,
        }
    }

    /// The model's error for an error of a column.
    pub fn of_cell(e: ColumnError) -> (m: ModelError)
        ensures
            m == cell_error(e),
    {
        match e {
            ColumnError::ValueOutOfRange => ModelError::ValueOutOfRange,
            ColumnError::LengthMismatch => ModelError::LengthMismatch,
            ColumnError::RowOutOfBounds => ModelError::RowOutOfBounds,
            ColumnError::CategoryOutOfBounds => ModelError::CategoryOutOfBounds,
        }
    }
}

} // verus!
