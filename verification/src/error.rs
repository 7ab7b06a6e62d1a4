//! The errors that operators report.
use vstd::prelude::*;

verus! {

/// What can go wrong while a query runs.
#[derive(Debug, PartialEq, Eq)]
pub enum CrustyError {
    /// Arithmetic was asked of a value that is not a number.
    TypeMismatch,
    /// A number does not fit the machine integers that hold it.
    Overflow,
    /// A number was divided by nought.
    DivisionByZero,
    /// An operator could not do its work, for the reason given.
    ExecutionError(String),
}

} // verus!
