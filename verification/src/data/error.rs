//! Errors raised by data sources.

use vstd::prelude::*;

verus! {

/// A failed lookup or construction of a data source.
#[derive(Debug, Clone)]
pub enum DataError {
    /// No version in the stack contains the key.
    NameNotFound(String),
    /// No configured version exists in the source, or the version list
    /// is empty after trimming.
    MissingVersion,
    /// The value found does not have the requested shape (e.g. a 2D
    /// lookup of a scalar).
    WrongShape(String),
}

/// The variant of a `DataError`, for contracts.
#[derive(Clone, Copy, Debug, PartialEq, Eq, Structural)]
pub enum DataErrKind {
    NameNotFound,
    MissingVersion,
    WrongShape,
}

pub open spec fn data_err_kind(e: DataError) -> DataErrKind {
    match e {
        DataError::NameNotFound(_) => DataErrKind::NameNotFound,
        DataError::MissingVersion => DataErrKind::MissingVersion,
        DataError::WrongShape(_) => DataErrKind::WrongShape,
    }
}

} // verus!
