//! The build-side error taxonomy.

use vstd::prelude::*;
use crate::data::error::{data_err_kind, DataErrKind, DataError};

verus! {

/// Why a block failed to build. Each variant carries the dotted field
/// path it arose at, where one applies.
#[derive(Debug, Clone)]
pub enum LayoutError {
    /// A field names a data-source key but no source is configured.
    MissingDataSource { field: String },
    /// A string value reached a numeric slot.
    TypeMismatch { field: String },
    /// Strict mode refused a value-changing conversion.
    LossyConversion { field: String },
    /// The resolved element count does not meet `size` / `SIZE`.
    SizeMismatch { field: String, expected: usize, actual: usize },
    /// Both `size` and `SIZE` are given on one field.
    DuplicateSizeSpec { field: String },
    /// Bitmap sub-field bits do not sum to the type's bit width.
    BitmapWidthMismatch { field: String },
    /// The fields total more than the block length.
    BlockOverflow,
    /// The CRC slot falls outside the block.
    CrcRangeInvalid,
    /// A data-source lookup failed.
    Data { field: String, source: DataError },
}

/// The spec-level image of a `LayoutError`: the variant with the field
/// path and, for a size violation, the expected and actual counts.
pub enum ErrKind {
    MissingDataSource { field: Seq<char> },
    TypeMismatch { field: Seq<char> },
    LossyConversion { field: Seq<char> },
    SizeMismatch { field: Seq<char>, expected: nat, actual: nat },
    DuplicateSizeSpec { field: Seq<char> },
    BitmapWidthMismatch { field: Seq<char> },
    BlockOverflow,
    CrcRangeInvalid,
    Data { field: Seq<char>, kind: DataErrKind },
}

pub open spec fn layout_err_kind(e: LayoutError) -> ErrKind {
    match e {
        LayoutError::MissingDataSource { field } => ErrKind::MissingDataSource { field: field@ },
        LayoutError::TypeMismatch { field } => ErrKind::TypeMismatch { field: field@ },
        LayoutError::LossyConversion { field } => ErrKind::LossyConversion { field: field@ },
        LayoutError::SizeMismatch { field, expected, actual } => ErrKind::SizeMismatch {
            field: field@,
            expected: expected as nat,
            actual: actual as nat,
        },
        LayoutError::DuplicateSizeSpec { field } => ErrKind::DuplicateSizeSpec { field: field@ },
        LayoutError::BitmapWidthMismatch { field } => ErrKind::BitmapWidthMismatch {
            field: field@,
        },
        LayoutError::BlockOverflow => ErrKind::BlockOverflow,
        LayoutError::CrcRangeInvalid => ErrKind::CrcRangeInvalid,
        LayoutError::Data { field, source } => ErrKind::Data {
            field: field@,
            kind: data_err_kind(source),
        },
    }
}

impl LayoutError {
    /// A fixed diagnostic phrase for the error.
    pub fn message(&self) -> (m: &'static str)
        ensures
            self matches LayoutError::SizeMismatch { expected, actual, .. } ==> m@ == (if *actual
                < *expected {
                "data is smaller than defined size"@
            } else {
                "data is larger than defined size"@
            }),
            self is DuplicateSizeSpec ==> m@ == "Use either 'size' or 'SIZE', not both"@,
            self is MissingDataSource ==> m@ == "field requires a value from a data source"@,
    {
        match self {
            LayoutError::MissingDataSource { .. } => "field requires a value from a data source",
            LayoutError::TypeMismatch { .. } => "string value where a number is expected",
            LayoutError::LossyConversion { .. } => "conversion would change the value",
            LayoutError::SizeMismatch { expected, actual, .. } => {
                if *actual < *expected {
                    "data is smaller than defined size"
                } else {
                    "data is larger than defined size"
                }
            },
            LayoutError::DuplicateSizeSpec { .. } => "Use either 'size' or 'SIZE', not both",
            LayoutError::BitmapWidthMismatch { .. } => "bitmap bits do not sum to the type width",
            LayoutError::BlockOverflow => "fields exceed the block length",
            LayoutError::CrcRangeInvalid => "CRC slot falls outside the block",
            LayoutError::Data { .. } => "data source lookup failed",
        }
    }
}

} // verus!
