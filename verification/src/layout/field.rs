//! The field descriptors of a block layout.

use vstd::prelude::*;
use crate::layout::convert::NumType;
use crate::layout::value::DataValue;

verus! {

/// A `size` / `SIZE` dimension: a 1D element count or rows x columns.
#[derive(Debug, Clone, Copy, PartialEq, Eq, Structural)]
pub enum SizeDim {
    One(usize),
    Two(usize, usize),
}

/// An inline field value from the layout file.
#[derive(Debug, Clone)]
pub enum FieldValue {
    Scalar(DataValue),
    Array(Vec<DataValue>),
    Table(Vec<Vec<DataValue>>),
}

/// One sub-field of a bitmap: a bit count, and either a data-source name
/// or an inline value. An entry with neither is reserved (zero).
#[derive(Debug, Clone)]
pub struct BitmapEntry {
    pub bits: u8,
    pub name: Option<String>,
    pub value: Option<u64>,
}

/// A typed slot of a block's payload.
///
/// Exactly one of `value` (inline) and `name` (data-source key) must be
/// present, except on a bitmap field, whose named sub-entries resolve
/// individually. `size` is an upper bound padded with zero elements;
/// `size_exact` (the layout's uppercase `SIZE`) must be met exactly.
#[derive(Debug, Clone)]
pub struct Field {
    pub name: Option<String>,
    pub value: Option<FieldValue>,
    pub ty: NumType,
    pub size: Option<SizeDim>,
    pub size_exact: Option<SizeDim>,
    pub bitmap: Option<Vec<BitmapEntry>>,
}

impl Field {
    /// A scalar field with an inline value.
    pub fn inline_scalar(v: DataValue, ty: NumType) -> (f: Field)
        ensures
            f == (Field {
                name: None::<String>,
                value: Some(FieldValue::Scalar(v)),
                ty,
                size: None::<SizeDim>,
                size_exact: None::<SizeDim>,
                bitmap: None::<Vec<BitmapEntry>>,
            }),
    {
        Field { name: None, value: Some(FieldValue::Scalar(v)), ty, size: None, size_exact: None, bitmap: None }
    }

    /// An array field with an inline value and a lower-bound size.
    pub fn inline_array(v: Vec<DataValue>, ty: NumType, size: Option<SizeDim>) -> (f: Field)
        ensures
            f == (Field {
                name: None::<String>,
                value: Some(FieldValue::Array(v)),
                ty,
                size,
                size_exact: None::<SizeDim>,
                bitmap: None::<Vec<BitmapEntry>>,
            }),
    {
        Field { name: None, value: Some(FieldValue::Array(v)), ty, size, size_exact: None, bitmap: None }
    }

    /// A field resolved through the data source.
    pub fn named(name: String, ty: NumType, size: Option<SizeDim>) -> (f: Field)
        ensures
            f == (Field {
                name: Some(name),
                value: None::<FieldValue>,
                ty,
                size,
                size_exact: None::<SizeDim>,
                bitmap: None::<Vec<BitmapEntry>>,
            }),
    {
        Field { name: Some(name), value: None, ty, size, size_exact: None, bitmap: None }
    }
}

} // verus!
