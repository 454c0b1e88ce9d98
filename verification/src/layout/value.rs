//! The tagged scalar value model shared by data sources and the encoder.

use vstd::prelude::*;

verus! {

/// A typed scalar value: the unit of data handed from data sources and
/// inline layout entries to the field encoder.
///
/// Floating-point content is held as an IEEE-754 binary64 bit pattern;
/// its numeric reading is defined in `crate::layout::floatbits`. The
/// encoder works on the bits alone.
#[derive(Debug, Clone)]
pub enum DataValue {
    U64(u64),
    I64(i64),
    F64(u64),
    Bool(bool),
    Str(String),
}

/// Spec-level image of a `DataValue`.
pub enum DataValueV {
    U64(u64),
    I64(i64),
    F64(u64),
    Bool(bool),
    Str(Seq<char>),
}

impl View for DataValue {
    type V = DataValueV;

    open spec fn view(&self) -> DataValueV {
        match self {
            DataValue::U64(v) => DataValueV::U64(*v),
            DataValue::I64(v) => DataValueV::I64(*v),
            DataValue::F64(b) => DataValueV::F64(*b),
            DataValue::Bool(v) => DataValueV::Bool(*v),
            DataValue::Str(s) => DataValueV::Str(s@),
        }
    }
}

/// What a 1D lookup yields: a lone scalar (often a literal string) or an
/// ordered array of scalars.
#[derive(Debug, Clone)]
pub enum ValueSource {
    Single(DataValue),
    Array(Vec<DataValue>),
}

/// The views of a sequence of values.
pub open spec fn views1(a: Seq<DataValue>) -> Seq<DataValueV> {
    a.map_values(|d: DataValue| d@)
}

/// The views of a table of values.
pub open spec fn views2(t: Seq<Vec<DataValue>>) -> Seq<Seq<DataValueV>> {
    t.map_values(|row: Vec<DataValue>| views1(row@))
}

/// Spec-level image of a `ValueSource`.
pub enum ValueSourceV {
    Single(DataValueV),
    Array(Seq<DataValueV>),
}

impl View for ValueSource {
    type V = ValueSourceV;

    open spec fn view(&self) -> ValueSourceV {
        match self {
            ValueSource::Single(v) => ValueSourceV::Single(v@),
            ValueSource::Array(a) => ValueSourceV::Array(views1(a@)),
        }
    }
}

} // verus!
