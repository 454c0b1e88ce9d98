//! The used-value sink: an observer of every resolved field value.

use vstd::prelude::*;
use crate::layout::value::{views1, views2, DataValue, DataValueV};

verus! {

/// A value as recorded for the export report.
#[derive(Debug, Clone)]
pub enum ReportValue {
    Scalar(DataValue),
    Array(Vec<DataValue>),
    Table(Vec<Vec<DataValue>>),
    /// One bitmap sub-field: its position, width, optional name, and
    /// masked value. An unnamed part is a reserved entry.
    BitmapPart { start_bit: u8, bits: u8, name: Option<String>, value: u64 },
}

/// Spec-level image of a `ReportValue`.
pub enum ReportValueV {
    Scalar(DataValueV),
    Array(Seq<DataValueV>),
    Table(Seq<Seq<DataValueV>>),
    BitmapPart { start_bit: nat, bits: nat, name: Option<Seq<char>>, value: u64 },
}

impl View for ReportValue {
    type V = ReportValueV;

    open spec fn view(&self) -> ReportValueV {
        match self {
            ReportValue::Scalar(v) => ReportValueV::Scalar(v@),
            ReportValue::Array(a) => ReportValueV::Array(views1(a@)),
            ReportValue::Table(t) => ReportValueV::Table(views2(t@)),
            ReportValue::BitmapPart { start_bit, bits, name, value } => ReportValueV::BitmapPart {
                start_bit: *start_bit as nat,
                bits: *bits as nat,
                name: match name {
                    Some(n) => Some(n@),
                    None => None,
                },
                value: *value,
            },
        }
    }
}

/// The records a sink holds: dotted paths with the recorded values.
pub open spec fn sink_entries_model(es: Seq<(String, ReportValue)>) -> Seq<
    (Seq<char>, ReportValueV),
> {
    es.map_values(|p: (String, ReportValue)| (p.0@, p.1@))
}

/// Receives each resolved field value, keyed by the field's dotted path.
/// Bitmap sub-fields arrive one part at a time under the field's path,
/// reserved entries unnamed.
pub trait UsedValueSink {
    /// The records this sink holds, in arrival order.
    spec fn recorded(&self) -> Seq<(Seq<char>, ReportValueV)>;

    /// Whether this sink keeps what it is handed; fixed per sink.
    spec fn retains(&self) -> bool;

    /// Records one resolved value: a retaining sink appends it, a
    /// discarding sink keeps nothing.
    fn record(&mut self, path: &str, value: ReportValue)
        ensures
            final(self).recorded() == (if old(self).retains() {
                old(self).recorded().push((path@, value@))
            } else {
                old(self).recorded()
            }),
            final(self).retains() == old(self).retains(),
    ;
}

/// Discards every record.
pub struct NoopValueSink;

impl UsedValueSink for NoopValueSink {
    open spec fn recorded(&self) -> Seq<(Seq<char>, ReportValueV)> {
        Seq::empty()
    }

    open spec fn retains(&self) -> bool {
        false
    }

    fn record(&mut self, path: &str, value: ReportValue) {
    }
}

/// Keeps every record in arrival order.
pub struct RecordingSink {
    pub entries: Vec<(String, ReportValue)>,
}

impl RecordingSink {
    pub fn new() -> (s: RecordingSink)
        ensures
            s.entries@.len() == 0,
            s.recorded() == Seq::<(Seq<char>, ReportValueV)>::empty(),
    {
        let s = RecordingSink { entries: Vec::new() };
        proof {
            assert(s.recorded() =~= Seq::<(Seq<char>, ReportValueV)>::empty());
        }
        s
    }
}

impl UsedValueSink for RecordingSink {
    open spec fn recorded(&self) -> Seq<(Seq<char>, ReportValueV)> {
        sink_entries_model(self.entries@)
    }

    open spec fn retains(&self) -> bool {
        true
    }

    fn record(&mut self, path: &str, value: ReportValue) {
        let ghost pre = self.entries@;
        self.entries.push((path.to_owned(), value));
        proof {
            assert(sink_entries_model(self.entries@) =~= sink_entries_model(pre).push(
                (self.entries@.last().0@, self.entries@.last().1@),
            ));
        }
    }
}

} // verus!
