//! Data sources: named, version-stacked value providers.

pub mod args;
pub mod error;
pub mod source;
pub mod tokenize;

use vstd::prelude::*;
use crate::layout::value::{views2, DataValue, DataValueV, ValueSource, ValueSourceV};
use error::{data_err_kind, DataErrKind, DataError};

verus! {

/// An exec lookup result agrees with its spec-level counterpart: same
/// success or failure, same value view, same error kind.
pub open spec fn single_matches(
    r: Result<DataValue, DataError>,
    s: Result<DataValueV, DataErrKind>,
) -> bool {
    match (r, s) {
        (Ok(v), Ok(sv)) => v@ == sv,
        (Err(e), Err(k)) => data_err_kind(e) == k,
        _ => false,
    }
}

pub open spec fn source1d_matches(
    r: Result<ValueSource, DataError>,
    s: Result<ValueSourceV, DataErrKind>,
) -> bool {
    match (r, s) {
        (Ok(v), Ok(sv)) => v@ == sv,
        (Err(e), Err(k)) => data_err_kind(e) == k,
        _ => false,
    }
}

pub open spec fn table2d_matches(
    r: Result<Vec<Vec<DataValue>>, DataError>,
    s: Result<Seq<Seq<DataValueV>>, DataErrKind>,
) -> bool {
    match (r, s) {
        (Ok(v), Ok(sv)) => views2(v@) == sv,
        (Err(e), Err(k)) => data_err_kind(e) == k,
        _ => false,
    }
}

/// The backend kind a data-source flag selects.
#[derive(Clone, Copy, Debug, PartialEq, Eq, Structural)]
pub enum SourceKind {
    Xlsx,
    Postgres,
    Http,
    Json,
}

/// Which backend to load and with what configuration. Loading itself
/// (files, network, databases) is the caller's work; the decision is
/// made here.
#[derive(Debug, Clone)]
pub struct SourceSelection {
    pub kind: SourceKind,
    pub config: String,
    pub main_sheet: Option<String>,
    pub versions: Vec<String>,
}

/// Decides which configured data source to use: `xlsx` wins over
/// `postgres`, then `http`, then `json`; none configured gives `None`.
/// The version stack comes from `get_version_list`.
pub fn create_data_source(args: &args::DataArgs) -> (r: Result<Option<SourceSelection>, DataError>)
    ensures
        match r {
            Ok(sel) => match sel {
                None => args.xlsx is None && args.postgres is None && args.http is None
                    && args.json is None,
                Some(s) => {
                    &&& args::string_views(s.versions@) == (match args.versions {
                        Some(raw) => args::version_list_spec(raw@),
                        None => Seq::<Seq<char>>::empty(),
                    })
                    &&& (match s.main_sheet {
                        Some(m) => args.main_sheet matches Some(am) && am@ == m@,
                        None => args.main_sheet is None,
                    })
                    &&& (match args.xlsx {
                        Some(c) => s.kind == SourceKind::Xlsx && s.config@ == c@,
                        None => match args.postgres {
                            Some(c) => s.kind == SourceKind::Postgres && s.config@ == c@,
                            None => match args.http {
                                Some(c) => s.kind == SourceKind::Http && s.config@ == c@,
                                None => args.json matches Some(c) && s.kind == SourceKind::Json
                                    && s.config@ == c@,
                            },
                        },
                    })
                },
            },
            Err(_) => false,
        },
{
    let versions = args.get_version_list();
    let main_sheet: Option<String> = match &args.main_sheet {
        Some(m) => Some(m.clone()),
        None => None,
    };
    match (&args.xlsx, &args.postgres, &args.http, &args.json) {
        (Some(c), _, _, _) => Ok(
            Some(
                SourceSelection { kind: SourceKind::Xlsx, config: c.clone(), main_sheet, versions },
            ),
        ),
        (_, Some(c), _, _) => Ok(
            Some(
                SourceSelection {
                    kind: SourceKind::Postgres,
                    config: c.clone(),
                    main_sheet,
                    versions,
                },
            ),
        ),
        (_, _, Some(c), _) => Ok(
            Some(
                SourceSelection { kind: SourceKind::Http, config: c.clone(), main_sheet, versions },
            ),
        ),
        (_, _, _, Some(c)) => Ok(
            Some(
                SourceSelection { kind: SourceKind::Json, config: c.clone(), main_sheet, versions },
            ),
        ),
        _ => Ok(None),
    }
}

/// A provider of values by name. Each lookup is deterministic and is
/// described by the three spec-level resolution functions.
pub trait DataSource: Sized {
    /// What a scalar lookup of `name` resolves to.
    spec fn spec_single(&self, name: Seq<char>) -> Result<DataValueV, DataErrKind>;

    /// What a 1D lookup of `name` resolves to: a parsed array or a
    /// literal string.
    spec fn spec_1d(&self, name: Seq<char>) -> Result<ValueSourceV, DataErrKind>;

    /// What a 2D lookup of `name` resolves to.
    spec fn spec_2d(&self, name: Seq<char>) -> Result<Seq<Seq<DataValueV>>, DataErrKind>;

    /// Retrieves a single numeric, boolean or string value.
    fn retrieve_single_value(&self, name: &str) -> (r: Result<DataValue, DataError>)
        ensures
            single_matches(r, self.spec_single(name@)),
    ;

    /// Retrieves a 1D array or a literal string.
    fn retrieve_1d_array_or_string(&self, name: &str) -> (r: Result<ValueSource, DataError>)
        ensures
            source1d_matches(r, self.spec_1d(name@)),
    ;

    /// Retrieves a 2D array.
    fn retrieve_2d_array(&self, name: &str) -> (r: Result<Vec<Vec<DataValue>>, DataError>)
        ensures
            table2d_matches(r, self.spec_2d(name@)),
    ;
}

} // verus!
