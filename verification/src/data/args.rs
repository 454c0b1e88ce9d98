//! Data-source selection arguments.

use vstd::prelude::*;
use crate::data::tokenize::{
    char_views, chars_of, split_char, split_on, string_of, trim_chars, trim_spec,
};

verus! {

/// Which data source to use and which versions to search, as given on
/// the command line. At most one of the four source fields is set.
#[derive(Debug, Clone)]
pub struct DataArgs {
    /// Path to the Excel versions file.
    pub xlsx: Option<String>,
    /// Main sheet name in Excel.
    pub main_sheet: Option<String>,
    /// Postgres configuration, inline or as a path.
    pub postgres: Option<String>,
    /// HTTP API configuration, inline or as a path.
    pub http: Option<String>,
    /// Version-to-values JSON, inline or as a path.
    pub json: Option<String>,
    /// Version names in priority order, separated by `/`.
    pub versions: Option<String>,
}

impl Default for DataArgs {
    /// No source configured and no versions named.
    fn default() -> (d: DataArgs)
        ensures
            d.xlsx is None,
            d.main_sheet is None,
            d.postgres is None,
            d.http is None,
            d.json is None,
            d.versions is None,
    {
        DataArgs {
            xlsx: None,
            main_sheet: None,
            postgres: None,
            http: None,
            json: None,
            versions: None,
        }
    }
}

/// The version stack named by a raw `/`-separated string: each piece
/// trimmed, empty pieces discarded, priority order kept.
pub open spec fn version_list_spec(raw: Seq<char>) -> Seq<Seq<char>> {
    split_char(raw, '/').map_values(|t: Seq<char>| trim_spec(t)).filter(|t: Seq<char>| t.len() > 0)
}

/// The views of a vector of strings.
pub open spec fn string_views(v: Seq<String>) -> Seq<Seq<char>> {
    v.map_values(|s: String| s@)
}

impl DataArgs {
    /// Parses the version stack from the raw slash-separated string.
    pub fn get_version_list(&self) -> (r: Vec<String>)
        ensures
            string_views(r@) == (match self.versions {
                Some(raw) => version_list_spec(raw@),
                None => Seq::<Seq<char>>::empty(),
            }),
    {
        match &self.versions {
            None => {
                let r: Vec<String> = Vec::new();
                proof {
                    assert(string_views(r@) =~= Seq::<Seq<char>>::empty());
                }
                r
            },
            Some(raw) => {
                let chars = chars_of(raw.as_str());
                let pieces = split_on(&chars, '/');
                let ghost toks = split_char(raw@, '/');
                let mut out: Vec<String> = Vec::new();
                let mut i: usize = 0;
                proof {
                    assert(toks.take(0) =~= Seq::<Seq<char>>::empty());
                    assert(string_views(out@) =~= toks.take(0).map_values(
                        |t: Seq<char>| trim_spec(t),
                    ).filter(|t: Seq<char>| t.len() > 0));
                }
                while i < pieces.len()
                    invariant
                        i <= pieces@.len(),
                        char_views(pieces@) == toks,
                        toks.len() == pieces@.len(),
                        string_views(out@) == toks.take(i as int).map_values(
                            |t: Seq<char>| trim_spec(t),
                        ).filter(|t: Seq<char>| t.len() > 0),
                    decreases pieces@.len() - i,
                {
                    let trimmed = trim_chars(&pieces[i]);
                    let ghost prev = string_views(out@);
                    proof {
                        let mapped = toks.take(i + 1).map_values(|t: Seq<char>| trim_spec(t));
                        assert(toks.take(i + 1).drop_last() =~= toks.take(i as int));
                        assert(mapped.drop_last() =~= toks.take(i as int).map_values(
                            |t: Seq<char>| trim_spec(t),
                        ));
                        assert(mapped.last() == trim_spec(toks[i as int]));
                        assert(toks[i as int] == pieces@[i as int]@);
                    }
                    proof {
                        reveal_with_fuel(Seq::<Seq<char>>::filter, 2);
                    }
                    if trimmed.len() > 0 {
                        let piece = string_of(&trimmed);
                        out.push(piece);
                        proof {
                            assert(string_views(out@) =~= prev.push(trim_spec(toks[i as int])));
                        }
                    }
                    i = i + 1;
                }
                proof {
                    assert(toks.take(toks.len() as int) =~= toks);
                }
                out
            },
        }
    }
}

} // verus!
