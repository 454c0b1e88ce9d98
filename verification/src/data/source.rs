//! The in-memory data source: the common post-parse shape of every
//! backend, searched through a version stack.

use vstd::prelude::*;
use crate::data::error::{DataErrKind, DataError};
use crate::data::tokenize::{tokenize_string_value, tokenize_value_spec};
use crate::data::{single_matches, source1d_matches, table2d_matches, DataSource};
use crate::layout::value::{views1, views2, DataValue, DataValueV, ValueSource, ValueSourceV};

verus! {

/// One named value as a backend hands it over: a scalar, a 1D array, or
/// a 2D table.
#[derive(Debug, Clone)]
pub enum RawEntry {
    Scalar(DataValue),
    List(Vec<DataValue>),
    Table(Vec<Vec<DataValue>>),
}

/// Spec-level image of a `RawEntry`.
pub enum RawEntryV {
    Scalar(DataValueV),
    List(Seq<DataValueV>),
    Table(Seq<Seq<DataValueV>>),
}

impl View for RawEntry {
    type V = RawEntryV;

    open spec fn view(&self) -> RawEntryV {
        match self {
            RawEntry::Scalar(v) => RawEntryV::Scalar(v@),
            RawEntry::List(a) => RawEntryV::List(views1(a@)),
            RawEntry::Table(t) => RawEntryV::Table(views2(t@)),
        }
    }
}

/// One version's name-to-value table.
#[derive(Debug, Clone)]
pub struct VersionData {
    pub name: String,
    pub entries: Vec<(String, RawEntry)>,
}

/// The model of one entry list: keys and values as spec values.
pub open spec fn entries_model(es: Seq<(String, RawEntry)>) -> Seq<(Seq<char>, RawEntryV)> {
    es.map_values(|p: (String, RawEntry)| (p.0@, p.1@))
}

/// The model of a version list: names with their entry models.
pub open spec fn stack_model(vs: Seq<VersionData>) -> Seq<(Seq<char>, Seq<(Seq<char>, RawEntryV)>)> {
    vs.map_values(|v: VersionData| (v.name@, entries_model(v.entries@)))
}

/// The first value stored under `name`, scanning the list front to back.
pub open spec fn lookup_model(es: Seq<(Seq<char>, RawEntryV)>, name: Seq<char>) -> Option<RawEntryV>
    decreases es.len(),
{
    if es.len() == 0 {
        None
    } else if es[0].0 == name {
        Some(es[0].1)
    } else {
        lookup_model(es.drop_first(), name)
    }
}

/// The value of `name` in the first version of the stack that has it.
pub open spec fn resolve_model(
    stack: Seq<(Seq<char>, Seq<(Seq<char>, RawEntryV)>)>,
    name: Seq<char>,
) -> Option<RawEntryV>
    decreases stack.len(),
{
    if stack.len() == 0 {
        None
    } else {
        match lookup_model(stack[0].1, name) {
            Some(v) => Some(v),
            None => resolve_model(stack.drop_first(), name),
        }
    }
}

/// Earlier versions take priority: the resolved value of a name is the
/// one from the first version of the stack that contains it.
pub proof fn lemma_version_priority(
    stack: Seq<(Seq<char>, Seq<(Seq<char>, RawEntryV)>)>,
    name: Seq<char>,
    j: int,
)
    requires
        0 <= j < stack.len(),
        lookup_model(stack[j].1, name) is Some,
        forall|i: int| 0 <= i < j ==> lookup_model(#[trigger] stack[i].1, name) is None,
    ensures
        resolve_model(stack, name) == lookup_model(stack[j].1, name),
    decreases j,
{
    if j > 0 {
        lemma_version_priority(stack.drop_first(), name, j - 1);
        assert(stack.drop_first()[j - 1] == stack[j]);
        assert(forall|i: int|
            0 <= i < j - 1 ==> #[trigger] stack.drop_first()[i] == stack[i + 1]);
    }
}

/// The versions of `avail` named by `names`, in `names` order, skipping
/// names no version carries.
pub open spec fn find_version(avail: Seq<VersionData>, name: Seq<char>) -> Option<VersionData>
    decreases avail.len(),
{
    if avail.len() == 0 {
        None
    } else if avail[0].name@ == name {
        Some(avail[0])
    } else {
        find_version(avail.drop_first(), name)
    }
}

pub open spec fn select_stack(avail: Seq<VersionData>, names: Seq<Seq<char>>) -> Seq<VersionData>
    decreases names.len(),
{
    if names.len() == 0 {
        Seq::empty()
    } else {
        match find_version(avail, names[0]) {
            Some(v) => seq![v] + select_stack(avail, names.drop_first()),
            None => select_stack(avail, names.drop_first()),
        }
    }
}

/// A name-to-value provider over an explicit version stack, highest
/// priority first.
#[derive(Debug)]
pub struct MapDataSource {
    pub stack: Vec<VersionData>,
}

pub fn dup_values(a: &Vec<DataValue>) -> (r: Vec<DataValue>)
    ensures
        views1(r@) == views1(a@),
{
    let mut out: Vec<DataValue> = Vec::new();
    let mut i: usize = 0;
    while i < a.len()
        invariant
            i <= a@.len(),
            views1(out@) == views1(a@).take(i as int),
        decreases a@.len() - i,
    {
        let ghost prev = out@;
        out.push(a[i].duplicate());
        i = i + 1;
        proof {
            assert(views1(out@) =~= views1(prev).push(out@.last()@));
            assert(views1(a@).take(i as int) =~= views1(a@).take(i - 1).push(a@[i - 1]@));
        }
    }
    proof {
        assert(views1(a@).take(a@.len() as int) =~= views1(a@));
    }
    out
}

pub fn dup_table(t: &Vec<Vec<DataValue>>) -> (r: Vec<Vec<DataValue>>)
    ensures
        views2(r@) == views2(t@),
{
    let mut out: Vec<Vec<DataValue>> = Vec::new();
    let mut i: usize = 0;
    while i < t.len()
        invariant
            i <= t@.len(),
            views2(out@) == views2(t@).take(i as int),
        decreases t@.len() - i,
    {
        let ghost prev = out@;
        out.push(dup_values(&t[i]));
        i = i + 1;
        proof {
            assert(views2(out@) =~= views2(prev).push(views1(out@.last()@)));
            assert(views2(t@).take(i as int) =~= views2(t@).take(i - 1).push(views1(t@[i - 1]@)));
        }
    }
    proof {
        assert(views2(t@).take(t@.len() as int) =~= views2(t@));
    }
    out
}

impl RawEntry {
    /// A copy whose view equals this entry's view.
    pub fn duplicate(&self) -> (r: RawEntry)
        ensures
            r@ == self@,
    {
        match self {
            RawEntry::Scalar(v) => RawEntry::Scalar(v.duplicate()),
            RawEntry::List(a) => RawEntry::List(dup_values(a)),
            RawEntry::Table(t) => RawEntry::Table(dup_table(t)),
        }
    }
}

impl VersionData {
    /// A copy with the same model.
    pub fn duplicate(&self) -> (r: VersionData)
        ensures
            r.name@ == self.name@,
            entries_model(r.entries@) == entries_model(self.entries@),
    {
        let mut entries: Vec<(String, RawEntry)> = Vec::new();
        let mut i: usize = 0;
        while i < self.entries.len()
            invariant
                i <= self.entries@.len(),
                entries_model(entries@) == entries_model(self.entries@).take(i as int),
            decreases self.entries@.len() - i,
        {
            let ghost prev = entries@;
            let p = &self.entries[i];
            entries.push((p.0.clone(), p.1.duplicate()));
            i = i + 1;
            proof {
                assert(entries_model(entries@) =~= entries_model(prev).push(
                    (entries@.last().0@, entries@.last().1@),
                ));
                assert(entries_model(self.entries@).take(i as int) =~= entries_model(
                    self.entries@,
                ).take(i - 1).push((self.entries@[i - 1].0@, self.entries@[i - 1].1@)));
            }
        }
        proof {
            assert(entries_model(self.entries@).take(self.entries@.len() as int) =~= entries_model(
                self.entries@,
            ));
        }
        VersionData { name: self.name.clone(), entries }
    }
}

impl MapDataSource {
    /// Builds the source for a version stack over the available
    /// versions. An empty stack, or one whose names all miss the
    /// available versions, is refused.
    pub fn with_stack(avail: &Vec<VersionData>, names: &Vec<String>) -> (r: Result<
        MapDataSource,
        DataError,
    >)
        ensures
            match r {
                Ok(src) => names@.len() > 0 && stack_model(src.stack@) == stack_model(
                    select_stack(avail@, crate::data::args::string_views(names@)),
                ) && stack_model(src.stack@).len() > 0,
                Err(e) => crate::data::error::data_err_kind(e)
                    == DataErrKind::MissingVersion && (names@.len() == 0 || select_stack(
                    avail@,
                    crate::data::args::string_views(names@),
                ).len() == 0),
            },
    {
        let ghost nm = crate::data::args::string_views(names@);
        if names.len() == 0 {
            return Err(DataError::MissingVersion);
        }
        let mut stack: Vec<VersionData> = Vec::new();
        let mut i: usize = 0;
        proof {
            assert(nm.skip(0) =~= nm);
        }
        while i < names.len()
            invariant
                i <= names@.len(),
                nm == crate::data::args::string_views(names@),
                nm.len() == names@.len(),
                stack_model(select_stack(avail@, nm)) == stack_model(stack@) + stack_model(
                    select_stack(avail@, nm.skip(i as int)),
                ),
            decreases names@.len() - i,
        {
            proof {
                assert(nm.skip(i as int).drop_first() =~= nm.skip(i + 1));
                assert(nm.skip(i as int)[0] == nm[i as int]);
                assert(nm[i as int] == names@[i as int]@);
            }
            let found: Option<&VersionData> = find_in(avail, &names[i]);
            match found {
                Some(v) => {
                    let ghost prev = stack@;
                    stack.push(v.duplicate());
                    proof {
                        let sel = select_stack(avail@, nm.skip(i as int));
                        if let Some(fv) = find_version(avail@, nm[i as int]) {
                            assert(stack_model(seq![fv] + select_stack(avail@, nm.skip(i + 1)))
                                =~= stack_model(seq![fv]) + stack_model(
                                select_stack(avail@, nm.skip(i + 1)),
                            ));
                            assert(stack_model(seq![fv]) =~= seq![
                                (fv.name@, entries_model(fv.entries@)),
                            ]);
                            assert(stack_model(stack@) =~= stack_model(prev).push(
                                (stack@.last().name@, entries_model(stack@.last().entries@)),
                            ));
                            assert(stack_model(prev) + (stack_model(seq![fv]) + stack_model(
                                select_stack(avail@, nm.skip(i + 1)),
                            )) =~= stack_model(stack@) + stack_model(
                                select_stack(avail@, nm.skip(i + 1)),
                            ));
                        }
                    }
                },
                None => {
                },
            }
            i = i + 1;
        }
        proof {
            assert(nm.skip(nm.len() as int) =~= Seq::<Seq<char>>::empty());
            assert(stack_model(stack@) + stack_model(Seq::<VersionData>::empty()) =~= stack_model(
                stack@,
            ));
            assert(stack_model(select_stack(avail@, nm)) =~= stack_model(stack@));
        }
        if stack.len() == 0 {
            proof {
                assert(select_stack(avail@, nm).len() == stack_model(
                    select_stack(avail@, nm),
                ).len());
            }
            return Err(DataError::MissingVersion);
        }
        Ok(MapDataSource { stack })
    }
}

/// The first version of `avail` carrying the given name.
fn find_in<'a>(avail: &'a Vec<VersionData>, name: &String) -> (r: Option<&'a VersionData>)
    ensures
        match r {
            Some(v) => find_version(avail@, name@) == Some(*v),
            None => find_version(avail@, name@) is None,
        },
{
    let mut i: usize = 0;
    proof {
        assert(avail@.skip(0) =~= avail@);
    }
    while i < avail.len()
        invariant
            i <= avail@.len(),
            find_version(avail@, name@) == find_version(avail@.skip(i as int), name@),
        decreases avail@.len() - i,
    {
        proof {
            assert(avail@.skip(i as int).drop_first() =~= avail@.skip(i + 1));
            assert(avail@.skip(i as int)[0] == avail@[i as int]);
        }
        if avail[i].name == *name {
            return Some(&avail[i]);
        }
        i = i + 1;
    }
    proof {
        assert(avail@.skip(avail@.len() as int) =~= Seq::<VersionData>::empty());
    }
    None
}

/// The first entry stored under `name` in one version, if any.
fn lookup_in<'a>(entries: &'a Vec<(String, RawEntry)>, name: &String) -> (r: Option<&'a RawEntry>)
    ensures
        match r {
            Some(v) => lookup_model(entries_model(entries@), name@) == Some(v@),
            None => lookup_model(entries_model(entries@), name@) is None,
        },
{
    let ghost em = entries_model(entries@);
    let mut i: usize = 0;
    proof {
        assert(em.skip(0) =~= em);
    }
    while i < entries.len()
        invariant
            i <= entries@.len(),
            em == entries_model(entries@),
            em.len() == entries@.len(),
            lookup_model(em, name@) == lookup_model(em.skip(i as int), name@),
        decreases entries@.len() - i,
    {
        proof {
            assert(em.skip(i as int).drop_first() =~= em.skip(i + 1));
            assert(em.skip(i as int)[0] == em[i as int]);
            assert(em[i as int] == (entries@[i as int].0@, entries@[i as int].1@));
        }
        if entries[i].0 == *name {
            return Some(&entries[i].1);
        }
        i = i + 1;
    }
    proof {
        assert(em.skip(em.len() as int) =~= Seq::<(Seq<char>, RawEntryV)>::empty());
    }
    None
}

/// Resolves `name` through the stack, front (highest priority) first.
fn resolve_in<'a>(stack: &'a Vec<VersionData>, name: &String) -> (r: Option<&'a RawEntry>)
    ensures
        match r {
            Some(v) => resolve_model(stack_model(stack@), name@) == Some(v@),
            None => resolve_model(stack_model(stack@), name@) is None,
        },
{
    let ghost sm = stack_model(stack@);
    let mut i: usize = 0;
    proof {
        assert(sm.skip(0) =~= sm);
    }
    while i < stack.len()
        invariant
            i <= stack@.len(),
            sm == stack_model(stack@),
            sm.len() == stack@.len(),
            resolve_model(sm, name@) == resolve_model(sm.skip(i as int), name@),
        decreases stack@.len() - i,
    {
        proof {
            assert(sm.skip(i as int).drop_first() =~= sm.skip(i + 1));
            assert(sm.skip(i as int)[0] == sm[i as int]);
            assert(sm[i as int] == (stack@[i as int].name@, entries_model(
                stack@[i as int].entries@,
            )));
        }
        match lookup_in(&stack[i].entries, name) {
            Some(v) => {
                return Some(v);
            },
            None => {
            },
        }
        i = i + 1;
    }
    proof {
        assert(sm.skip(sm.len() as int) =~= Seq::<(Seq<char>, Seq<(Seq<char>, RawEntryV)>)>::empty());
    }
    None
}

impl DataSource for MapDataSource {
    open spec fn spec_single(&self, name: Seq<char>) -> Result<DataValueV, DataErrKind> {
        match resolve_model(stack_model(self.stack@), name) {
            None => Err(DataErrKind::NameNotFound),
            Some(RawEntryV::Scalar(v)) => Ok(v),
            Some(_) => Err(DataErrKind::WrongShape),
        }
    }

    open spec fn spec_1d(&self, name: Seq<char>) -> Result<ValueSourceV, DataErrKind> {
        match resolve_model(stack_model(self.stack@), name) {
            None => Err(DataErrKind::NameNotFound),
            Some(RawEntryV::Scalar(DataValueV::Str(s))) => Ok(tokenize_value_spec(s)),
            Some(RawEntryV::Scalar(v)) => Ok(ValueSourceV::Single(v)),
            Some(RawEntryV::List(a)) => Ok(ValueSourceV::Array(a)),
            Some(RawEntryV::Table(_)) => Err(DataErrKind::WrongShape),
        }
    }

    open spec fn spec_2d(&self, name: Seq<char>) -> Result<Seq<Seq<DataValueV>>, DataErrKind> {
        match resolve_model(stack_model(self.stack@), name) {
            None => Err(DataErrKind::NameNotFound),
            Some(RawEntryV::Table(t)) => Ok(t),
            Some(_) => Err(DataErrKind::WrongShape),
        }
    }

    fn retrieve_single_value(&self, name: &str) -> (r: Result<DataValue, DataError>)
        ensures
            single_matches(r, self.spec_single(name@)),
    {
        let owned: String = name.to_owned();
        match resolve_in(&self.stack, &owned) {
            None => Err(DataError::NameNotFound(owned)),
            Some(RawEntry::Scalar(v)) => Ok(v.duplicate()),
            Some(_) => Err(DataError::WrongShape(owned)),
        }
    }

    fn retrieve_1d_array_or_string(&self, name: &str) -> (r: Result<ValueSource, DataError>)
        ensures
            source1d_matches(r, self.spec_1d(name@)),
    {
        let owned: String = name.to_owned();
        match resolve_in(&self.stack, &owned) {
            None => Err(DataError::NameNotFound(owned)),
            Some(RawEntry::Scalar(DataValue::Str(s))) => Ok(tokenize_string_value(s.as_str())),
            Some(RawEntry::Scalar(v)) => Ok(ValueSource::Single(v.duplicate())),
            Some(RawEntry::List(a)) => Ok(ValueSource::Array(dup_values(a))),
            Some(RawEntry::Table(_)) => Err(DataError::WrongShape(owned)),
        }
    }

    fn retrieve_2d_array(&self, name: &str) -> (r: Result<Vec<Vec<DataValue>>, DataError>)
        ensures
            table2d_matches(r, self.spec_2d(name@)),
    {
        let owned: String = name.to_owned();
        match resolve_in(&self.stack, &owned) {
            None => Err(DataError::NameNotFound(owned)),
            Some(RawEntry::Table(t)) => Ok(dup_table(t)),
            Some(_) => Err(DataError::WrongShape(owned)),
        }
    }
}

} // verus!
