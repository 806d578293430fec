//! Recognising the files of interest met while walking a directory tree: limit files,
//! and log files that the glob patterns of some kind match.
use crate::search_in_files::{components_of, path_components, strs_view};
use crate::settings::{Kind, Settings};
use globset::{Glob, GlobSet, GlobSetBuilder};
use vstd::prelude::*;
use vstd::string::*;

verus! {

#[verifier::external_type_specification]
#[verifier::external_body]
pub struct ExGlobSet(GlobSet);

#[verifier::external_type_specification]
#[verifier::external_body]
pub struct ExGlobError(globset::Error);

/// Whether any of the glob patterns `patterns` matches `path`.
pub uninterp spec fn glob_set_matches(patterns: Seq<Seq<char>>, path: Seq<char>) -> bool;

/// Whether every one of the glob patterns `patterns` parses, and the set of them builds.
pub uninterp spec fn globs_compile(patterns: Seq<Seq<char>>) -> bool;

/// Relies on `globset::Glob::new`, `globset::GlobSetBuilder::add` and
/// `globset::GlobSetBuilder::build`: compiles the patterns into one set, or says why one
/// of them is no glob or the set does not build; which of the two depends on the
/// patterns alone. The result keeps the patterns beside the set.
#[verifier::external_body]
fn build_file_globs(patterns: &Vec<String>) -> (r: Result<FileGlobs, globset::Error>)
    ensures
        r is Ok <==> globs_compile(strs_view(patterns@)),
        r is Ok ==> strs_view(r->Ok_0.patterns@) == strs_view(patterns@),
{
    let mut builder = GlobSetBuilder::new();
    for pattern in patterns {
        builder.add(Glob::new(pattern)?);
    }
    let set = builder.build()?;
    Ok(FileGlobs { patterns: patterns.clone(), set })
}

/// Relies on `globset::GlobSet::is_match`: whether any glob of the set matches `path`.
#[verifier::external_body]
fn set_matches(globs: &FileGlobs, path: &str) -> (r: bool)
    ensures
        r == glob_set_matches(globs.patterns(), path@),
{
    globs.set.is_match(path)
}

/// The glob patterns of a kind's log files, compiled into one set.
pub struct FileGlobs {
    patterns: Vec<String>,
    set: GlobSet,
}

/// A copy of a list of strings.
pub fn copy_strings(v: &Vec<String>) -> (r: Vec<String>)
    ensures
        strs_view(r@) == strs_view(v@),
{
    let mut out: Vec<String> = Vec::new();
    let mut i: usize = 0;
    while i < v.len()
        invariant
            i <= v.len(),
            strs_view(out@) == strs_view(v@).take(i as int),
        decreases v.len() - i,
    {
        let ghost before = strs_view(out@);
        out.push(v[i].clone());
        assert(strs_view(out@) =~= before.push(v@[i as int]@));
        assert(strs_view(v@).take(i + 1) =~= strs_view(v@).take(i as int).push(v@[i as int]@));
        i = i + 1;
    }
    assert(strs_view(v@).take(i as int) =~= strs_view(v@));
    out
}

impl FileGlobs {
    /// The patterns the set was compiled from.
    pub closed spec fn patterns(&self) -> Seq<Seq<char>> {
        strs_view(self.patterns@)
    }

    /// Compiles the glob patterns into one set, or says why one of them is no glob.
    pub fn new(patterns: &Vec<String>) -> (r: Result<FileGlobs, globset::Error>)
        ensures
            r is Ok <==> globs_compile(strs_view(patterns@)),
            r is Ok ==> r->Ok_0.patterns() == strs_view(patterns@),
    {
        build_file_globs(patterns)
    }

    /// Whether one of the patterns matches `path`.
    pub fn is_match(&self, path: &str) -> (r: bool)
        ensures
            r == glob_set_matches(self.patterns(), path@),
    {
        set_matches(self, path)
    }
}

/// Compiles the log file globs of each configured kind, in the order of the settings.
pub fn construct_types_info(settings: &Settings) -> (r: Result<Vec<(Kind, FileGlobs)>, globset::Error>)
    ensures
        r is Ok <==> forall|i: int|
            0 <= i < settings.fields().len() ==> globs_compile(strs_view(#[trigger] settings.fields()[i].1.files@)),
        r is Ok ==> {
            let v = r->Ok_0;
            &&& v@.len() == settings.fields().len()
            &&& forall|i: int|
                0 <= i < v@.len() ==> (#[trigger] v@[i]).0 == settings.fields()[i].0 && v@[i].1.patterns()
                    == strs_view(settings.fields()[i].1.files@)
        },
{
    let fields = settings.iter();
    let mut result: Vec<(Kind, FileGlobs)> = Vec::new();
    let mut i: usize = 0;
    while i < fields.len()
        invariant
            fields@ == settings.fields(),
            i <= fields.len(),
            result@.len() == i,
            forall|t: int| 0 <= t < i ==> globs_compile(strs_view(#[trigger] fields@[t].1.files@)),
            forall|t: int|
                0 <= t < i ==> (#[trigger] result@[t]).0 == fields@[t].0 && result@[t].1.patterns() == strs_view(
                    fields@[t].1.files@,
                ),
        decreases fields.len() - i,
    {
        let globs = match FileGlobs::new(&fields[i].1.files) {
            Ok(g) => g,
            Err(e) => {
                return Err(e);
            },
        };
        result.push((fields[i].0, globs));
        i = i + 1;
    }
    Ok(result)
}

/// What a file met while walking the tree is.
#[derive(Debug, PartialEq, Eq)]
pub enum FileClass {
    /// A limit file.
    Limits,
    /// A log file, with the kinds whose globs match it.
    Log(Vec<Kind>),
}

/// The name of limit files.
pub open spec fn limits_file_name() -> Seq<char> {
    seq!['L', 'i', 'm', 'i', 't', 's', '.', 't', 'o', 'm', 'l']
}

/// The path's last component is the name of limit files.
pub open spec fn is_limits_file(path: Seq<char>) -> bool {
    let c = path_components(path);
    c.len() > 0 && c.last() == limits_file_name()
}

/// The kinds whose globs match `path`, in order.
pub open spec fn matching_kinds(types: Seq<(Kind, FileGlobs)>, path: Seq<char>) -> Seq<Kind> {
    types.filter(|t: (Kind, FileGlobs)| glob_set_matches(t.1.patterns(), path)).map_values(|t: (Kind, FileGlobs)| t.0)
}

/// Tells what the file at `path` is: a limit file when its name is `Limits.toml`, else a
/// log file of the kinds whose globs match it, else nothing of interest.
pub fn process_file(path: &str, types: &Vec<(Kind, FileGlobs)>) -> (r: Option<FileClass>)
    ensures
        is_limits_file(path@) ==> r == Some(FileClass::Limits),
        !is_limits_file(path@) ==> match r {
            Some(FileClass::Log(kinds)) => kinds@ == matching_kinds(types@, path@) && kinds@.len() > 0,
            Some(FileClass::Limits) => false,
            None => matching_kinds(types@, path@).len() == 0,
        },
{
    let comps = components_of(path);
    let name = String::from_str("Limits.toml");
    proof {
        reveal_strlit("Limits.toml");
        assert(name@ == limits_file_name());
        assert(strs_view(comps@) == path_components(path@));
        if comps@.len() > 0 {
            assert(strs_view(comps@).last() == comps@[comps@.len() - 1]@);
        }
    }
    if comps.len() > 0 && comps[comps.len() - 1] == name {
        return Some(FileClass::Limits);
    }
    let ghost pred = |t: (Kind, FileGlobs)| glob_set_matches(t.1.patterns(), path@);
    let ghost key = |t: (Kind, FileGlobs)| t.0;
    let mut kinds: Vec<Kind> = Vec::new();
    let mut i: usize = 0;
    proof {
        reveal(Seq::filter);
        assert(types@.take(0).filter(pred) =~= Seq::<(Kind, FileGlobs)>::empty());
    }
    while i < types.len()
        invariant
            pred == (|t: (Kind, FileGlobs)| glob_set_matches(t.1.patterns(), path@)),
            key == (|t: (Kind, FileGlobs)| t.0),
            i <= types.len(),
            kinds@ == types@.take(i as int).filter(pred).map_values(key),
        decreases types.len() - i,
    {
        proof {
            assert(types@.take(i + 1) == types@.take(i as int).push(types@[i as int]));
            types@.take(i as int).lemma_filter_push(types@[i as int], pred);
        }
        if types[i].1.is_match(path) {
            kinds.push(types[i].0);
        }
        assert(kinds@ =~= types@.take(i + 1).filter(pred).map_values(key));
        i = i + 1;
    }
    assert(types@.take(i as int) == types@);
    if kinds.len() > 0 {
        Some(FileClass::Log(kinds))
    } else {
        None
    }
}

} // verus!
