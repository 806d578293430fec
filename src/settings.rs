//! Kinds of warnings: each is a family of warnings found by one regular expression.
use crate::arena::{ArenaView, SearchableArena, StrId};
use crate::limits::contains_kind;
use crate::search_for_files::copy_strings;
use crate::search_in_files::{regex_compiles, regex_group_names, strs_view, WarningRegex};
use vstd::prelude::*;

verus! {

/// A kind of warnings, all matched by the same regular expression; the handle of its
/// name in the global arena.
#[derive(Clone, Copy, Debug, PartialEq, Eq, Hash, PartialOrd, Ord, Structural)]
pub struct Kind(pub StrId);

impl Kind {
    pub fn new(id: StrId) -> (r: Self)
        ensures
            r.0 == id,
    {
        Kind(id)
    }

    /// The kind's name in `arena`, which must be the arena that named it.
    pub fn to_str<'a>(&self, arena: &'a SearchableArena) -> (r: &'a str)
        requires
            arena@.lookup(self.0) is Some,
        ensures
            arena@.lookup(self.0) == Some(r@),
    {
        match arena.lookup(self.0) {
            Some(s) => s.as_str(),
            None => "",
        }
    }
}

/// How one kind of warnings is found: the regular expression that matches a warning,
/// and the glob patterns of the log files to search.
pub struct SettingsField {
    pub regex: WarningRegex,
    pub files: Vec<String>,
    pub categorizable: bool,
}

impl SettingsField {
    /// The field is as the settings build it: categorizable exactly when its regular
    /// expression has a `category` group, and it always has a `file` group.
    pub open spec fn wf(&self) -> bool {
        &&& self.categorizable == regex_group_names(self.regex.pattern()).contains(Some(seq!['c', 'a', 't', 'e', 'g', 'o', 'r', 'y']))
        &&& has_file_group(self.regex.pattern())
    }
}

/// The regular expression `pattern` has a group named `file`.
pub open spec fn has_file_group(pattern: Seq<char>) -> bool {
    regex_group_names(pattern).contains(Some(seq!['f', 'i', 'l', 'e']))
}

/// Why the settings were refused.
#[derive(Debug)]
pub enum SettingsError {
    /// The regular expression of the named kind does not compile.
    InvalidRegex(String, regex::Error),
    /// The regular expression of the named kind has no `file` group.
    MissingFileCapture(String),
}

/// The configured kinds, in order, with the global arena that names them.
pub struct Settings {
    pub string_arena: SearchableArena,
    inner: Vec<(Kind, SettingsField)>,
}

/// The kinds of a list of settings fields.
pub open spec fn kinds_of(s: Seq<(Kind, SettingsField)>) -> Seq<Kind> {
    s.map_values(|p: (Kind, SettingsField)| p.0)
}

impl Settings {
    /// The arena that names the kinds is well formed.
    pub closed spec fn arena_wf(&self) -> bool {
        self.string_arena.wf()
    }

    /// What the arena that names the kinds holds.
    pub closed spec fn names(&self) -> ArenaView {
        self.string_arena@
    }

    /// The configured kinds with their fields, in order.
    pub closed spec fn fields(&self) -> Seq<(Kind, SettingsField)> {
        self.inner@
    }

    /// Builds the settings from each kind's name, regular expression pattern and log
    /// file globs. Every pattern must compile (the first that does not is reported) and
    /// have a `file` group (the first that has none is reported). Kind names are
    /// interned, in order, in a new arena.
    pub fn from_raw(raw: &Vec<(String, String, Vec<String>)>) -> (r: Result<Settings, SettingsError>)
        ensures
            r is Ok ==> {
                let st = r->Ok_0;
                &&& st.arena_wf()
                &&& st.names().strings == raw@.map_values(|t: (String, String, Vec<String>)| t.0@)
                &&& st.fields().len() == raw@.len()
                &&& forall|i: int| 0 <= i < raw@.len() ==> {
                    let f = #[trigger] st.fields()[i];
                    &&& f.0 == Kind(StrId { arena: st.names().identity, index: i as usize })
                    &&& f.1.regex.pattern() == raw@[i].1@
                    &&& strs_view(f.1.files@) == strs_view(raw@[i].2@)
                    &&& f.1.wf()
                }
            },
            r is Ok <==> forall|i: int|
                0 <= i < raw@.len() ==> regex_compiles(#[trigger] raw@[i].1@) && has_file_group(raw@[i].1@),
            r matches Err(SettingsError::InvalidRegex(name, _)) ==> exists|i: int|
                0 <= i < raw@.len() && raw@[i].0@ == name@ && !regex_compiles(raw@[i].1@) && forall|t: int|
                    0 <= t < i ==> regex_compiles(#[trigger] raw@[t].1@),
            r matches Err(SettingsError::MissingFileCapture(name)) ==> (forall|t: int|
                0 <= t < raw@.len() ==> regex_compiles(#[trigger] raw@[t].1@)) && exists|i: int|
                0 <= i < raw@.len() && raw@[i].0@ == name@ && !has_file_group(raw@[i].1@) && forall|t: int|
                    0 <= t < i ==> has_file_group(#[trigger] raw@[t].1@),
    {
        let ghost raw0 = raw@;
        // compile every pattern first
        let mut compiled: Vec<WarningRegex> = Vec::new();
        let mut i: usize = 0;
        while i < raw.len()
            invariant
                raw0 == raw@,
                i <= raw.len(),
                compiled@.len() == i,
                forall|t: int| 0 <= t < i ==> (#[trigger] compiled@[t]).pattern() == raw0[t].1@,
                forall|t: int| 0 <= t < i ==> regex_compiles(#[trigger] raw0[t].1@),
            decreases raw.len() - i,
        {
            let regex = match WarningRegex::new(raw[i].1.as_str()) {
                Ok(re) => re,
                Err(e) => {
                    assert(!regex_compiles(raw0[i as int].1@));
                    return Err(SettingsError::InvalidRegex(raw[i].0.clone(), e));
                },
            };
            compiled.push(regex);
            i = i + 1;
        }
        let mut string_arena = SearchableArena::new();
        let mut inner: Vec<(Kind, SettingsField)> = Vec::new();
        let ghost names = raw0.map_values(|t: (String, String, Vec<String>)| t.0@);
        // `compiled` is emptied from the back, so turn it around first
        let mut pending: Vec<WarningRegex> = Vec::new();
        while compiled.len() > 0
            invariant
                compiled@.len() + pending@.len() == raw0.len(),
                forall|t: int| 0 <= t < compiled@.len() ==> (#[trigger] compiled@[t]).pattern() == raw0[t].1@,
                forall|t: int| 0 <= t < pending@.len() ==> (#[trigger] pending@[t]).pattern() == raw0[raw0.len() - 1 - t].1@,
            decreases compiled@.len(),
        {
            let re = compiled.pop().unwrap();
            pending.push(re);
        }
        proof {
            reveal_strlit("file");
            reveal_strlit("category");
        }
        let mut k: usize = 0;
        while k < raw.len()
            invariant
                raw0 == raw@,
                k <= raw.len(),
                pending@.len() + k == raw0.len(),
                forall|t: int| 0 <= t < pending@.len() ==> (#[trigger] pending@[t]).pattern() == raw0[raw0.len() - 1 - t].1@,
                names == raw0.map_values(|t: (String, String, Vec<String>)| t.0@),
                string_arena.wf(),
                string_arena@.strings == names.take(k as int),
                inner@.len() == k,
                forall|t: int| 0 <= t < raw0.len() ==> regex_compiles(#[trigger] raw0[t].1@),
                forall|t: int| 0 <= t < k ==> has_file_group(#[trigger] raw0[t].1@),
                forall|i: int| 0 <= i < k ==> {
                    let f = #[trigger] inner@[i];
                    &&& f.0 == Kind(StrId { arena: string_arena@.identity, index: i as usize })
                    &&& f.1.regex.pattern() == raw0[i].1@
                    &&& strs_view(f.1.files@) == strs_view(raw0[i].2@)
                    &&& f.1.wf()
                },
                "file"@ == seq!['f', 'i', 'l', 'e'],
                "category"@ == seq!['c', 'a', 't', 'e', 'g', 'o', 'r', 'y'],
            decreases raw.len() - k,
        {
            let regex = pending.pop().unwrap();
            assert(regex.pattern() == raw0[k as int].1@);
            if !regex.has_group("file") {
                assert(0 <= k < raw0.len() && raw0[k as int].0@ == raw@[k as int].0@);
                return Err(SettingsError::MissingFileCapture(raw[k].0.clone()));
            }
            let categorizable = regex.has_group("category");
            let field = SettingsField { regex, files: copy_strings(&raw[k].2), categorizable };
            assert(field.wf());
            let id = string_arena.insert(raw[k].0.clone());
            assert(string_arena@.strings == names.take(k + 1)) by {
                assert(names.take(k + 1) == names.take(k as int).push(names[k as int]));
            }
            inner.push((Kind(id), field));
            k = k + 1;
        }
        assert(names.take(k as int) == names);
        Ok(Settings { string_arena, inner })
    }

    /// The configured kinds with their fields, in order.
    pub fn iter(&self) -> (r: &Vec<(Kind, SettingsField)>)
        ensures
            r@ == self.fields(),
    {
        &self.inner
    }

    /// The kinds whose regular expression captures a category.
    pub fn categorizables(&self) -> (r: Vec<Kind>)
        ensures
            r@ == self.fields().filter(|p: (Kind, SettingsField)| p.1.categorizable).map_values(
                |p: (Kind, SettingsField)| p.0,
            ),
    {
        let ghost pred = |p: (Kind, SettingsField)| p.1.categorizable;
        let ghost key = |p: (Kind, SettingsField)| p.0;
        let mut result: Vec<Kind> = Vec::new();
        let mut i: usize = 0;
        proof {
            reveal(Seq::filter);
            assert(self.fields().take(0).filter(pred) =~= Seq::<(Kind, SettingsField)>::empty());
        }
        while i < self.inner.len()
            invariant
                pred == (|p: (Kind, SettingsField)| p.1.categorizable),
                key == (|p: (Kind, SettingsField)| p.0),
                i <= self.fields().len(),
                result@ == self.fields().take(i as int).filter(pred).map_values(key),
            decreases self.fields().len() - i,
        {
            proof {
                assert(self.fields().take(i + 1) == self.fields().take(i as int).push(self.fields()[i as int]));
                self.fields().take(i as int).lemma_filter_push(self.fields()[i as int], pred);
            }
            if self.inner[i].1.categorizable {
                result.push(self.inner[i].0);
                assert(result@ =~= self.fields().take(i + 1).filter(pred).map_values(key));
            }
            i = i + 1;
        }
        assert(self.fields().take(i as int) == self.fields());
        result
    }

    /// The configured kinds, in order.
    pub fn kinds(&self) -> (r: Vec<Kind>)
        ensures
            r@ == kinds_of(self.fields()),
    {
        let mut result: Vec<Kind> = Vec::new();
        let mut i: usize = 0;
        while i < self.inner.len()
            invariant
                i <= self.fields().len(),
                result@ == kinds_of(self.fields()).take(i as int),
            decreases self.fields().len() - i,
        {
            result.push(self.inner[i].0);
            assert(result@ =~= kinds_of(self.fields()).take(i + 1));
            i = i + 1;
        }
        assert(kinds_of(self.fields()).take(i as int) =~= kinds_of(self.fields()));
        result
    }
}

} // verus!
