//! Limits: the thresholds that limit files declare, per kind and per category.
use crate::arena::{ArenaView, SearchableArena, StrId};
use crate::settings::Kind;
use crate::warnings::EntryCount;
use vstd::prelude::*;
use vstd::string::*;

verus! {

/// A sub-classification of warnings within a kind (a compiler flag, a lint code), or the
/// wildcard that stands for every category not declared explicitly (written `_`).
#[derive(Clone, Copy, Debug, PartialEq, Eq, Hash, PartialOrd, Ord, Structural)]
pub enum Category {
    Wildcard,
    Specific(StrId),
}

impl Category {
    pub fn new(id: StrId) -> (r: Self)
        ensures
            r == Category::Specific(id),
    {
        Category::Specific(id)
    }

    /// The wildcard category.
    pub fn none() -> (r: Self)
        ensures
            r == Category::Wildcard,
    {
        Category::Wildcard
    }

    /// The category names a string of `arena` (the wildcard always does).
    pub open spec fn resolves_in(self, arena: ArenaView) -> bool {
        match self {
            Category::Wildcard => true,
            Category::Specific(id) => arena.lookup(id) is Some,
        }
    }

    /// The category of arena `to` with the same name as `self` has in `from`; the
    /// wildcard when `to` does not hold that name.
    pub open spec fn remapped(self, from: ArenaView, to: ArenaView) -> Category {
        match self {
            Category::Wildcard => Category::Wildcard,
            Category::Specific(id) => match to.get_id(from.lookup(id).unwrap()) {
                Some(j) => Category::Specific(j),
                None => Category::Wildcard,
            },
        }
    }

    /// Moves the handle from arena `from` to arena `to` by way of its string.
    pub fn remap_id(&mut self, from: &SearchableArena, to: &SearchableArena)
        requires
            old(self).resolves_in(from@),
            to.wf(),
        ensures
            *final(self) == old(self).remapped(from@, to@),
    {
        if let Category::Specific(cat_id) = *self {
            match from.lookup(cat_id) {
                Some(cat_str) => {
                    *self = match to.get_id(cat_str.as_str()) {
                        Some(j) => Category::Specific(j),
                        None => Category::Wildcard,
                    };
                },
                None => {},
            }
        }
    }

    /// The category's name in `arena`; nothing for the wildcard.
    pub fn to_str<'a>(&self, arena: &'a SearchableArena) -> (r: Option<&'a str>)
        requires
            self.resolves_in(arena@),
        ensures
            match *self {
                Category::Wildcard => r is None,
                Category::Specific(id) => r is Some && arena@.lookup(id) == Some(r.unwrap()@),
            },
    {
        match *self {
            Category::Specific(cat_id) => match arena.lookup(cat_id) {
                Some(s) => Some(s.as_str()),
                None => None,
            },
            Category::Wildcard => None,
        }
    }

    /// The category a limit file writes as `as_str`: `_` is the wildcard, any other name
    /// is interned in `arena`.
    pub fn from_str(as_str: &str, arena: &mut SearchableArena) -> (r: Self)
        requires
            old(arena).wf(),
        ensures
            final(arena).wf(),
            as_str@ == seq!['_'] ==> r == Category::Wildcard && final(arena)@ == old(arena)@,
            as_str@ != seq!['_'] ==> (final(arena)@, r) == (old(arena)@.get_or_insert(as_str@).0,
                Category::Specific(old(arena)@.get_or_insert(as_str@).1)),
    {
        if as_str.unicode_len() == 1 && as_str.get_char(0) == '_' {
            proof {
                assert(as_str@ == seq!['_']);
            }
            Category::Wildcard
        } else {
            Category::Specific(arena.get_or_insert(as_str))
        }
    }
}

/// The view of an optional string.
pub open spec fn opt_str_view(o: Option<String>) -> Option<Seq<char>> {
    match o {
        Some(s) => Some(s@),
        None => None,
    }
}

/// A `LimitsEntry` as a mathematical value.
pub struct EntryView {
    pub limits_file: Option<Seq<char>>,
    pub kind: Kind,
    pub category: Category,
}

impl EntryView {
    /// The same entry with the wildcard category.
    pub open spec fn without_category(self) -> EntryView {
        EntryView { category: Category::Wildcard, ..self }
    }
}

/// One threshold of the system: the limit file that declares it (none when no limit file
/// applies), the kind and the category.
#[derive(Clone, Debug, PartialEq, Eq, Hash, PartialOrd, Ord)]
pub struct LimitsEntry {
    pub limits_file: Option<String>,
    pub kind: Kind,
    pub category: Category,
}

impl View for LimitsEntry {
    type V = EntryView;

    open spec fn view(&self) -> EntryView {
        EntryView {
            limits_file: opt_str_view(self.limits_file),
            kind: self.kind,
            category: self.category,
        }
    }
}

/// A copy of an optional string.
pub fn copy_opt_string(o: &Option<String>) -> (r: Option<String>)
    ensures
        opt_str_view(r) == opt_str_view(*o),
{
    match o {
        Some(s) => Some(s.clone()),
        None => None,
    }
}

/// Whether two optional strings are equal.
pub fn same_opt_string(a: &Option<String>, b: &Option<String>) -> (r: bool)
    ensures
        r == (opt_str_view(*a) == opt_str_view(*b)),
{
    match (a, b) {
        (Some(x), Some(y)) => *x == *y,
        (None, None) => true,
        _ => false,
    }
}

impl LimitsEntry {
    pub fn new(limits_file: Option<&str>, kind: Kind, category: Category) -> (r: Self)
        ensures
            r@ == (EntryView {
                limits_file: match limits_file {
                    Some(p) => Some(p@),
                    None => None,
                },
                kind,
                category,
            }),
    {
        LimitsEntry {
            limits_file: match limits_file {
                Some(p) => Some(p.to_owned()),
                None => None,
            },
            kind,
            category,
        }
    }

    /// The same entry with the wildcard category.
    pub fn without_category(&self) -> (r: Self)
        ensures
            r@ == self@.without_category(),
    {
        LimitsEntry {
            limits_file: copy_opt_string(&self.limits_file),
            kind: self.kind,
            category: Category::Wildcard,
        }
    }

    /// A copy of the entry.
    pub fn duplicate(&self) -> (r: Self)
        ensures
            r@ == self@,
    {
        LimitsEntry { limits_file: copy_opt_string(&self.limits_file), kind: self.kind, category: self.category }
    }

    /// Whether the two entries are the same threshold.
    pub fn same_as(&self, other: &LimitsEntry) -> (r: bool)
        ensures
            r == (self@ == other@),
    {
        same_opt_string(&self.limits_file, &other.limits_file) && self.kind == other.kind
            && self.category == other.category
    }
}

/// A threshold of a kind: one number for every category, or one per category; a number
/// of none is infinite.
#[derive(Clone, Debug, PartialEq)]
pub enum Limit {
    Number(Option<u64>),
    PerCategory(Vec<(Category, Option<u64>)>),
}

/// A `Limit` as a mathematical value.
pub enum LimitView {
    Number(Option<u64>),
    PerCategory(Seq<(Category, Option<u64>)>),
}

impl View for Limit {
    type V = LimitView;

    open spec fn view(&self) -> LimitView {
        match self {
            Limit::Number(x) => LimitView::Number(*x),
            Limit::PerCategory(cats) => LimitView::PerCategory(cats@),
        }
    }
}

/// A finite threshold of zero.
pub open spec fn is_zero(x: Option<u64>) -> bool {
    x == Some(0u64)
}

/// A threshold lowered to zero; an infinite one stays infinite.
pub open spec fn zeroed_value(x: Option<u64>) -> Option<u64> {
    match x {
        Some(_) => Some(0),
        None => None,
    }
}

/// A limit with every finite threshold lowered to zero.
pub open spec fn zeroed(l: LimitView) -> LimitView {
    match l {
        LimitView::Number(x) => LimitView::Number(zeroed_value(x)),
        LimitView::PerCategory(cats) => LimitView::PerCategory(
            cats.map_values(|c: (Category, Option<u64>)| (c.0, zeroed_value(c.1))),
        ),
    }
}

/// The categories whose threshold is not zero.
pub open spec fn nonzero_categories(cats: Seq<(Category, Option<u64>)>) -> Seq<(Category, Option<u64>)> {
    cats.filter(|c: (Category, Option<u64>)| !is_zero(c.1))
}

/// A limit with its zero categories dropped: with none left it becomes zero for the
/// whole kind, with one left that one's threshold for the whole kind.
pub open spec fn pruned(l: LimitView) -> LimitView {
    match l {
        LimitView::Number(x) => LimitView::Number(x),
        LimitView::PerCategory(cats) => {
            let kept = nonzero_categories(cats);
            if kept.len() == 0 {
                LimitView::Number(Some(0))
            } else if kept.len() == 1 {
                LimitView::Number(kept[0].1)
            } else {
                LimitView::PerCategory(kept)
            }
        },
    }
}

/// The views of the limits of a file, in declaration order.
pub open spec fn limits_view(s: Seq<(Kind, Limit)>) -> Seq<(Kind, LimitView)> {
    s.map_values(|p: (Kind, Limit)| (p.0, p.1@))
}

/// The position of the last declaration of `kind`.
pub open spec fn last_kind_index(s: Seq<(Kind, LimitView)>, kind: Kind) -> Option<int>
    decreases s.len(),
{
    if s.len() == 0 {
        None
    } else if s.last().0 == kind {
        Some(s.len() - 1)
    } else {
        last_kind_index(s.drop_last(), kind)
    }
}

/// The position of the last threshold of `cat`.
pub open spec fn last_category_index(s: Seq<(Category, Option<u64>)>, cat: Category) -> Option<int>
    decreases s.len(),
{
    if s.len() == 0 {
        None
    } else if s.last().0 == cat {
        Some(s.len() - 1)
    } else {
        last_category_index(s.drop_last(), cat)
    }
}

/// Where `last_kind_index` points, `kind` is declared.
pub proof fn lemma_last_kind_index(s: Seq<(Kind, LimitView)>, kind: Kind)
    ensures
        match last_kind_index(s, kind) {
            Some(i) => 0 <= i < s.len() && s[i].0 == kind,
            None => forall|j: int| 0 <= j < s.len() ==> s[j].0 != kind,
        },
    decreases s.len(),
{
    if s.len() > 0 && s.last().0 != kind {
        lemma_last_kind_index(s.drop_last(), kind);
        assert forall|j: int| 0 <= j < s.len() - 1 implies s.drop_last()[j] == s[j] by {}
    }
}

/// Where `last_category_index` points, `cat` has its threshold.
pub proof fn lemma_last_category_index(s: Seq<(Category, Option<u64>)>, cat: Category)
    ensures
        match last_category_index(s, cat) {
            Some(i) => 0 <= i < s.len() && s[i].0 == cat,
            None => forall|j: int| 0 <= j < s.len() ==> s[j].0 != cat,
        },
    decreases s.len(),
{
    if s.len() > 0 && s.last().0 != cat {
        lemma_last_category_index(s.drop_last(), cat);
        assert forall|j: int| 0 <= j < s.len() - 1 implies s.drop_last()[j] == s[j] by {}
    }
}

/// The limit after the count `actual` is written into it for category `cat`: a finite
/// threshold becomes the count, an infinite one stays.
pub open spec fn updated(l: LimitView, cat: Category, actual: u64) -> LimitView {
    match l {
        LimitView::Number(x) => LimitView::Number(
            match x {
                Some(_) => Some(actual),
                None => None,
            },
        ),
        LimitView::PerCategory(cats) => match last_category_index(cats, cat) {
            Some(i) => match cats[i].1 {
                Some(_) => LimitView::PerCategory(cats.update(i, (cat, Some(actual)))),
                None => LimitView::PerCategory(cats),
            },
            None => LimitView::PerCategory(cats),
        },
    }
}

/// The position of the last threshold of `cat` in `cats`.
pub fn find_category(cats: &Vec<(Category, Option<u64>)>, cat: Category) -> (r: Option<usize>)
    ensures
        match r {
            Some(j) => last_category_index(cats@, cat) == Some(j as int),
            None => last_category_index(cats@, cat) is None,
        },
{
    let mut i: usize = cats.len();
    assert(cats@.take(i as int) == cats@);
    while i > 0
        invariant
            i <= cats.len(),
            last_category_index(cats@, cat) == last_category_index(cats@.take(i as int), cat),
        decreases i,
    {
        assert(cats@.take(i as int).drop_last() == cats@.take(i - 1));
        if cats[i - 1].0 == cat {
            return Some(i - 1);
        }
        i = i - 1;
    }
    None
}

/// The limits declared by one limit file, by kind, in declaration order.
#[derive(Clone, Debug, PartialEq)]
pub struct LimitsFile {
    inner: Vec<(Kind, Limit)>,
}

impl View for LimitsFile {
    type V = Seq<(Kind, LimitView)>;

    closed spec fn view(&self) -> Seq<(Kind, LimitView)> {
        limits_view(self.inner@)
    }
}

impl LimitsFile {
    /// A limit file with the given limits, in this order.
    pub fn new(limits: Vec<(Kind, Limit)>) -> (r: Self)
        ensures
            r@ == limits_view(limits@),
    {
        LimitsFile { inner: limits }
    }

    /// The limits, by kind, in declaration order.
    pub fn iter(&self) -> (r: &Vec<(Kind, Limit)>)
        ensures
            limits_view(r@) == self@,
    {
        &self.inner
    }

    /// The limit declared for `kind` (its last declaration).
    pub fn get_limit(&self, kind: &Kind) -> (r: Option<&Limit>)
        ensures
            match last_kind_index(self@, *kind) {
                Some(i) => r is Some && r.unwrap()@ == self@[i].1,
                None => r is None,
            },
    {
        let ghost v = self@;
        let mut i: usize = self.inner.len();
        assert(v.take(i as int) == v);
        while i > 0
            invariant
                i <= self.inner.len(),
                v == self@,
                last_kind_index(v, *kind) == last_kind_index(v.take(i as int), *kind),
            decreases i,
        {
            assert(v.take(i as int).drop_last() == v.take(i - 1));
            if self.inner[i - 1].0 == *kind {
                return Some(&self.inner[i - 1].1);
            }
            i = i - 1;
        }
        None
    }

    /// Lowers every finite threshold of the kinds in `these` to zero.
    pub fn zero(&mut self, these: &Vec<Kind>)
        ensures
            final(self)@ == old(self)@.map_values(
                |p: (Kind, LimitView)| if these@.contains(p.0) { (p.0, zeroed(p.1)) } else { p },
            ),
    {
        let ghost f = |p: (Kind, LimitView)| if these@.contains(p.0) { (p.0, zeroed(p.1)) } else { p };
        let ghost old_v = self@;
        let mut i: usize = 0;
        while i < self.inner.len()
            invariant
                f == (|p: (Kind, LimitView)| if these@.contains(p.0) { (p.0, zeroed(p.1)) } else { p }),
                old_v == old(self)@,
                self@.len() == old_v.len(),
                i <= self@.len(),
                forall|t: int| 0 <= t < i ==> self@[t] == f(old_v[t]),
                forall|t: int| i <= t < self@.len() ==> self@[t] == old_v[t],
            decreases self@.len() - i,
        {
            let kind = self.inner[i].0;
            let ghost prev = self@;
            if contains_kind(these, kind) {
                let zeroed_limit = zero_limit(&self.inner[i].1);
                self.inner.set(i, (kind, zeroed_limit));
                assert(self@ =~= prev.update(i as int, f(old_v[i as int])));
            }
            i = i + 1;
        }
        assert(self@ =~= old_v.map_values(f));
    }

    /// Drops the categories whose threshold is zero; a kind left with no category gets
    /// a threshold of zero, a kind left with one category gets that one's threshold.
    pub fn prune_categories(&mut self)
        ensures
            final(self)@ == old(self)@.map_values(|p: (Kind, LimitView)| (p.0, pruned(p.1))),
    {
        let ghost f = |p: (Kind, LimitView)| (p.0, pruned(p.1));
        let ghost old_v = self@;
        let mut i: usize = 0;
        while i < self.inner.len()
            invariant
                f == (|p: (Kind, LimitView)| (p.0, pruned(p.1))),
                old_v == old(self)@,
                self@.len() == old_v.len(),
                i <= self@.len(),
                forall|t: int| 0 <= t < i ==> self@[t] == f(old_v[t]),
                forall|t: int| i <= t < self@.len() ==> self@[t] == old_v[t],
            decreases self@.len() - i,
        {
            let kind = self.inner[i].0;
            let ghost prev = self@;
            let pruned_limit = prune_limit(&self.inner[i].1);
            self.inner.set(i, (kind, pruned_limit));
            assert(self@ =~= prev.update(i as int, f(old_v[i as int])));
            i = i + 1;
        }
        assert(self@ =~= old_v.map_values(f));
    }

    /// Writes the observed count of `updated_count` into the threshold it was held
    /// against; infinite thresholds stay. The kind, and for a per-category limit the
    /// category, must be declared here.
    pub fn update_limits(&mut self, updated_count: &EntryCount)
        requires
            last_kind_index(old(self)@, updated_count@.entry.kind) is Some,
            match old(self)@[last_kind_index(old(self)@, updated_count@.entry.kind).unwrap()].1 {
                LimitView::PerCategory(cats) => last_category_index(cats, updated_count@.entry.category) is Some,
                LimitView::Number(_) => true,
            },
        ensures
            final(self)@ == old(self)@.update(
                last_kind_index(old(self)@, updated_count@.entry.kind).unwrap(),
                (
                    updated_count@.entry.kind,
                    updated(
                        old(self)@[last_kind_index(old(self)@, updated_count@.entry.kind).unwrap()].1,
                        updated_count@.entry.category,
                        updated_count@.actual,
                    ),
                ),
            ),
    {
        let kind = updated_count.entry().kind;
        let cat = updated_count.entry().category;
        let actual = updated_count.actual();
        let ghost v = self@;
        let idx = match find_kind(&self.inner, kind) {
            Some(i) => i,
            None => {
                return;
            },
        };
        proof {
            lemma_last_kind_index(v, kind);
        }
        let new_limit = updated_limit(&self.inner[idx].1, cat, actual);
        self.inner.set(idx, (kind, new_limit));
        assert(self@ =~= v.update(idx as int, (kind, updated(v[idx as int].1, cat, actual))));
    }
}

/// A copy of `l` with the count `actual` written into the threshold of category `cat`.
fn updated_limit(l: &Limit, cat: Category, actual: u64) -> (r: Limit)
    ensures
        r@ == updated(l@, cat, actual),
{
    match l {
        Limit::Number(x) => Limit::Number(
            match x {
                Some(_) => Some(actual),
                None => None,
            },
        ),
        Limit::PerCategory(cats) => {
            proof {
                lemma_last_category_index(cats@, cat);
            }
            let new_cats = match find_category(cats, cat) {
                Some(j) => {
                    let mut c = copy_categories(cats);
                    if cats[j].1.is_some() {
                        c.set(j, (cat, Some(actual)));
                    }
                    c
                },
                None => copy_categories(cats),
            };
            Limit::PerCategory(new_cats)
        },
    }
}

/// The position of the last declaration of `kind`.
fn find_kind(inner: &Vec<(Kind, Limit)>, kind: Kind) -> (r: Option<usize>)
    ensures
        match r {
            Some(j) => last_kind_index(limits_view(inner@), kind) == Some(j as int),
            None => last_kind_index(limits_view(inner@), kind) is None,
        },
{
    let ghost v = limits_view(inner@);
    let mut i: usize = inner.len();
    assert(v.take(i as int) == v);
    while i > 0
        invariant
            i <= inner.len(),
            v == limits_view(inner@),
            last_kind_index(v, kind) == last_kind_index(v.take(i as int), kind),
        decreases i,
    {
        assert(v.take(i as int).drop_last() == v.take(i - 1));
        if inner[i - 1].0 == kind {
            return Some(i - 1);
        }
        i = i - 1;
    }
    None
}

/// A copy of a list of category thresholds.
pub fn copy_categories(cats: &Vec<(Category, Option<u64>)>) -> (r: Vec<(Category, Option<u64>)>)
    ensures
        r@ == cats@,
{
    let mut out: Vec<(Category, Option<u64>)> = Vec::new();
    let mut j: usize = 0;
    while j < cats.len()
        invariant
            j <= cats.len(),
            out@ == cats@.take(j as int),
        decreases cats.len() - j,
    {
        out.push(cats[j]);
        assert(cats@.take(j + 1) == cats@.take(j as int).push(cats@[j as int]));
        j = j + 1;
    }
    assert(cats@.take(j as int) == cats@);
    out
}

/// Whether `kinds` holds `kind`.
pub fn contains_kind(kinds: &Vec<Kind>, kind: Kind) -> (r: bool)
    ensures
        r == kinds@.contains(kind),
{
    let mut i: usize = 0;
    while i < kinds.len()
        invariant
            i <= kinds.len(),
            forall|t: int| 0 <= t < i ==> kinds@[t] != kind,
        decreases kinds.len() - i,
    {
        if kinds[i] == kind {
            return true;
        }
        i = i + 1;
    }
    false
}

/// A copy of `l` with every finite threshold lowered to zero.
fn zero_limit(l: &Limit) -> (r: Limit)
    ensures
        r@ == zeroed(l@),
{
    match l {
        Limit::Number(Some(_)) => Limit::Number(Some(0)),
        Limit::Number(None) => Limit::Number(None),
        Limit::PerCategory(cats) => {
            let mut out: Vec<(Category, Option<u64>)> = Vec::new();
            let mut j: usize = 0;
            while j < cats.len()
                invariant
                    j <= cats.len(),
                    out@ == cats@.take(j as int).map_values(|c: (Category, Option<u64>)| (c.0, zeroed_value(c.1))),
                decreases cats.len() - j,
            {
                let (c, x) = cats[j];
                let z = match x {
                    Some(_) => Some(0),
                    None => None,
                };
                out.push((c, z));
                assert(cats@.take(j + 1).map_values(|c: (Category, Option<u64>)| (c.0, zeroed_value(c.1)))
                    =~= cats@.take(j as int).map_values(|c: (Category, Option<u64>)| (c.0, zeroed_value(c.1))).push(
                    (c, z),
                ));
                j = j + 1;
            }
            assert(cats@.take(j as int) == cats@);
            Limit::PerCategory(out)
        },
    }
}

/// A copy of `l` with its zero categories dropped and collapsed as `pruned` says.
fn prune_limit(l: &Limit) -> (r: Limit)
    ensures
        r@ == pruned(l@),
{
    match l {
        Limit::Number(x) => Limit::Number(*x),
        Limit::PerCategory(cats) => {
            let ghost nz = |c: (Category, Option<u64>)| !is_zero(c.1);
            let mut kept: Vec<(Category, Option<u64>)> = Vec::new();
            let mut j: usize = 0;
            proof {
                reveal(Seq::filter);
                assert(cats@.take(0).filter(nz) =~= Seq::<(Category, Option<u64>)>::empty());
            }
            while j < cats.len()
                invariant
                    nz == (|c: (Category, Option<u64>)| !is_zero(c.1)),
                    j <= cats.len(),
                    kept@ == cats@.take(j as int).filter(nz),
                decreases cats.len() - j,
            {
                proof {
                    assert(cats@.take(j + 1) == cats@.take(j as int).push(cats@[j as int]));
                    cats@.take(j as int).lemma_filter_push(cats@[j as int], nz);
                }
                let (c, x) = cats[j];
                if x != Some(0u64) {
                    kept.push((c, x));
                }
                j = j + 1;
            }
            assert(cats@.take(j as int) == cats@);
            if kept.len() == 0 {
                Limit::Number(Some(0))
            } else if kept.len() == 1 {
                Limit::Number(kept[0].1)
            } else {
                Limit::PerCategory(kept)
            }
        },
    }
}

/// A per-category limit whose thresholds are all zero collapses to zero for the whole
/// kind; one where a single category keeps a threshold other than zero collapses to
/// that threshold for the whole kind.
pub proof fn lemma_prune_collapses(cats: Seq<(Category, Option<u64>)>)
    ensures
        (forall|i: int| 0 <= i < cats.len() ==> is_zero(#[trigger] cats[i].1)) ==> pruned(
            LimitView::PerCategory(cats),
        ) == LimitView::Number(Some(0)),
        nonzero_categories(cats).len() == 1 ==> pruned(LimitView::PerCategory(cats)) == LimitView::Number(
            nonzero_categories(cats)[0].1,
        ),
{
    let nz = |c: (Category, Option<u64>)| !is_zero(c.1);
    if forall|i: int| 0 <= i < cats.len() ==> is_zero(#[trigger] cats[i].1) {
        cats.lemma_all_neg_filter_empty(nz);
    }
}

/// A threshold as a limit file writes it: an integer, `inf`, or anything else (which is
/// refused).
#[derive(Clone, Copy, Debug, PartialEq, Eq, Structural)]
pub enum RawLimitValue {
    Integer(u64),
    Infinity,
    Invalid,
}

/// The limit of one kind as a limit file writes it: one threshold, or a table of
/// thresholds by category name (`_` for the wildcard).
#[derive(Clone, Debug, PartialEq)]
pub enum RawLimitEntry {
    Number(RawLimitValue),
    PerCategory(Vec<(String, RawLimitValue)>),
}

/// A `RawLimitEntry` as a mathematical value.
pub enum RawEntryView {
    Number(RawLimitValue),
    PerCategory(Seq<(Seq<char>, RawLimitValue)>),
}

impl View for RawLimitEntry {
    type V = RawEntryView;

    open spec fn view(&self) -> RawEntryView {
        match self {
            RawLimitEntry::Number(x) => RawEntryView::Number(*x),
            RawLimitEntry::PerCategory(cats) => RawEntryView::PerCategory(
                cats@.map_values(|c: (String, RawLimitValue)| (c.0@, c.1)),
            ),
        }
    }
}

/// The views of the entries of a limit file as written.
pub open spec fn raw_view(raw: Seq<(String, RawLimitEntry)>) -> Seq<(Seq<char>, RawEntryView)> {
    raw.map_values(|p: (String, RawLimitEntry)| (p.0@, p.1@))
}

/// Why a limit file was refused.
#[derive(Clone, Debug, PartialEq, Eq)]
pub enum LimitsError {
    /// The file names a kind that the settings do not configure.
    UnknownKind(String),
    /// The file gives per-category thresholds for a kind whose regular expression
    /// captures no category.
    NotCategorizable(String),
    /// A threshold is neither a non-negative integer nor `inf`.
    InvalidValue,
}

/// A `LimitsError` as a mathematical value.
pub enum LimitsErrorView {
    UnknownKind(Seq<char>),
    NotCategorizable(Seq<char>),
    InvalidValue,
}

impl View for LimitsError {
    type V = LimitsErrorView;

    open spec fn view(&self) -> LimitsErrorView {
        match self {
            LimitsError::UnknownKind(k) => LimitsErrorView::UnknownKind(k@),
            LimitsError::NotCategorizable(k) => LimitsErrorView::NotCategorizable(k@),
            LimitsError::InvalidValue => LimitsErrorView::InvalidValue,
        }
    }
}

/// The threshold a written value stands for; none for a refused value.
pub open spec fn limit_value(v: RawLimitValue) -> Option<Option<u64>> {
    match v {
        RawLimitValue::Integer(i) => Some(Some(i)),
        RawLimitValue::Infinity => Some(None),
        RawLimitValue::Invalid => None,
    }
}

/// The category a written name stands for, and the arena after interning it.
pub open spec fn category_named(a: ArenaView, name: Seq<char>) -> (ArenaView, Category) {
    if name == seq!['_'] {
        (a, Category::Wildcard)
    } else {
        (a.get_or_insert(name).0, Category::Specific(a.get_or_insert(name).1))
    }
}

/// The per-category thresholds a written table stands for, in order, and the arena
/// after interning the names; none at the first refused value.
pub open spec fn convert_categories(a: ArenaView, cats: Seq<(Seq<char>, RawLimitValue)>) -> (
    ArenaView,
    Option<Seq<(Category, Option<u64>)>>,
)
    decreases cats.len(),
{
    if cats.len() == 0 {
        (a, Some(Seq::empty()))
    } else {
        let prev = convert_categories(a, cats.drop_last());
        match prev.1 {
            None => prev,
            Some(cs) => match limit_value(cats.last().1) {
                None => (prev.0, None),
                Some(l) => {
                    let named = category_named(prev.0, cats.last().0);
                    (named.0, Some(cs.push((named.1, l))))
                },
            },
        }
    }
}

/// The limits a written limit file stands for, in order, and the arena after interning
/// the category names; the first error when there is one. Kinds are looked up in the
/// arena, where the settings named them.
pub open spec fn convert_limits(a: ArenaView, raw: Seq<(Seq<char>, RawEntryView)>, categorizables: Seq<Kind>) -> (
    ArenaView,
    Result<Seq<(Kind, LimitView)>, LimitsErrorView>,
)
    decreases raw.len(),
{
    if raw.len() == 0 {
        (a, Ok(Seq::empty()))
    } else {
        let prev = convert_limits(a, raw.drop_last(), categorizables);
        let key = raw.last().0;
        match prev.1 {
            Err(e) => prev,
            Ok(ls) => match prev.0.get_id(key) {
                None => (prev.0, Err(LimitsErrorView::UnknownKind(key))),
                Some(id) => match raw.last().1 {
                    RawEntryView::Number(v) => match limit_value(v) {
                        None => (prev.0, Err(LimitsErrorView::InvalidValue)),
                        Some(l) => (prev.0, Ok(ls.push((Kind(id), LimitView::Number(l))))),
                    },
                    RawEntryView::PerCategory(cats) => if !categorizables.contains(Kind(id)) {
                        (prev.0, Err(LimitsErrorView::NotCategorizable(key)))
                    } else {
                        let conv = convert_categories(prev.0, cats);
                        match conv.1 {
                            None => (conv.0, Err(LimitsErrorView::InvalidValue)),
                            Some(cs) => (conv.0, Ok(ls.push((Kind(id), LimitView::PerCategory(cs))))),
                        }
                    },
                },
            },
        }
    }
}

/// Once a table has a refused value, the rest of it changes nothing.
pub proof fn lemma_categories_stop(a: ArenaView, cats: Seq<(Seq<char>, RawLimitValue)>, k: int, n: int)
    requires
        0 <= k <= n <= cats.len(),
        convert_categories(a, cats.take(k)).1 is None,
    ensures
        convert_categories(a, cats.take(n)) == convert_categories(a, cats.take(k)),
    decreases n - k,
{
    if n > k {
        lemma_categories_stop(a, cats, k, n - 1);
        assert(cats.take(n).drop_last() == cats.take(n - 1));
    }
}

/// Once a limit file has an error, the rest of it changes nothing.
pub proof fn lemma_limits_stop(a: ArenaView, raw: Seq<(Seq<char>, RawEntryView)>, cz: Seq<Kind>, k: int, n: int)
    requires
        0 <= k <= n <= raw.len(),
        convert_limits(a, raw.take(k), cz).1 is Err,
    ensures
        convert_limits(a, raw.take(n), cz) == convert_limits(a, raw.take(k), cz),
    decreases n - k,
{
    if n > k {
        lemma_limits_stop(a, raw, cz, k, n - 1);
        assert(raw.take(n).drop_last() == raw.take(n - 1));
    }
}

/// The threshold a written value stands for.
pub fn to_limit(v: RawLimitValue) -> (r: Result<Option<u64>, LimitsError>)
    ensures
        match limit_value(v) {
            Some(l) => r == Ok::<Option<u64>, LimitsError>(l),
            None => r is Err && r->Err_0@ == LimitsErrorView::InvalidValue,
        },
{
    match v {
        RawLimitValue::Integer(i) => Ok(Some(i)),
        RawLimitValue::Infinity => Ok(None),
        RawLimitValue::Invalid => Err(LimitsError::InvalidValue),
    }
}

/// The thresholds of a written per-category table.
fn categories_from_raw(arena: &mut SearchableArena, cats: &Vec<(String, RawLimitValue)>) -> (r: Option<
    Vec<(Category, Option<u64>)>,
>)
    requires
        old(arena).wf(),
    ensures
        final(arena).wf(),
        final(arena)@ == convert_categories(old(arena)@, cats@.map_values(|c: (String, RawLimitValue)| (c.0@, c.1))).0,
        match r {
            Some(v) => convert_categories(old(arena)@, cats@.map_values(|c: (String, RawLimitValue)| (c.0@, c.1))).1
                == Some(v@),
            None => convert_categories(old(arena)@, cats@.map_values(|c: (String, RawLimitValue)| (c.0@, c.1))).1 is None,
        },
{
    let ghost cv = cats@.map_values(|c: (String, RawLimitValue)| (c.0@, c.1));
    let mut out: Vec<(Category, Option<u64>)> = Vec::new();
    let mut k: usize = 0;
    while k < cats.len()
        invariant
            arena.wf(),
            cv == cats@.map_values(|c: (String, RawLimitValue)| (c.0@, c.1)),
            k <= cats.len(),
            arena@ == convert_categories(old(arena)@, cv.take(k as int)).0,
            convert_categories(old(arena)@, cv.take(k as int)).1 == Some(out@),
        decreases cats.len() - k,
    {
        proof {
            assert(cv.take(k + 1).drop_last() == cv.take(k as int));
            assert(cv.take(k + 1).last() == cv[k as int]);
        }
        let limit = match to_limit(cats[k].1) {
            Ok(l) => l,
            Err(_) => {
                proof {
                    lemma_categories_stop(old(arena)@, cv, k + 1, cv.len() as int);
                    assert(cv.take(cv.len() as int) == cv);
                }
                return None;
            },
        };
        let category = Category::from_str(cats[k].0.as_str(), arena);
        out.push((category, limit));
        k = k + 1;
    }
    assert(cv.take(k as int) == cv);
    Some(out)
}

/// Builds the limit file that `raw` writes: each kind must be configured (named in
/// `arena`), per-category thresholds are only allowed for `categorizables`, and every
/// threshold must be a non-negative integer or `inf`. Category names are interned in
/// `arena`.
pub fn limits_file_from_raw(
    arena: &mut SearchableArena,
    raw: &Vec<(String, RawLimitEntry)>,
    categorizables: &Vec<Kind>,
) -> (r: Result<LimitsFile, LimitsError>)
    requires
        old(arena).wf(),
    ensures
        final(arena).wf(),
        final(arena)@ == convert_limits(old(arena)@, raw_view(raw@), categorizables@).0,
        match r {
            Ok(f) => convert_limits(old(arena)@, raw_view(raw@), categorizables@).1 == Ok::<
                Seq<(Kind, LimitView)>,
                LimitsErrorView,
            >(f@),
            Err(e) => convert_limits(old(arena)@, raw_view(raw@), categorizables@).1 == Err::<
                Seq<(Kind, LimitView)>,
                LimitsErrorView,
            >(e@),
        },
{
    let ghost rv = raw_view(raw@);
    let mut result: Vec<(Kind, Limit)> = Vec::new();
    let mut i: usize = 0;
    assert(rv.take(0) =~= Seq::<(Seq<char>, RawEntryView)>::empty());
    assert(limits_view(result@) =~= Seq::<(Kind, LimitView)>::empty());
    while i < raw.len()
        invariant
            arena.wf(),
            rv == raw_view(raw@),
            i <= raw.len(),
            arena@ == convert_limits(old(arena)@, rv.take(i as int), categorizables@).0,
            convert_limits(old(arena)@, rv.take(i as int), categorizables@).1 == Ok::<
                Seq<(Kind, LimitView)>,
                LimitsErrorView,
            >(limits_view(result@)),
        decreases raw.len() - i,
    {
        proof {
            assert(rv.take(i + 1).drop_last() == rv.take(i as int));
            assert(rv.take(i + 1).last() == rv[i as int]);
        }
        let key = &raw[i].0;
        let kind = match arena.get_id(key.as_str()) {
            Some(id) => Kind(id),
            None => {
                proof {
                    lemma_limits_stop(old(arena)@, rv, categorizables@, i + 1, rv.len() as int);
                    assert(rv.take(rv.len() as int) == rv);
                }
                return Err(LimitsError::UnknownKind(key.clone()));
            },
        };
        let converted = match &raw[i].1 {
            RawLimitEntry::Number(x) => match to_limit(*x) {
                Ok(l) => Limit::Number(l),
                Err(e) => {
                    proof {
                        lemma_limits_stop(old(arena)@, rv, categorizables@, i + 1, rv.len() as int);
                        assert(rv.take(rv.len() as int) == rv);
                    }
                    return Err(e);
                },
            },
            RawLimitEntry::PerCategory(dict) => {
                if !contains_kind(categorizables, kind) {
                    proof {
                        lemma_limits_stop(old(arena)@, rv, categorizables@, i + 1, rv.len() as int);
                        assert(rv.take(rv.len() as int) == rv);
                    }
                    return Err(LimitsError::NotCategorizable(key.clone()));
                }
                match categories_from_raw(arena, dict) {
                    Some(per_category) => Limit::PerCategory(per_category),
                    None => {
                        proof {
                            lemma_limits_stop(old(arena)@, rv, categorizables@, i + 1, rv.len() as int);
                            assert(rv.take(rv.len() as int) == rv);
                        }
                        return Err(LimitsError::InvalidValue);
                    },
                }
            },
        };
        let ghost before = result@;
        result.push((kind, converted));
        assert(limits_view(result@) =~= limits_view(before).push((kind, converted@)));
        i = i + 1;
    }
    assert(rv.take(i as int) == rv);
    Ok(LimitsFile { inner: result })
}

/// The name a category is written under: `_` for the wildcard.
pub open spec fn category_name(a: ArenaView, c: Category) -> Seq<char> {
    match c {
        Category::Wildcard => seq!['_'],
        Category::Specific(id) => a.lookup(id).unwrap(),
    }
}

/// How a threshold is written.
pub open spec fn written_value(x: Option<u64>) -> RawLimitValue {
    match x {
        Some(n) => RawLimitValue::Integer(n),
        None => RawLimitValue::Infinity,
    }
}

/// How a limit is written.
pub open spec fn written_entry(a: ArenaView, l: LimitView) -> RawEntryView {
    match l {
        LimitView::Number(x) => RawEntryView::Number(written_value(x)),
        LimitView::PerCategory(cats) => RawEntryView::PerCategory(
            cats.map_values(|c: (Category, Option<u64>)| (category_name(a, c.0), written_value(c.1))),
        ),
    }
}

/// Every category names a string of `a`.
pub open spec fn categories_resolve_in(cats: Seq<(Category, Option<u64>)>, a: ArenaView) -> bool {
    forall|j: int| 0 <= j < cats.len() ==> (#[trigger] cats[j]).0.resolves_in(a)
}

/// Every category of the limit names a string of `a`.
pub open spec fn limit_resolves_in(l: LimitView, a: ArenaView) -> bool {
    match l {
        LimitView::Number(_) => true,
        LimitView::PerCategory(cats) => categories_resolve_in(cats, a),
    }
}

/// Every handle of the limits names a string of `a`.
pub open spec fn limits_resolve_in(ls: Seq<(Kind, LimitView)>, a: ArenaView) -> bool {
    forall|i: int|
        0 <= i < ls.len() ==> a.lookup((#[trigger] ls[i]).0.0) is Some && limit_resolves_in(ls[i].1, a)
}

/// How a threshold is written.
fn write_value(x: Option<u64>) -> (r: RawLimitValue)
    ensures
        r == written_value(x),
{
    match x {
        Some(n) => RawLimitValue::Integer(n),
        None => RawLimitValue::Infinity,
    }
}

impl LimitsFile {
    /// The file as it is written: kind names with their thresholds, in declaration
    /// order; category names with `_` for the wildcard, and `inf` for infinite
    /// thresholds.
    pub fn as_serializable(&self, arena: &SearchableArena) -> (r: Vec<(String, RawLimitEntry)>)
        requires
            limits_resolve_in(self@, arena@),
        ensures
            raw_view(r@) == self@.map_values(
                |p: (Kind, LimitView)| (arena@.lookup(p.0.0).unwrap(), written_entry(arena@, p.1)),
            ),
    {
        let ghost f = |p: (Kind, LimitView)| (arena@.lookup(p.0.0).unwrap(), written_entry(arena@, p.1));
        let mut out: Vec<(String, RawLimitEntry)> = Vec::new();
        let mut i: usize = 0;
        while i < self.inner.len()
            invariant
                limits_resolve_in(self@, arena@),
                f == (|p: (Kind, LimitView)| (arena@.lookup(p.0.0).unwrap(), written_entry(arena@, p.1))),
                i <= self@.len(),
                raw_view(out@) == self@.take(i as int).map_values(f),
            decreases self@.len() - i,
        {
            let ghost item = self@[i as int];
            let kind = self.inner[i].0;
            let name = kind.to_str(arena).to_owned();
            let written = match &self.inner[i].1 {
                Limit::Number(x) => RawLimitEntry::Number(write_value(*x)),
                Limit::PerCategory(cats) => {
                    let mut dict: Vec<(String, RawLimitValue)> = Vec::new();
                    let mut k: usize = 0;
                    while k < cats.len()
                        invariant
                            limits_resolve_in(self@, arena@),
                            i < self@.len(),
                            item == self@[i as int],
                            item.1 == LimitView::PerCategory(cats@),
                            k <= cats.len(),
                            dict@.map_values(|c: (String, RawLimitValue)| (c.0@, c.1)) == cats@.take(k as int).map_values(
                                |c: (Category, Option<u64>)| (category_name(arena@, c.0), written_value(c.1)),
                            ),
                        decreases cats.len() - k,
                    {
                        let (c, x) = cats[k];
                        assert(limit_resolves_in(item.1, arena@));
                        assert(categories_resolve_in(cats@, arena@));
                        assert(cats@[k as int].0.resolves_in(arena@));
                        let cat_name = match c.to_str(arena) {
                            Some(n) => n.to_owned(),
                            None => {
                                proof {
                                    reveal_strlit("_");
                                }
                                "_".to_owned()
                            },
                        };
                        assert(cat_name@ == category_name(arena@, c));
                        let ghost before = dict@;
                        let ghost g = |c: (String, RawLimitValue)| (c.0@, c.1);
                        let ghost h = |c: (Category, Option<u64>)| (category_name(arena@, c.0), written_value(c.1));
                        let wv = write_value(x);
                        let ghost pushed = (cat_name@, wv);
                        dict.push((cat_name, wv));
                        assert(cats@.take(k + 1) == cats@.take(k as int).push(cats@[k as int]));
                        assert(dict@.map_values(g) =~= before.map_values(g).push(pushed));
                        assert(cats@.take(k + 1).map_values(h) =~= cats@.take(k as int).map_values(h).push(h(cats@[k as int])));
                        assert(dict@.map_values(|c: (String, RawLimitValue)| (c.0@, c.1)) =~= cats@.take(k + 1).map_values(
                            |c: (Category, Option<u64>)| (category_name(arena@, c.0), written_value(c.1)),
                        ));
                        k = k + 1;
                    }
                    assert(cats@.take(k as int) == cats@);
                    RawLimitEntry::PerCategory(dict)
                },
            };
            assert(name@ == arena@.lookup(kind.0).unwrap());
            assert(written@ == written_entry(arena@, item.1));
            let ghost before = out@;
            let ghost pushed = (name@, written@);
            out.push((name, written));
            assert(self@.take(i + 1) == self@.take(i as int).push(item));
            assert(raw_view(out@) =~= raw_view(before).push(pushed));
            assert(self@.take(i + 1).map_values(f) =~= self@.take(i as int).map_values(f).push(f(item)));
            assert(raw_view(out@) =~= self@.take(i + 1).map_values(f));
            i = i + 1;
        }
        assert(self@.take(i as int) == self@);
        out
    }
}

} // verus!
