//! What counts as a warning, and how counts compare with thresholds.
use crate::arena::{ArenaView, SearchableArena, StrId};
use crate::limits::{Category, EntryView, LimitsEntry};
use crate::order::{compare_counts, first_after, insert_sorted, lemma_first_after, lemma_insert_sorted, sorted_counts};
use crate::settings::Kind;
use vstd::prelude::*;

verus! {

/// The optional free text of a warning, as a handle into an arena.
#[derive(Clone, Copy, Debug, PartialEq, Eq, Hash, PartialOrd, Ord, Structural)]
pub struct Description(pub Option<StrId>);

impl Description {
    pub fn new(id: StrId) -> (r: Self)
        ensures
            r == Description(Some(id)),
    {
        Description(Some(id))
    }

    /// No description.
    pub fn none() -> (r: Self)
        ensures
            r == Description(None),
    {
        Description(None)
    }

    /// The description names a string of `arena` (an absent one always does).
    pub open spec fn resolves_in(self, arena: ArenaView) -> bool {
        match self.0 {
            None => true,
            Some(id) => arena.lookup(id) is Some,
        }
    }

    /// The description of arena `to` with the same text as `self` has in `from`; none
    /// when `to` does not hold that text.
    pub open spec fn remapped(self, from: ArenaView, to: ArenaView) -> Description {
        match self.0 {
            None => Description(None),
            Some(id) => Description(to.get_id(from.lookup(id).unwrap())),
        }
    }

    /// Moves the handle from arena `from` to arena `to` by way of its string.
    pub fn remap_id(&mut self, from: &SearchableArena, to: &SearchableArena)
        requires
            old(self).resolves_in(from@),
            to.wf(),
        ensures
            *final(self) == old(self).remapped(from@, to@),
    {
        if let Some(desc_id) = self.0 {
            if let Some(desc_str) = from.lookup(desc_id) {
                self.0 = to.get_id(desc_str.as_str());
            }
        }
    }

    /// The description's text in `arena`.
    pub fn to_str<'a>(&self, arena: &'a SearchableArena) -> (r: Option<&'a str>)
        requires
            self.resolves_in(arena@),
        ensures
            match self.0 {
                None => r is None,
                Some(id) => r is Some && arena@.lookup(id) == Some(r.unwrap()@),
            },
    {
        match self.0 {
            Some(desc_id) => match arena.lookup(desc_id) {
                Some(s) => Some(s.as_str()),
                None => None,
            },
            None => None,
        }
    }
}

/// A `CountsTowardsLimit` as a mathematical value.
pub struct WarningView {
    pub culprit: Seq<char>,
    pub line: Option<usize>,
    pub column: Option<usize>,
    pub kind: Kind,
    pub category: Category,
    pub description: Description,
}

impl WarningView {
    /// Its handles resolve in `arena`.
    pub open spec fn resolves_in(self, arena: ArenaView) -> bool {
        self.category.resolves_in(arena) && self.description.resolves_in(arena)
    }

    /// The same warning with its category and description moved from `from` to `to`.
    pub open spec fn remapped(self, from: ArenaView, to: ArenaView) -> WarningView {
        WarningView {
            category: self.category.remapped(from, to),
            description: self.description.remapped(from, to),
            ..self
        }
    }
}

/// One observed warning: the culprit file, the line and column when known (both counted
/// from 1), the kind, the category and the description. All of them make up its
/// identity.
#[derive(Clone, Debug, PartialEq, Eq, Hash)]
pub struct CountsTowardsLimit {
    culprit: String,
    line: Option<usize>,
    column: Option<usize>,
    kind: Kind,
    category: Category,
    description: Description,
}

impl View for CountsTowardsLimit {
    type V = WarningView;

    closed spec fn view(&self) -> WarningView {
        WarningView {
            culprit: self.culprit@,
            line: self.line,
            column: self.column,
            kind: self.kind,
            category: self.category,
            description: self.description,
        }
    }
}

impl CountsTowardsLimit {
    pub fn new(
        culprit_file: String,
        line: Option<usize>,
        column: Option<usize>,
        kind: Kind,
        category: Category,
        desc: Description,
    ) -> (r: Self)
        ensures
            r@ == (WarningView {
                culprit: culprit_file@,
                line,
                column,
                kind,
                category,
                description: desc,
            }),
    {
        CountsTowardsLimit {
            culprit: culprit_file,
            line,
            column,
            kind,
            category,
            description: desc,
        }
    }

    /// The file the warning is blamed on.
    pub fn culprit(&self) -> (r: &String)
        ensures
            r@ == self@.culprit,
    {
        &self.culprit
    }

    pub fn line(&self) -> (r: Option<usize>)
        ensures
            r == self@.line,
    {
        self.line
    }

    pub fn column(&self) -> (r: Option<usize>)
        ensures
            r == self@.column,
    {
        self.column
    }

    pub fn category(&self) -> (r: Category)
        ensures
            r == self@.category,
    {
        self.category
    }

    pub fn description(&self) -> (r: Description)
        ensures
            r == self@.description,
    {
        self.description
    }

    /// The same warning with its category and description moved from `from` to `to`.
    pub fn remap(self, from: &SearchableArena, to: &SearchableArena) -> (r: Self)
        requires
            self@.resolves_in(from@),
            to.wf(),
        ensures
            r@ == self@.remapped(from@, to@),
    {
        let mut w = self;
        w.category.remap_id(from, to);
        w.description.remap_id(from, to);
        w
    }

    /// A copy of the warning.
    pub fn duplicate(&self) -> (r: Self)
        ensures
            r@ == self@,
    {
        CountsTowardsLimit {
            culprit: self.culprit.clone(),
            line: self.line,
            column: self.column,
            kind: self.kind,
            category: self.category,
            description: self.description,
        }
    }

    /// Whether the two are the same warning.
    pub fn same_as(&self, other: &CountsTowardsLimit) -> (r: bool)
        ensures
            r == (self@ == other@),
    {
        self.culprit == other.culprit && self.line == other.line && self.column == other.column
            && self.kind == other.kind && self.category == other.category
            && self.description == other.description
    }
}

/// An `EntryCount` as a mathematical value.
pub struct CountView {
    pub entry: EntryView,
    pub limit: Option<u64>,
    pub actual: u64,
}

impl CountView {
    /// The count breaks its threshold: the threshold is finite and the count exceeds it.
    pub open spec fn is_violation(self) -> bool {
        match self.limit {
            Some(l) => self.actual > l,
            None => false,
        }
    }
}

/// A threshold together with the number of warnings observed for it; `limit` none is an
/// infinite threshold.
#[derive(Clone, Debug)]
pub struct EntryCount {
    entry: LimitsEntry,
    limit: Option<u64>,
    actual: u64,
}

impl View for EntryCount {
    type V = CountView;

    closed spec fn view(&self) -> CountView {
        CountView { entry: self.entry@, limit: self.limit, actual: self.actual }
    }
}

impl EntryCount {
    pub fn new(limits_entry: &LimitsEntry, threshold: Option<u64>, num_warnings: u64) -> (r: Self)
        ensures
            r@ == (CountView { entry: limits_entry@, limit: threshold, actual: num_warnings }),
    {
        EntryCount { entry: limits_entry.duplicate(), limit: threshold, actual: num_warnings }
    }

    pub fn entry(&self) -> (r: &LimitsEntry)
        ensures
            r@ == self@.entry,
    {
        &self.entry
    }

    pub fn limit(&self) -> (r: Option<u64>)
        ensures
            r == self@.limit,
    {
        self.limit
    }

    pub fn actual(&self) -> (r: u64)
        ensures
            r == self@.actual,
    {
        self.actual
    }

    /// Whether the count breaks its threshold.
    pub fn is_violation(&self) -> (r: bool)
        ensures
            r == self@.is_violation(),
    {
        match self.limit {
            Some(l) => self.actual > l,
            None => false,
        }
    }
}

/// The views of a sequence of counts.
pub open spec fn counts_view(s: Seq<EntryCount>) -> Seq<CountView> {
    s.map_values(|c: EntryCount| c@)
}

/// Inserts `entry` after every count of `v` that does not come after it.
fn insert_in_order(v: &mut Vec<EntryCount>, entry: EntryCount)
    ensures
        counts_view(final(v)@) == insert_sorted(counts_view(old(v)@), entry@),
{
    let ghost s = counts_view(v@);
    let mut i: usize = 0;
    proof {
        lemma_first_after(s, entry@, 0);
    }
    while i < v.len() && compare_counts(&v[i], &entry) <= 0
        invariant
            s == counts_view(v@),
            i <= v.len(),
            first_after(s, entry@, 0) == first_after(s, entry@, i as int),
        decreases v.len() - i,
    {
        i = i + 1;
    }
    let ghost x = entry@;
    v.insert(i, entry);
    assert(counts_view(v@) =~= s.insert(i as int, x));
}

/// Every threshold with its count, split into violations and the others, each list
/// sorted in reporting order (counts that compare equal stay in the order they were
/// added).
pub struct FinalTally {
    violations: Vec<EntryCount>,
    others: Vec<EntryCount>,
}

impl FinalTally {
    /// The counts that break their thresholds.
    pub closed spec fn violations_view(self) -> Seq<CountView> {
        counts_view(self.violations@)
    }

    /// The counts that keep within their thresholds.
    pub closed spec fn others_view(self) -> Seq<CountView> {
        counts_view(self.others@)
    }

    /// Both lists are sorted.
    pub open spec fn wf(self) -> bool {
        sorted_counts(self.violations_view()) && sorted_counts(self.others_view())
    }

    pub fn new(capacity: usize) -> (r: Self)
        ensures
            r.wf(),
            r.violations_view() == Seq::<CountView>::empty(),
            r.others_view() == Seq::<CountView>::empty(),
    {
        let r = FinalTally { violations: Vec::with_capacity(capacity), others: Vec::with_capacity(capacity) };
        assert(r.violations_view() =~= Seq::<CountView>::empty());
        assert(r.others_view() =~= Seq::<CountView>::empty());
        r
    }

    /// Files the count under the violations when it breaks its threshold, else under the
    /// others, after every count of that list that does not come after it.
    pub fn add(&mut self, entry: EntryCount)
        requires
            old(self).wf(),
        ensures
            final(self).wf(),
            entry@.is_violation() ==> final(self).violations_view() == insert_sorted(old(self).violations_view(), entry@)
                && final(self).others_view() == old(self).others_view(),
            !entry@.is_violation() ==> final(self).others_view() == insert_sorted(old(self).others_view(), entry@)
                && final(self).violations_view() == old(self).violations_view(),
    {
        if entry.is_violation() {
            proof {
                lemma_insert_sorted(self.violations_view(), entry@);
            }
            insert_in_order(&mut self.violations, entry);
        } else {
            proof {
                lemma_insert_sorted(self.others_view(), entry@);
            }
            insert_in_order(&mut self.others, entry);
        }
    }

    pub fn violations(&self) -> (r: &[EntryCount])
        ensures
            counts_view(r@) == self.violations_view(),
    {
        self.violations.as_slice()
    }

    pub fn non_violations(&self) -> (r: &[EntryCount])
        ensures
            counts_view(r@) == self.others_view(),
    {
        self.others.as_slice()
    }
}

} // verus!
