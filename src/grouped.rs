//! Warnings grouped by the threshold they count towards, each group a set: the same
//! warning recorded twice is held once.
use crate::limits::{EntryView, LimitsEntry};
use crate::warnings::{CountsTowardsLimit, WarningView};
use vstd::prelude::*;

verus! {

/// The pairs that one group contributes: its entry with each of its warnings.
pub open spec fn group_pairs(k: EntryView, ws: Seq<WarningView>) -> Set<(EntryView, WarningView)> {
    Set::new(|p: (EntryView, WarningView)| p.0 == k && ws.contains(p.1))
}

/// The pairs of the first `n` groups.
pub open spec fn pairs_upto(keys: Seq<EntryView>, sets: Seq<Seq<WarningView>>, n: int) -> Set<
    (EntryView, WarningView),
>
    decreases n,
{
    if n <= 0 {
        Set::empty()
    } else {
        pairs_upto(keys, sets, n - 1).union(group_pairs(keys[n - 1], sets[n - 1]))
    }
}

/// The warnings recorded under entry `k`.
pub open spec fn warnings_under(rel: Set<(EntryView, WarningView)>, k: EntryView) -> Set<WarningView> {
    Set::new(|w: WarningView| rel.contains((k, w)))
}

/// A pair belongs to the first `n` groups exactly when one of them holds it.
pub proof fn lemma_pairs_upto_contains(
    keys: Seq<EntryView>,
    sets: Seq<Seq<WarningView>>,
    n: int,
    k: EntryView,
    w: WarningView,
)
    requires
        0 <= n <= keys.len(),
        n <= sets.len(),
    ensures
        pairs_upto(keys, sets, n).contains((k, w)) <==> exists|t: int|
            0 <= t < n && keys[t] == k && #[trigger] sets[t].contains(w),
    decreases n,
{
    if n > 0 {
        lemma_pairs_upto_contains(keys, sets, n - 1, k, w);
        if pairs_upto(keys, sets, n).contains((k, w)) && !pairs_upto(keys, sets, n - 1).contains((k, w)) {
            assert(sets[n - 1].contains(w));
        }
    }
}

/// Groups that agree on their first `n` positions have the same first `n` pairs.
pub proof fn lemma_pairs_upto_prefix(
    keys1: Seq<EntryView>,
    sets1: Seq<Seq<WarningView>>,
    keys2: Seq<EntryView>,
    sets2: Seq<Seq<WarningView>>,
    n: int,
)
    requires
        forall|t: int| 0 <= t < n ==> keys1[t] == keys2[t] && sets1[t] == sets2[t],
    ensures
        pairs_upto(keys1, sets1, n) == pairs_upto(keys2, sets2, n),
    decreases n,
{
    if n > 0 {
        lemma_pairs_upto_prefix(keys1, sets1, keys2, sets2, n - 1);
    }
}

/// What a sequence holds after a push.
pub proof fn lemma_push_contains<A>(s: Seq<A>, x: A, y: A)
    ensures
        s.push(x).contains(y) <==> (s.contains(y) || y == x),
{
    if s.push(x).contains(y) {
        let t = choose|t: int| 0 <= t < s.push(x).len() && s.push(x)[t] == y;
        if t < s.len() {
            assert(s[t] == y);
        }
    }
    if s.contains(y) {
        let t = choose|t: int| 0 <= t < s.len() && s[t] == y;
        assert(s.push(x)[t] == y);
    }
    if y == x {
        assert(s.push(x)[s.len() as int] == y);
    }
}

/// Adding a warning to group `i` adds one pair.
proof fn lemma_pairs_upto_push_at(
    keys: Seq<EntryView>,
    sets: Seq<Seq<WarningView>>,
    i: int,
    w: WarningView,
    n: int,
)
    requires
        0 <= i < n <= keys.len(),
        n <= sets.len(),
    ensures
        pairs_upto(keys, sets.update(i, sets[i].push(w)), n) == pairs_upto(keys, sets, n).insert(
            (keys[i], w),
        ),
    decreases n,
{
    let sets2 = sets.update(i, sets[i].push(w));
    if n - 1 == i {
        lemma_pairs_upto_prefix(keys, sets2, keys, sets, i);
        assert forall|x: WarningView| #[trigger] sets[i].push(w).contains(x) <==> (sets[i].contains(x) || x == w) by {
            lemma_push_contains(sets[i], w, x);
        }
        assert(group_pairs(keys[i], sets[i].push(w)) =~= group_pairs(keys[i], sets[i]).insert(
            (keys[i], w),
        ));
    } else {
        lemma_pairs_upto_push_at(keys, sets, i, w, n - 1);
    }
    assert(pairs_upto(keys, sets2, n) =~= pairs_upto(keys, sets, n).insert((keys[i], w)));
}

/// The image of a set of pairs under `f`.
pub open spec fn image(
    rel: Set<(EntryView, WarningView)>,
    f: spec_fn((EntryView, WarningView)) -> (EntryView, WarningView),
) -> Set<(EntryView, WarningView)> {
    Set::new(|p: (EntryView, WarningView)| exists|q: (EntryView, WarningView)| rel.contains(q) && f(q) == p)
}

/// The image of a set with one more pair has one more pair.
pub proof fn lemma_image_insert(
    rel: Set<(EntryView, WarningView)>,
    f: spec_fn((EntryView, WarningView)) -> (EntryView, WarningView),
    x: (EntryView, WarningView),
)
    ensures
        image(rel.insert(x), f) == image(rel, f).insert(f(x)),
{
    assert forall|p: (EntryView, WarningView)| image(rel.insert(x), f).contains(p) implies image(
        rel,
        f,
    ).insert(f(x)).contains(p) by {
        let q = choose|q: (EntryView, WarningView)| rel.insert(x).contains(q) && f(q) == p;
        if q != x {
            assert(rel.contains(q));
        }
    }
    assert forall|p: (EntryView, WarningView)| image(rel, f).insert(f(x)).contains(p) implies image(
        rel.insert(x),
        f,
    ).contains(p) by {
        if p != f(x) {
            let q = choose|q: (EntryView, WarningView)| rel.contains(q) && f(q) == p;
            assert(rel.insert(x).contains(q));
        } else {
            assert(rel.insert(x).contains(x));
        }
    }
    assert(image(rel.insert(x), f) =~= image(rel, f).insert(f(x)));
}

/// One more warning of a group is one more pair.
pub proof fn lemma_group_pairs_take(k: EntryView, ws: Seq<WarningView>, j: int)
    requires
        0 <= j < ws.len(),
    ensures
        group_pairs(k, ws.take(j + 1)) == group_pairs(k, ws.take(j)).insert((k, ws[j])),
{
    assert(ws.take(j + 1) == ws.take(j).push(ws[j]));
    assert forall|x: WarningView| #[trigger] ws.take(j + 1).contains(x) <==> (ws.take(j).contains(x) || x == ws[j]) by {
        lemma_push_contains(ws.take(j), ws[j], x);
    }
    assert(group_pairs(k, ws.take(j + 1)) =~= group_pairs(k, ws.take(j)).insert((k, ws[j])));
}

/// Warnings grouped by entry. Each entry has one group, and no group holds a warning
/// twice.
pub struct GroupedWarnings {
    entries: Vec<LimitsEntry>,
    warnings: Vec<Vec<CountsTowardsLimit>>,
}

/// The views of a sequence of warnings.
pub open spec fn warnings_view(ws: Seq<CountsTowardsLimit>) -> Seq<WarningView> {
    ws.map_values(|w: CountsTowardsLimit| w@)
}

impl View for GroupedWarnings {
    type V = Set<(EntryView, WarningView)>;

    closed spec fn view(&self) -> Set<(EntryView, WarningView)> {
        pairs_upto(self.keys(), self.sets(), self.keys().len() as int)
    }
}

impl GroupedWarnings {
    /// The entries of the groups, in order.
    pub closed spec fn keys(self) -> Seq<EntryView> {
        self.entries@.map_values(|e: LimitsEntry| e@)
    }

    /// The warnings of the groups, in order.
    pub closed spec fn sets(self) -> Seq<Seq<WarningView>> {
        self.warnings@.map_values(|ws: Vec<CountsTowardsLimit>| warnings_view(ws@))
    }

    /// One group per entry, one of each warning per group, no group empty.
    pub closed spec fn wf(self) -> bool {
        &&& self.entries.len() == self.warnings.len()
        &&& forall|a: int| 0 <= a < self.sets().len() ==> (#[trigger] self.sets()[a]).len() > 0
        &&& forall|a: int, b: int|
            0 <= a < b < self.keys().len() ==> #[trigger] self.keys()[a] != #[trigger] self.keys()[b]
        &&& forall|a: int| 0 <= a < self.sets().len() ==> (#[trigger] self.sets()[a]).no_duplicates()
    }

    /// What the groups hold, spelled out.
    pub proof fn lemma_view(self)
        requires
            self.wf(),
        ensures
            self.keys().len() == self.sets().len(),
            self@ == pairs_upto(self.keys(), self.sets(), self.keys().len() as int),
            forall|a: int, b: int|
                0 <= a < b < self.keys().len() ==> #[trigger] self.keys()[a] != #[trigger] self.keys()[b],
            forall|a: int| 0 <= a < self.sets().len() ==> (#[trigger] self.sets()[a]).no_duplicates(),
            forall|a: int| 0 <= a < self.sets().len() ==> (#[trigger] self.sets()[a]).len() > 0,
    {
    }

    /// The warnings under the entry of group `i` are those of the group, and there are
    /// as many as the group holds.
    pub proof fn lemma_group(self, i: int)
        requires
            self.wf(),
            0 <= i < self.keys().len(),
        ensures
            warnings_under(self@, self.keys()[i]) == self.sets()[i].to_set(),
            warnings_under(self@, self.keys()[i]).len() == self.sets()[i].len(),
    {
        let keys = self.keys();
        let sets = self.sets();
        let n = keys.len() as int;
        assert forall|w: WarningView| warnings_under(self@, keys[i]).contains(w)
            <==> sets[i].to_set().contains(w) by {
            lemma_pairs_upto_contains(keys, sets, n, keys[i], w);
            assert(self@ == pairs_upto(keys, sets, n));
            assert(warnings_under(self@, keys[i]).contains(w) == self@.contains((keys[i], w)));
            assert(sets[i].to_set().contains(w) == sets[i].contains(w));
            if warnings_under(self@, keys[i]).contains(w) {
                assert(self@.contains((keys[i], w)));
                let t = choose|t: int| 0 <= t < n && keys[t] == keys[i] && #[trigger] sets[t].contains(w);
                if t != i {
                    if t < i {
                        assert(keys[t] != keys[i]);
                    } else {
                        assert(keys[i] != keys[t]);
                    }
                }
            }
            if sets[i].contains(w) {
                assert(exists|t: int| 0 <= t < n && keys[t] == keys[i] && #[trigger] sets[t].contains(w));
            }
        }
        assert(warnings_under(self@, keys[i]) =~= sets[i].to_set());
        sets[i].unique_seq_to_set();
    }

    /// No warnings.
    pub fn new() -> (r: Self)
        ensures
            r.wf(),
            r@ == Set::<(EntryView, WarningView)>::empty(),
    {
        let r = GroupedWarnings { entries: Vec::new(), warnings: Vec::new() };
        assert(r.keys().len() == 0);
        r
    }

    /// The number of groups.
    pub fn len(&self) -> (r: usize)
        requires
            self.wf(),
        ensures
            r == self.keys().len(),
    {
        self.entries.len()
    }

    /// The entry of group `i`.
    pub fn entry(&self, i: usize) -> (r: &LimitsEntry)
        requires
            self.wf(),
            i < self.keys().len(),
        ensures
            r@ == self.keys()[i as int],
    {
        &self.entries[i]
    }

    /// The warnings of group `i`.
    pub fn warnings_at(&self, i: usize) -> (r: &Vec<CountsTowardsLimit>)
        requires
            self.wf(),
            i < self.keys().len(),
        ensures
            warnings_view(r@) == self.sets()[i as int],
    {
        &self.warnings[i]
    }

    /// Records warning `w` under entry `key`.
    pub fn insert(&mut self, key: &LimitsEntry, w: CountsTowardsLimit)
        requires
            old(self).wf(),
        ensures
            final(self).wf(),
            final(self)@ == old(self)@.insert((key@, w@)),
    {
        let ghost keys = self.keys();
        let ghost sets = self.sets();
        let ghost n = keys.len() as int;
        let mut i: usize = 0;
        let mut hit = false;
        while !hit && i < self.entries.len()
            invariant
                self.wf(),
                self.keys() == keys,
                self.sets() == sets,
                n == keys.len(),
                i <= n,
                hit ==> i < n && keys[i as int] == key@,
                !hit ==> forall|t: int| 0 <= t < i ==> keys[t] != key@,
            decreases n - i + (if hit { 0int } else { 1int }),
        {
            if self.entries[i].same_as(key) {
                hit = true;
            } else {
                i = i + 1;
            }
        }
        if hit {
            let mut j: usize = 0;
            let mut found = false;
            while !found && j < self.warnings[i].len()
                invariant
                    self.wf(),
                    self.sets() == sets,
                    i < sets.len(),
                    j <= sets[i as int].len(),
                    found ==> sets[i as int].contains(w@),
                    !found ==> forall|t: int| 0 <= t < j ==> sets[i as int][t] != w@,
                decreases sets[i as int].len() - j + (if found { 0int } else { 1int }),
            {
                assert(sets[i as int][j as int] == self.warnings@[i as int]@[j as int]@);
                if self.warnings[i][j].same_as(&w) {
                    found = true;
                } else {
                    j = j + 1;
                }
            }
            if found {
                proof {
                    lemma_pairs_upto_contains(keys, sets, n, key@, w@);
                    assert(0 <= i < n && keys[i as int] == key@ && sets[i as int].contains(w@));
                    assert(self@.contains((key@, w@)));
                    assert(self@ =~= old(self)@.insert((key@, w@)));
                }
            } else {
                let ghost wv = w@;
                self.warnings[i].push(w);
                proof {
                    assert(warnings_view(self.warnings@[i as int]@) =~= sets[i as int].push(wv));
                    assert(self.sets() =~= sets.update(i as int, sets[i as int].push(wv)));
                    lemma_pairs_upto_push_at(keys, sets, i as int, wv, n);
                    assert forall|a: int| 0 <= a < self.sets().len() implies (#[trigger] self.sets()[a]).no_duplicates() by {
                        if a == i as int {
                            assert(sets[i as int].push(wv).no_duplicates());
                        }
                    }
                }
            }
        } else {
            let ghost wv = w@;
            self.entries.push(key.duplicate());
            let mut group: Vec<CountsTowardsLimit> = Vec::new();
            group.push(w);
            self.warnings.push(group);
            proof {
                assert(self.keys() =~= keys.push(key@));
                assert(warnings_view(self.warnings@.last()@) =~= seq![wv]);
                assert(self.sets() =~= sets.push(seq![wv]));
                lemma_pairs_upto_prefix(self.keys(), self.sets(), keys, sets, n);
                assert(seq![wv][0] == wv);
                assert forall|x: WarningView| #[trigger] seq![wv].contains(x) <==> x == wv by {
                    lemma_push_contains(Seq::<WarningView>::empty(), wv, x);
                    assert(Seq::<WarningView>::empty().push(wv) == seq![wv]);
                }
                assert(group_pairs(key@, seq![wv]) =~= set![(key@, wv)]);
                assert(self@ =~= old(self)@.insert((key@, wv)));
                assert(seq![wv].no_duplicates());
            }
        }
    }

    /// Records each of `ws` under entry `key`.
    pub fn extend(&mut self, key: &LimitsEntry, ws: &Vec<CountsTowardsLimit>)
        requires
            old(self).wf(),
        ensures
            final(self).wf(),
            final(self)@ == old(self)@.union(group_pairs(key@, warnings_view(ws@))),
    {
        let ghost wsv = warnings_view(ws@);
        let mut j: usize = 0;
        while j < ws.len()
            invariant
                self.wf(),
                wsv == warnings_view(ws@),
                j <= ws.len(),
                self@ == old(self)@.union(group_pairs(key@, wsv.take(j as int))),
            decreases ws.len() - j,
        {
            proof {
                lemma_group_pairs_take(key@, wsv, j as int);
            }
            self.insert(key, ws[j].duplicate());
            assert(self@ =~= old(self)@.union(group_pairs(key@, wsv.take(j + 1))));
            j = j + 1;
        }
        assert(wsv.take(j as int) == wsv);
    }

    /// Records every warning of `other` under its entry.
    pub fn merge(&mut self, other: &GroupedWarnings)
        requires
            old(self).wf(),
            other.wf(),
        ensures
            final(self).wf(),
            final(self)@ == old(self)@.union(other@),
    {
        let mut i: usize = 0;
        while i < other.len()
            invariant
                self.wf(),
                other.wf(),
                i <= other.keys().len(),
                self@ == old(self)@.union(pairs_upto(other.keys(), other.sets(), i as int)),
            decreases other.keys().len() - i,
        {
            self.extend(other.entry(i), other.warnings_at(i));
            assert(self@ =~= old(self)@.union(pairs_upto(other.keys(), other.sets(), i + 1)));
            i = i + 1;
        }
    }
}

} // verus!
