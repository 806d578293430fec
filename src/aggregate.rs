//! Bringing the results of the parallel scans together, and holding the counts against
//! the declared thresholds.
use crate::arena::{ArenaView, SearchableArena};
use crate::grouped::{
    group_pairs, image, lemma_group_pairs_take, lemma_image_insert, lemma_pairs_upto_contains, pairs_upto,
    GroupedWarnings,
};
use crate::limits::{Category, EntryView, Limit, LimitView, LimitsEntry, LimitsFile};
use crate::order::{insert_sorted, sorted_from};
use crate::search_in_files::LogSearchResults;
use crate::settings::Kind;
use crate::warnings::{CountView, EntryCount, FinalTally, WarningView};
use vstd::prelude::*;

verus! {

/// Moves a pair's category and description from arena `from` to arena `to`.
pub open spec fn remap_pair(from: ArenaView, to: ArenaView) -> spec_fn((EntryView, WarningView)) -> (
    EntryView,
    WarningView,
) {
    |p: (EntryView, WarningView)|
        (EntryView { category: p.0.category.remapped(from, to), ..p.0 }, p.1.remapped(from, to))
}

/// Merges the arena of one scan into the global `arena`, and moves every warning of the
/// scan, and the category of its entry, over to the global arena.
pub fn process_search_results(arena: &mut SearchableArena, search_result: &LogSearchResults) -> (r: GroupedWarnings)
    requires
        old(arena).wf(),
        search_result.wf(),
    ensures
        final(arena).wf(),
        final(arena)@ == old(arena)@.add_all(search_result.string_arena@.strings),
        r.wf(),
        r@ == image(search_result.warnings@, remap_pair(search_result.string_arena@, final(arena)@)),
{
    let incoming = &search_result.string_arena;
    let found = &search_result.warnings;
    arena.add_all(incoming);
    let ghost f = remap_pair(incoming@, arena@);
    let ghost keys = found.keys();
    let ghost sets = found.sets();
    proof {
        found.lemma_view();
    }
    let mut results = GroupedWarnings::new();
    let mut i: usize = 0;
    while i < found.len()
        invariant
            arena.wf(),
            search_result.wf(),
            found.wf(),
            *found == search_result.warnings,
            *incoming == search_result.string_arena,
            f == remap_pair(incoming@, arena@),
            keys == found.keys(),
            sets == found.sets(),
            keys.len() == sets.len(),
            found@ == pairs_upto(keys, sets, keys.len() as int),
            forall|a: int| 0 <= a < sets.len() ==> (#[trigger] sets[a]).len() > 0,
            i <= keys.len(),
            results.wf(),
            results@ == image(pairs_upto(keys, sets, i as int), f),
        decreases keys.len() - i,
    {
        let ws = found.warnings_at(i);
        let mut key = found.entry(i).duplicate();
        proof {
            lemma_pairs_upto_contains(keys, sets, keys.len() as int, keys[i as int], sets[i as int][0]);
            assert(sets[i as int].contains(sets[i as int][0]));
        }
        key.category.remap_id(incoming, arena);
        proof {
            assert(group_pairs(keys[i as int], sets[i as int].take(0)) =~= Set::empty());
            assert(pairs_upto(keys, sets, i as int).union(group_pairs(keys[i as int], sets[i as int].take(0)))
                =~= pairs_upto(keys, sets, i as int));
        }
        let mut j: usize = 0;
        while j < ws.len()
            invariant
                arena.wf(),
                search_result.wf(),
                found.wf(),
                *found == search_result.warnings,
                *incoming == search_result.string_arena,
                f == remap_pair(incoming@, arena@),
                keys == found.keys(),
                sets == found.sets(),
                keys.len() == sets.len(),
                found@ == pairs_upto(keys, sets, keys.len() as int),
                i < keys.len(),
                crate::grouped::warnings_view(ws@) == sets[i as int],
                key@ == f((keys[i as int], sets[i as int][0])).0,
                j <= ws.len(),
                results.wf(),
                results@ == image(
                    pairs_upto(keys, sets, i as int).union(group_pairs(keys[i as int], sets[i as int].take(j as int))),
                    f,
                ),
            decreases ws.len() - j,
        {
            let ghost x = (keys[i as int], sets[i as int][j as int]);
            proof {
                lemma_pairs_upto_contains(keys, sets, keys.len() as int, x.0, x.1);
                assert(sets[i as int].contains(x.1));
                assert(search_result.warnings@.contains((x.0, x.1)));
                assert(ws@[j as int]@ == x.1);
            }
            let w = ws[j].duplicate().remap(incoming, arena);
            results.insert(&key, w);
            proof {
                lemma_group_pairs_take(x.0, sets[i as int], j as int);
                let before = pairs_upto(keys, sets, i as int).union(group_pairs(x.0, sets[i as int].take(j as int)));
                assert(pairs_upto(keys, sets, i as int).union(group_pairs(x.0, sets[i as int].take(j + 1)))
                    =~= before.insert(x));
                lemma_image_insert(before, f, x);
            }
            j = j + 1;
        }
        proof {
            assert(sets[i as int].take(j as int) == sets[i as int]);
        }
        i = i + 1;
    }
    results
}

/// The views of the scan results: each one's arena and warnings.
pub open spec fn results_view(rs: Seq<LogSearchResults>) -> Seq<(ArenaView, Set<(EntryView, WarningView)>)> {
    rs.map_values(|r: LogSearchResults| (r.string_arena@, r.warnings@))
}

/// The global arena and the warnings after merging the scan results `rs` in order, each
/// through `process_search_results`.
pub open spec fn gathered(a: ArenaView, rs: Seq<(ArenaView, Set<(EntryView, WarningView)>)>) -> (
    ArenaView,
    Set<(EntryView, WarningView)>,
)
    decreases rs.len(),
{
    if rs.len() == 0 {
        (a, Set::empty())
    } else {
        let prev = gathered(a, rs.drop_last());
        let a2 = prev.0.add_all(rs.last().0.strings);
        (a2, prev.1.union(image(rs.last().1, remap_pair(rs.last().0, a2))))
    }
}

/// Merges the results of all scans into the global `arena` and one set of warnings per
/// entry; a warning that several scans found is held once.
pub fn gather_results_from_logs(arena: &mut SearchableArena, results: &Vec<LogSearchResults>) -> (r: GroupedWarnings)
    requires
        old(arena).wf(),
        forall|i: int| 0 <= i < results.len() ==> (#[trigger] results[i]).wf(),
    ensures
        final(arena).wf(),
        r.wf(),
        (final(arena)@, r@) == gathered(old(arena)@, results_view(results@)),
{
    let ghost rv = results_view(results@);
    let mut merged = GroupedWarnings::new();
    let mut i: usize = 0;
    while i < results.len()
        invariant
            arena.wf(),
            merged.wf(),
            rv == results_view(results@),
            forall|i: int| 0 <= i < results.len() ==> (#[trigger] results[i]).wf(),
            i <= results.len(),
            (arena@, merged@) == gathered(old(arena)@, rv.take(i as int)),
        decreases results.len() - i,
    {
        let processed = process_search_results(arena, &results[i]);
        merged.merge(&processed);
        proof {
            assert(rv.take(i + 1).drop_last() == rv.take(i as int));
        }
        i = i + 1;
    }
    proof {
        assert(rv.take(i as int) == rv);
    }
    merged
}

/// A warning found by two scans is held once: when each of two scans holds exactly the
/// warning `w` under entry `e` (after moving to the global arena), the merged warnings
/// under `e` are `w` alone.
pub proof fn lemma_shared_warning_counted_once(
    a: ArenaView,
    r1: (ArenaView, Set<(EntryView, WarningView)>),
    r2: (ArenaView, Set<(EntryView, WarningView)>),
    e: EntryView,
    w: WarningView,
)
    requires
        image(r1.1, remap_pair(r1.0, gathered(a, seq![r1]).0)) == set![(e, w)],
        image(r2.1, remap_pair(r2.0, gathered(a, seq![r1, r2]).0)) == set![(e, w)],
    ensures
        crate::grouped::warnings_under(gathered(a, seq![r1, r2]).1, e) == set![w],
        crate::grouped::warnings_under(gathered(a, seq![r1, r2]).1, e).len() == 1,
{
    let rs = seq![r1, r2];
    assert(rs.drop_last() == seq![r1]);
    assert(seq![r1].drop_last() == Seq::<(ArenaView, Set<(EntryView, WarningView)>)>::empty());
    let g1 = gathered(a, seq![r1]);
    assert(gathered(a, seq![r1].drop_last()) == (a, Set::<(EntryView, WarningView)>::empty()));
    assert(seq![r1].last() == r1);
    assert(g1.0 == a.add_all(r1.0.strings));
    assert(g1.1 == Set::<(EntryView, WarningView)>::empty().union(image(r1.1, remap_pair(r1.0, g1.0))));
    assert(rs.last() == r2);
    assert(g1.1 =~= set![(e, w)]);
    let g = gathered(a, rs).1;
    assert(g == g1.1.union(image(r2.1, remap_pair(r2.0, gathered(a, rs).0))));
    assert(g =~= set![(e, w)]);
    assert(crate::grouped::warnings_under(g, e) =~= set![w]);
    assert(set![w].len() == 1) by {
        assert(set![w] == Set::<WarningView>::empty().insert(w));
    }
}

/// Merging two scans is a union: the warnings under entry `e` after both are those of
/// either scan (after moving to the global arena), so a warning that both found is held,
/// and counted, once.
pub proof fn lemma_merged_warnings_are_a_union(
    a: ArenaView,
    r1: (ArenaView, Set<(EntryView, WarningView)>),
    r2: (ArenaView, Set<(EntryView, WarningView)>),
    e: EntryView,
)
    ensures
        crate::grouped::warnings_under(gathered(a, seq![r1, r2]).1, e) == crate::grouped::warnings_under(
            image(r1.1, remap_pair(r1.0, gathered(a, seq![r1]).0)),
            e,
        ).union(crate::grouped::warnings_under(image(r2.1, remap_pair(r2.0, gathered(a, seq![r1, r2]).0)), e)),
{
    let rs = seq![r1, r2];
    assert(rs.drop_last() == seq![r1]);
    assert(seq![r1].drop_last() == Seq::<(ArenaView, Set<(EntryView, WarningView)>)>::empty());
    assert(gathered(a, seq![r1].drop_last()) == (a, Set::<(EntryView, WarningView)>::empty()));
    assert(seq![r1].last() == r1);
    assert(rs.last() == r2);
    let g1 = gathered(a, seq![r1]);
    let i1 = image(r1.1, remap_pair(r1.0, g1.0));
    assert(g1.1 =~= i1);
    assert(crate::grouped::warnings_under(gathered(a, rs).1, e) =~= crate::grouped::warnings_under(i1, e).union(
        crate::grouped::warnings_under(image(r2.1, remap_pair(r2.0, gathered(a, rs).0)), e),
    ));
}

/// With a threshold of one declared for the only entry `e`, the count of `e` is a
/// violation exactly when more than one warning was found under it.
pub proof fn lemma_threshold_of_one(
    flat: Seq<(EntryView, Option<u64>)>,
    defaults: Seq<(Kind, Option<u64>)>,
    rel: Set<(EntryView, WarningView)>,
    e: EntryView,
)
    requires
        flat_get(flat, e) == Some(Some(1u64)),
        crate::grouped::warnings_under(rel, e).len() <= u64::MAX,
    ensures
        ({
            let counts = all_counts(flat, defaults, rel, seq![e]);
            let c = CountView { entry: e, limit: Some(1), actual: crate::grouped::warnings_under(rel, e).len() as u64 };
            &&& c.actual > 1 ==> sorted_from(counts.filter(|x: CountView| x.is_violation())) == seq![c]
                && sorted_from(counts.filter(|x: CountView| !x.is_violation())) == Seq::<CountView>::empty()
            &&& c.actual <= 1 ==> sorted_from(counts.filter(|x: CountView| x.is_violation())) == Seq::<CountView>::empty()
                && sorted_from(counts.filter(|x: CountView| !x.is_violation())) == seq![c]
        }),
{
    let counts = all_counts(flat, defaults, rel, seq![e]);
    let c = CountView { entry: e, limit: Some(1), actual: crate::grouped::warnings_under(rel, e).len() as u64 };
    assert(counts =~= seq![c]);
    let is_v = |x: CountView| x.is_violation();
    let not_v = |x: CountView| !x.is_violation();
    Seq::<CountView>::empty().lemma_filter_push(c, is_v);
    Seq::<CountView>::empty().lemma_filter_push(c, not_v);
    assert(Seq::<CountView>::empty().push(c) == seq![c]);
    reveal(Seq::filter);
    assert(Seq::<CountView>::empty().filter(is_v) =~= Seq::<CountView>::empty());
    assert(Seq::<CountView>::empty().filter(not_v) =~= Seq::<CountView>::empty());
    assert(seq![c].drop_last() =~= Seq::<CountView>::empty());
    assert(sorted_from(Seq::<CountView>::empty()) == Seq::<CountView>::empty());
    assert(insert_sorted(Seq::<CountView>::empty(), c) =~= seq![c]);
}

/// The views of a flattened limit map.
pub open spec fn flat_view(s: Seq<(LimitsEntry, Option<u64>)>) -> Seq<(EntryView, Option<u64>)> {
    s.map_values(|p: (LimitsEntry, Option<u64>)| (p.0@, p.1))
}

/// The threshold declared for entry `k` (the last declaration wins); none when `k` is not
/// declared. A declared threshold of none is infinite.
pub open spec fn flat_get(s: Seq<(EntryView, Option<u64>)>, k: EntryView) -> Option<Option<u64>>
    decreases s.len(),
{
    if s.len() == 0 {
        None
    } else if s.last().0 == k {
        Some(s.last().1)
    } else {
        flat_get(s.drop_last(), k)
    }
}

/// The default threshold configured for a kind (the last one wins); zero when none is.
pub open spec fn default_get(s: Seq<(Kind, Option<u64>)>, kind: Kind) -> Option<u64>
    decreases s.len(),
{
    if s.len() == 0 {
        Some(0)
    } else if s.last().0 == kind {
        s.last().1
    } else {
        default_get(s.drop_last(), kind)
    }
}

/// The threshold that applies to entry `e`: its own declaration; else that of the
/// wildcard category of the same limit file and kind; else the kind's default.
pub open spec fn threshold(flat: Seq<(EntryView, Option<u64>)>, defaults: Seq<(Kind, Option<u64>)>, e: EntryView) -> Option<u64> {
    match flat_get(flat, e) {
        Some(x) => x,
        None => match flat_get(flat, e.without_category()) {
            Some(x) => x,
            None => default_get(defaults, e.kind),
        },
    }
}

/// The entry that warnings observed under `e` count towards: `e` when declared; else the
/// wildcard entry of the same limit file and kind when that is declared; else `e`.
pub open spec fn rekey(flat: Seq<(EntryView, Option<u64>)>, e: EntryView) -> EntryView {
    if flat_get(flat, e) is Some {
        e
    } else if flat_get(flat, e.without_category()) is Some {
        e.without_category()
    } else {
        e
    }
}

/// Moves a pair to the entry it counts towards.
pub open spec fn rekey_pair(flat: Seq<(EntryView, Option<u64>)>) -> spec_fn((EntryView, WarningView)) -> (
    EntryView,
    WarningView,
) {
    |p: (EntryView, WarningView)| (rekey(flat, p.0), p.1)
}

/// The declared threshold of `e`, searching from the last declaration.
pub fn lookup_limit(flat: &Vec<(LimitsEntry, Option<u64>)>, e: &LimitsEntry) -> (r: Option<Option<u64>>)
    ensures
        r == flat_get(flat_view(flat@), e@),
{
    let ghost fv = flat_view(flat@);
    let mut i: usize = flat.len();
    assert(fv.take(i as int) == fv);
    while i > 0
        invariant
            i <= flat.len(),
            fv == flat_view(flat@),
            flat_get(fv, e@) == flat_get(fv.take(i as int), e@),
        decreases i,
    {
        proof {
            assert(fv.take(i as int).drop_last() == fv.take(i - 1));
        }
        if flat[i - 1].0.same_as(e) {
            return Some(flat[i - 1].1);
        }
        i = i - 1;
    }
    None
}

/// The default threshold of `kind`, searching from the last one.
pub fn lookup_default(defaults: &Vec<(Kind, Option<u64>)>, kind: Kind) -> (r: Option<u64>)
    ensures
        r == default_get(defaults@, kind),
{
    let mut i: usize = defaults.len();
    assert(defaults@.take(i as int) == defaults@);
    while i > 0
        invariant
            i <= defaults.len(),
            default_get(defaults@, kind) == default_get(defaults@.take(i as int), kind),
        decreases i,
    {
        proof {
            assert(defaults@.take(i as int).drop_last() == defaults@.take(i - 1));
        }
        if defaults[i - 1].0 == kind {
            return defaults[i - 1].1;
        }
        i = i - 1;
    }
    Some(0)
}

/// Lifting one group through a change of entries adds the group under the new entry.
proof fn lemma_image_rekey_group(
    flat: Seq<(EntryView, Option<u64>)>,
    rel: Set<(EntryView, WarningView)>,
    k: EntryView,
    ws: Seq<WarningView>,
)
    ensures
        image(rel.union(group_pairs(k, ws)), rekey_pair(flat)) == image(rel, rekey_pair(flat)).union(
            group_pairs(rekey(flat, k), ws),
        ),
{
    let g = rekey_pair(flat);
    assert forall|p: (EntryView, WarningView)| image(rel.union(group_pairs(k, ws)), g).contains(p) implies image(
        rel,
        g,
    ).union(group_pairs(rekey(flat, k), ws)).contains(p) by {
        let q = choose|q: (EntryView, WarningView)| rel.union(group_pairs(k, ws)).contains(q) && g(q) == p;
        if !rel.contains(q) {
            assert(group_pairs(rekey(flat, k), ws).contains(p));
        }
    }
    assert forall|p: (EntryView, WarningView)| image(rel, g).union(group_pairs(rekey(flat, k), ws)).contains(
        p,
    ) implies image(rel.union(group_pairs(k, ws)), g).contains(p) by {
        if image(rel, g).contains(p) {
            let q = choose|q: (EntryView, WarningView)| rel.contains(q) && g(q) == p;
            assert(rel.union(group_pairs(k, ws)).contains(q));
        } else {
            let q = (k, p.1);
            assert(rel.union(group_pairs(k, ws)).contains(q));
        }
    }
    assert(image(rel.union(group_pairs(k, ws)), g) =~= image(rel, g).union(group_pairs(rekey(flat, k), ws)));
}

/// Moves every group to the entry it counts towards: its own when declared, else the
/// wildcard entry of its limit file and kind when that is declared. Groups that end up
/// under the same entry are merged.
pub fn remap_to_actual_limit_entries(defined_limits: &Vec<(LimitsEntry, Option<u64>)>, found: &GroupedWarnings) -> (r: GroupedWarnings)
    requires
        found.wf(),
    ensures
        r.wf(),
        r@ == image(found@, rekey_pair(flat_view(defined_limits@))),
{
    let ghost flat = flat_view(defined_limits@);
    let ghost keys = found.keys();
    let ghost sets = found.sets();
    proof {
        found.lemma_view();
        assert(image(Set::empty(), rekey_pair(flat)) =~= Set::empty());
    }
    let mut result = GroupedWarnings::new();
    let mut i: usize = 0;
    while i < found.len()
        invariant
            found.wf(),
            flat == flat_view(defined_limits@),
            keys == found.keys(),
            sets == found.sets(),
            keys.len() == sets.len(),
            found@ == pairs_upto(keys, sets, keys.len() as int),
            i <= keys.len(),
            result.wf(),
            result@ == image(pairs_upto(keys, sets, i as int), rekey_pair(flat)),
        decreases keys.len() - i,
    {
        let limit = found.entry(i);
        let key = if lookup_limit(defined_limits, limit).is_some() {
            limit.duplicate()
        } else {
            let wildcard = limit.without_category();
            if lookup_limit(defined_limits, &wildcard).is_some() {
                wildcard
            } else {
                limit.duplicate()
            }
        };
        result.extend(&key, found.warnings_at(i));
        proof {
            lemma_image_rekey_group(flat, pairs_upto(keys, sets, i as int), keys[i as int], sets[i as int]);
        }
        i = i + 1;
    }
    result
}

/// Moving warnings to the entries they count towards a second time changes nothing.
pub proof fn lemma_rekey_idempotent(flat: Seq<(EntryView, Option<u64>)>, rel: Set<(EntryView, WarningView)>)
    ensures
        image(image(rel, rekey_pair(flat)), rekey_pair(flat)) == image(rel, rekey_pair(flat)),
{
    let g = rekey_pair(flat);
    assert forall|e: EntryView| #[trigger] rekey(flat, rekey(flat, e)) == rekey(flat, e) by {
        assert(e.without_category().without_category() == e.without_category());
    }
    assert forall|p: (EntryView, WarningView)| image(image(rel, g), g).contains(p) implies image(rel, g).contains(p) by {
        let q = choose|q: (EntryView, WarningView)| image(rel, g).contains(q) && g(q) == p;
        let q0 = choose|q0: (EntryView, WarningView)| rel.contains(q0) && g(q0) == q;
        assert(rekey(flat, rekey(flat, q0.0)) == rekey(flat, q0.0));
        assert(g(q0) == p);
    }
    assert forall|p: (EntryView, WarningView)| image(rel, g).contains(p) implies image(image(rel, g), g).contains(p) by {
        let q0 = choose|q0: (EntryView, WarningView)| rel.contains(q0) && g(q0) == p;
        assert(rekey(flat, rekey(flat, q0.0)) == rekey(flat, q0.0));
        assert(g(p) == p);
    }
    assert(image(image(rel, g), g) =~= image(rel, g));
}

/// The threshold falls back from the entry's own declaration to the wildcard entry of
/// its limit file and kind, and from there to the kind's default (zero when none is
/// configured).
pub proof fn lemma_threshold_fallback(
    flat: Seq<(EntryView, Option<u64>)>,
    defaults: Seq<(Kind, Option<u64>)>,
    e: EntryView,
)
    ensures
        flat_get(flat, e) is Some ==> threshold(flat, defaults, e) == flat_get(flat, e).unwrap(),
        flat_get(flat, e) is None && flat_get(flat, e.without_category()) is Some ==> threshold(flat, defaults, e)
            == flat_get(flat, e.without_category()).unwrap(),
        flat_get(flat, e) is None && flat_get(flat, e.without_category()) is None ==> threshold(flat, defaults, e)
            == default_get(defaults, e.kind),
        (forall|i: int| 0 <= i < defaults.len() ==> defaults[i].0 != e.kind) ==> default_get(defaults, e.kind)
            == Some(0u64),
    decreases defaults.len(),
{
    if defaults.len() > 0 && (forall|i: int| 0 <= i < defaults.len() ==> defaults[i].0 != e.kind) {
        let rest = defaults.drop_last();
        assert(defaults.last().0 != e.kind);
        assert forall|i: int| 0 <= i < rest.len() implies rest[i].0 != e.kind by {
            assert(rest[i] == defaults[i]);
        }
        lemma_threshold_fallback(flat, rest, e);
    }
}

/// The count of each group against its threshold, in the order of the groups.
pub open spec fn all_counts(
    flat: Seq<(EntryView, Option<u64>)>,
    defaults: Seq<(Kind, Option<u64>)>,
    rel: Set<(EntryView, WarningView)>,
    keys: Seq<EntryView>,
) -> Seq<CountView> {
    Seq::new(
        keys.len(),
        |i: int|
            CountView {
                entry: keys[i],
                limit: threshold(flat, defaults, keys[i]),
                actual: crate::grouped::warnings_under(rel, keys[i]).len() as u64,
            },
    )
}

/// Compares the number of warnings of each entry with its threshold: an entry's own
/// declaration, else the wildcard entry of its limit file and kind, else the kind's
/// default. A count is a violation when the threshold is finite and the count exceeds
/// it.
pub fn check_warnings_against_thresholds(
    flat_limits: &Vec<(LimitsEntry, Option<u64>)>,
    results: &GroupedWarnings,
    defaults: &Vec<(Kind, Option<u64>)>,
) -> (r: FinalTally)
    requires
        results.wf(),
    ensures
        r.wf(),
        r.violations_view() == sorted_from(
            all_counts(flat_view(flat_limits@), defaults@, results@, results.keys()).filter(|c: CountView| c.is_violation()),
        ),
        r.others_view() == sorted_from(
            all_counts(flat_view(flat_limits@), defaults@, results@, results.keys()).filter(|c: CountView| !c.is_violation()),
        ),
        r.violations_view().to_multiset() == all_counts(flat_view(flat_limits@), defaults@, results@, results.keys()).filter(
            |c: CountView| c.is_violation(),
        ).to_multiset(),
        r.others_view().to_multiset() == all_counts(flat_view(flat_limits@), defaults@, results@, results.keys()).filter(
            |c: CountView| !c.is_violation(),
        ).to_multiset(),
        forall|i: int|
            0 <= i < results.keys().len() ==> {
                let c = #[trigger] all_counts(flat_view(flat_limits@), defaults@, results@, results.keys())[i];
                &&& c.is_violation() ==> r.violations_view().contains(c)
                &&& !c.is_violation() ==> r.others_view().contains(c)
            },
{
    let ghost counts = all_counts(flat_view(flat_limits@), defaults@, results@, results.keys());
    let ghost is_v = |c: CountView| c.is_violation();
    let ghost not_v = |c: CountView| !c.is_violation();
    let mut tally = FinalTally::new(results.len());
    proof {
        reveal(Seq::filter);
        assert(counts.take(0).filter(is_v) =~= Seq::<CountView>::empty());
        assert(counts.take(0).filter(not_v) =~= Seq::<CountView>::empty());
        assert(sorted_from(counts.take(0).filter(is_v)) =~= Seq::<CountView>::empty());
        assert(sorted_from(counts.take(0).filter(not_v)) =~= Seq::<CountView>::empty());
    }
    let mut i: usize = 0;
    while i < results.len()
        invariant
            results.wf(),
            counts == all_counts(flat_view(flat_limits@), defaults@, results@, results.keys()),
            is_v == (|c: CountView| c.is_violation()),
            not_v == (|c: CountView| !c.is_violation()),
            i <= results.keys().len(),
            tally.wf(),
            tally.violations_view() == sorted_from(counts.take(i as int).filter(is_v)),
            tally.others_view() == sorted_from(counts.take(i as int).filter(not_v)),
        decreases results.keys().len() - i,
    {
        let limits_entry = results.entry(i);
        let num_warnings = results.warnings_at(i).len() as u64;
        let threshold = match lookup_limit(flat_limits, limits_entry) {
            Some(x) => x,
            None => match lookup_limit(flat_limits, &limits_entry.without_category()) {
                Some(x) => x,
                None => lookup_default(defaults, limits_entry.kind),
            },
        };
        proof {
            results.lemma_group(i as int);
            results.lemma_view();
            assert(counts.take(i + 1) == counts.take(i as int).push(counts[i as int]));
            counts.take(i as int).lemma_filter_push(counts[i as int], is_v);
            counts.take(i as int).lemma_filter_push(counts[i as int], not_v);
            let c = counts[i as int];
            assert(counts.take(i as int).filter(is_v).push(c).drop_last() == counts.take(i as int).filter(is_v));
            assert(counts.take(i as int).filter(not_v).push(c).drop_last() == counts.take(i as int).filter(not_v));
        }
        tally.add(EntryCount::new(limits_entry, threshold, num_warnings));
        i = i + 1;
    }
    proof {
        assert(counts.take(i as int) == counts);
        crate::order::lemma_sorted_from(counts.filter(is_v));
        crate::order::lemma_sorted_from(counts.filter(not_v));
        broadcast use vstd::seq_lib::group_to_multiset_ensures;
        assert forall|i: int| 0 <= i < counts.len() implies {
            let c = #[trigger] counts[i];
            &&& c.is_violation() ==> tally.violations_view().contains(c)
            &&& !c.is_violation() ==> tally.others_view().contains(c)
        } by {
            let c = counts[i];
            assert(counts.contains(c));
            if c.is_violation() {
                counts.lemma_filter_contains_rev(is_v, c);
                assert(counts.filter(is_v).to_multiset().count(c) > 0);
                assert(tally.violations_view().to_multiset().count(c) > 0);
            } else {
                counts.lemma_filter_contains_rev(not_v, c);
                assert(counts.filter(not_v).to_multiset().count(c) > 0);
                assert(tally.others_view().to_multiset().count(c) > 0);
            }
        }
    }
    tally
}

/// The thresholds one limit of a file declares: one for the wildcard category, or one
/// per category.
pub open spec fn flatten_limit(path: Seq<char>, kind: Kind, l: LimitView) -> Seq<(EntryView, Option<u64>)> {
    match l {
        LimitView::Number(x) => seq![(EntryView { limits_file: Some(path), kind, category: Category::Wildcard }, x)],
        LimitView::PerCategory(cats) => cats.map_values(
            |c: (Category, Option<u64>)| (EntryView { limits_file: Some(path), kind, category: c.0 }, c.1),
        ),
    }
}

/// The thresholds a limit file declares, in declaration order.
pub open spec fn flatten_file(path: Seq<char>, ls: Seq<(Kind, LimitView)>) -> Seq<(EntryView, Option<u64>)>
    decreases ls.len(),
{
    if ls.len() == 0 {
        Seq::empty()
    } else {
        flatten_file(path, ls.drop_last()) + flatten_limit(path, ls.last().0, ls.last().1)
    }
}

/// The thresholds all limit files declare, file after file.
pub open spec fn flatten_all(files: Seq<(Seq<char>, Seq<(Kind, LimitView)>)>) -> Seq<(EntryView, Option<u64>)>
    decreases files.len(),
{
    if files.len() == 0 {
        Seq::empty()
    } else {
        flatten_all(files.drop_last()) + flatten_file(files.last().0, files.last().1)
    }
}

/// The views of limit files by path.
pub open spec fn files_view(raw: Seq<(String, LimitsFile)>) -> Seq<(Seq<char>, Seq<(Kind, LimitView)>)> {
    raw.map_values(|p: (String, LimitsFile)| (p.0@, p.1@))
}

/// Lists every threshold that the limit files declare, keyed by limit file, kind and
/// category; a single number of a kind is keyed by the wildcard category.
pub fn flatten_limits(raw_form: &Vec<(String, LimitsFile)>) -> (r: Vec<(LimitsEntry, Option<u64>)>)
    ensures
        flat_view(r@) == flatten_all(files_view(raw_form@)),
{
    let ghost files = files_view(raw_form@);
    let mut result: Vec<(LimitsEntry, Option<u64>)> = Vec::new();
    let mut i: usize = 0;
    while i < raw_form.len()
        invariant
            files == files_view(raw_form@),
            i <= raw_form.len(),
            flat_view(result@) == flatten_all(files.take(i as int)),
        decreases raw_form.len() - i,
    {
        let path = &raw_form[i].0;
        let ls = raw_form[i].1.iter();
        let ghost lv = crate::limits::limits_view(ls@);
        let ghost base = flat_view(result@);
        let mut j: usize = 0;
        while j < ls.len()
            invariant
                lv == crate::limits::limits_view(ls@),
                lv == files[i as int].1,
                path@ == files[i as int].0,
                j <= ls.len(),
                flat_view(result@) == base + flatten_file(path@, lv.take(j as int)),
            decreases ls.len() - j,
        {
            let kind = ls[j].0;
            let ghost mid = flat_view(result@);
            match &ls[j].1 {
                Limit::Number(x) => {
                    result.push((LimitsEntry { limits_file: Some(path.clone()), kind, category: Category::Wildcard }, *x));
                    assert(flat_view(result@) =~= mid + flatten_limit(path@, kind, lv[j as int].1));
                },
                Limit::PerCategory(cats) => {
                    let mut k: usize = 0;
                    while k < cats.len()
                        invariant
                            k <= cats.len(),
                            flat_view(result@) == mid + flatten_limit(path@, kind, LimitView::PerCategory(cats@.take(k as int))),
                        decreases cats.len() - k,
                    {
                        let (c, x) = cats[k];
                        let ghost prev = flat_view(result@);
                        let ghost item = (EntryView { limits_file: Some(path@), kind, category: c }, x);
                        result.push((LimitsEntry { limits_file: Some(path.clone()), kind, category: c }, x));
                        proof {
                            assert(flat_view(result@) =~= prev.push(item));
                            assert(flatten_limit(path@, kind, LimitView::PerCategory(cats@.take(k + 1)))
                                =~= flatten_limit(path@, kind, LimitView::PerCategory(cats@.take(k as int))).push(item));
                            assert(flat_view(result@) =~= mid + flatten_limit(path@, kind, LimitView::PerCategory(cats@.take(k + 1))));
                        }
                        k = k + 1;
                    }
                    assert(cats@.take(k as int) == cats@);
                },
            }
            proof {
                assert(lv.take(j + 1).drop_last() == lv.take(j as int));
                assert(lv.take(j + 1).last() == lv[j as int]);
                assert(flat_view(result@) =~= base + flatten_file(path@, lv.take(j + 1)));
            }
            j = j + 1;
        }
        proof {
            assert(lv.take(j as int) == lv);
            assert(files.take(i + 1).drop_last() == files.take(i as int));
            assert(files.take(i + 1).last() == files[i as int]);
        }
        i = i + 1;
    }
    assert(files.take(i as int) == files);
    result
}

} // verus!
