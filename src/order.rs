//! The orders in which counts and warnings are reported. Paths are compared component
//! by component: the root directory first, then `.`, then `..`, then names in text
//! order.
use crate::arena::StrId;
use crate::limits::Category;
use crate::search_in_files::{components_of, path_components, strs_view};
use crate::warnings::{CountView, CountsTowardsLimit, EntryCount, WarningView};
use vstd::multiset::Multiset;
use vstd::prelude::*;
use vstd::string::*;

verus! {

/// Compares two texts character by character: -1, 0 or 1 as `a` comes before, equals
/// or comes after `b`; a prefix comes first.
pub open spec fn text_cmp(a: Seq<char>, b: Seq<char>) -> int
    decreases a.len(),
{
    if a.len() == 0 {
        if b.len() == 0 {
            0
        } else {
            -1
        }
    } else if b.len() == 0 {
        1
    } else if (a[0] as u32) < (b[0] as u32) {
        -1
    } else if (a[0] as u32) > (b[0] as u32) {
        1
    } else {
        text_cmp(a.drop_first(), b.drop_first())
    }
}

/// Compares two integers.
pub open spec fn int_cmp(a: int, b: int) -> int {
    if a < b {
        -1
    } else if a > b {
        1
    } else {
        0
    }
}

/// Where a path component stands among the kinds of components: the root directory,
/// `.`, `..`, then names.
pub open spec fn component_rank(c: Seq<char>) -> int {
    if c == seq!['/'] {
        0
    } else if c == seq!['.'] {
        1
    } else if c == seq!['.', '.'] {
        2
    } else {
        3
    }
}

/// Compares two path components: by kind, then names in text order.
pub open spec fn component_cmp(a: Seq<char>, b: Seq<char>) -> int {
    if component_rank(a) != component_rank(b) {
        int_cmp(component_rank(a), component_rank(b))
    } else if component_rank(a) == 3 {
        text_cmp(a, b)
    } else {
        0
    }
}

/// Compares two sequences of components, the first difference deciding; a prefix
/// comes first.
pub open spec fn components_cmp(a: Seq<Seq<char>>, b: Seq<Seq<char>>) -> int
    decreases a.len(),
{
    if a.len() == 0 {
        if b.len() == 0 {
            0
        } else {
            -1
        }
    } else if b.len() == 0 {
        1
    } else if component_cmp(a[0], b[0]) != 0 {
        component_cmp(a[0], b[0])
    } else {
        components_cmp(a.drop_first(), b.drop_first())
    }
}

/// Compares two paths by their components.
pub open spec fn path_cmp(a: Seq<char>, b: Seq<char>) -> int {
    components_cmp(path_components(a), path_components(b))
}

/// Compares two optional paths; none comes first.
pub open spec fn opt_path_cmp(a: Option<Seq<char>>, b: Option<Seq<char>>) -> int {
    match (a, b) {
        (None, None) => 0,
        (None, Some(_)) => -1,
        (Some(_), None) => 1,
        (Some(x), Some(y)) => path_cmp(x, y),
    }
}

/// Compares two optional positions; none comes first.
pub open spec fn position_cmp(a: Option<usize>, b: Option<usize>) -> int {
    match (a, b) {
        (None, None) => 0,
        (None, Some(_)) => -1,
        (Some(_), None) => 1,
        (Some(x), Some(y)) => int_cmp(x as int, y as int),
    }
}

/// Compares two warnings: by culprit, then line, then column.
pub open spec fn warning_cmp(a: WarningView, b: WarningView) -> int {
    let c1 = path_cmp(a.culprit, b.culprit);
    let c2 = position_cmp(a.line, b.line);
    if c1 != 0 {
        c1
    } else if c2 != 0 {
        c2
    } else {
        position_cmp(a.column, b.column)
    }
}

/// Compares two handles: by arena, then by position.
pub open spec fn id_cmp(a: StrId, b: StrId) -> int {
    if a.arena != b.arena {
        int_cmp(a.arena as int, b.arena as int)
    } else {
        int_cmp(a.index as int, b.index as int)
    }
}

/// Compares two categories; the wildcard comes first.
pub open spec fn category_cmp(a: Category, b: Category) -> int {
    match (a, b) {
        (Category::Wildcard, Category::Wildcard) => 0,
        (Category::Wildcard, Category::Specific(_)) => -1,
        (Category::Specific(_), Category::Wildcard) => 1,
        (Category::Specific(x), Category::Specific(y)) => id_cmp(x, y),
    }
}

/// Compares two thresholds; the infinite one comes first.
pub open spec fn limit_cmp(a: Option<u64>, b: Option<u64>) -> int {
    match (a, b) {
        (None, None) => 0,
        (None, Some(_)) => -1,
        (Some(_), None) => 1,
        (Some(x), Some(y)) => int_cmp(x as int, y as int),
    }
}

/// Compares two counts: by limit file, kind, category, threshold and count, in turn.
pub open spec fn count_cmp(a: CountView, b: CountView) -> int {
    let c1 = opt_path_cmp(a.entry.limits_file, b.entry.limits_file);
    let c2 = id_cmp(a.entry.kind.0, b.entry.kind.0);
    let c3 = category_cmp(a.entry.category, b.entry.category);
    let c4 = limit_cmp(a.limit, b.limit);
    let c5 = int_cmp(a.actual as int, b.actual as int);
    if c1 != 0 {
        c1
    } else if c2 != 0 {
        c2
    } else if c3 != 0 {
        c3
    } else if c4 != 0 {
        c4
    } else {
        c5
    }
}

/// Characters with the same code point are the same character.
pub proof fn lemma_same_code_point(c: char, d: char)
    requires
        (c as u32) == (d as u32),
    ensures
        c == d,
{
}

/// Swapping the texts negates the comparison, and only equal texts compare equal.
pub proof fn lemma_text_cmp_antisymmetric(a: Seq<char>, b: Seq<char>)
    ensures
        text_cmp(a, b) == -text_cmp(b, a),
        -1 <= text_cmp(a, b) <= 1,
        (text_cmp(a, b) == 0) == (a == b),
    decreases a.len(),
{
    if a.len() > 0 && b.len() > 0 && (a[0] as u32) == (b[0] as u32) {
        lemma_text_cmp_antisymmetric(a.drop_first(), b.drop_first());
        if a.drop_first() == b.drop_first() {
            assert(a =~= b) by {
                assert(a.len() == b.len());
                assert forall|i: int| 0 <= i < a.len() implies a[i] == b[i] by {
                    if i > 0 {
                        assert(a[i] == a.drop_first()[i - 1]);
                        assert(b[i] == b.drop_first()[i - 1]);
                    } else {
                        lemma_same_code_point(a[0], b[0]);
                    }
                }
            }
        }
    }
    if a.len() > 0 && a == b {
        assert(a.drop_first() == b.drop_first());
    }
    if a.len() == 0 && b.len() == 0 {
        assert(a =~= b);
    }
}

/// The text order is transitive.
pub proof fn lemma_text_cmp_transitive(a: Seq<char>, b: Seq<char>, c: Seq<char>)
    requires
        text_cmp(a, b) <= 0,
        text_cmp(b, c) <= 0,
    ensures
        text_cmp(a, c) <= 0,
    decreases a.len(),
{
    if a.len() > 0 && b.len() > 0 && c.len() > 0 && (a[0] as u32) == (b[0] as u32) && (b[0] as u32) == (c[0] as u32) {
        lemma_text_cmp_transitive(a.drop_first(), b.drop_first(), c.drop_first());
    }
}

/// Swapping two components negates their comparison.
pub proof fn lemma_component_cmp_antisymmetric(a: Seq<char>, b: Seq<char>)
    ensures
        component_cmp(a, b) == -component_cmp(b, a),
        -1 <= component_cmp(a, b) <= 1,
        (component_cmp(a, b) == 0) == (a == b),
{
    lemma_text_cmp_antisymmetric(a, b);
}

/// The component order is transitive.
pub proof fn lemma_component_cmp_transitive(a: Seq<char>, b: Seq<char>, c: Seq<char>)
    requires
        component_cmp(a, b) <= 0,
        component_cmp(b, c) <= 0,
    ensures
        component_cmp(a, c) <= 0,
        component_cmp(a, b) == 0 && component_cmp(b, c) == 0 ==> component_cmp(a, c) == 0,
{
    lemma_text_cmp_antisymmetric(a, b);
    lemma_text_cmp_antisymmetric(b, c);
    lemma_text_cmp_antisymmetric(a, c);
    if component_rank(a) == 3 && component_rank(b) == 3 && component_rank(c) == 3 {
        lemma_text_cmp_transitive(a, b, c);
    }
}

/// Swapping two component sequences negates their comparison.
pub proof fn lemma_components_cmp_antisymmetric(a: Seq<Seq<char>>, b: Seq<Seq<char>>)
    ensures
        components_cmp(a, b) == -components_cmp(b, a),
        -1 <= components_cmp(a, b) <= 1,
        (components_cmp(a, b) == 0) == (a == b),
    decreases a.len(),
{
    if a.len() > 0 && b.len() > 0 {
        lemma_component_cmp_antisymmetric(a[0], b[0]);
        lemma_components_cmp_antisymmetric(a.drop_first(), b.drop_first());
        if a[0] == b[0] && a.drop_first() == b.drop_first() {
            assert(a =~= b) by {
                assert(a.len() == b.len());
                assert forall|i: int| 0 <= i < a.len() implies a[i] == b[i] by {
                    if i > 0 {
                        assert(a[i] == a.drop_first()[i - 1]);
                        assert(b[i] == b.drop_first()[i - 1]);
                    }
                }
            }
        }
        if a == b {
            assert(a.drop_first() == b.drop_first());
        }
    }
    if a.len() == 0 && b.len() == 0 {
        assert(a =~= b);
    }
}

/// The order of component sequences is transitive.
pub proof fn lemma_components_cmp_transitive(a: Seq<Seq<char>>, b: Seq<Seq<char>>, c: Seq<Seq<char>>)
    requires
        components_cmp(a, b) <= 0,
        components_cmp(b, c) <= 0,
    ensures
        components_cmp(a, c) <= 0,
    decreases a.len(),
{
    lemma_components_cmp_antisymmetric(a, b);
    lemma_components_cmp_antisymmetric(b, c);
    if a.len() > 0 && b.len() > 0 && c.len() > 0 {
        lemma_component_cmp_antisymmetric(a[0], b[0]);
        lemma_component_cmp_antisymmetric(b[0], c[0]);
        lemma_component_cmp_antisymmetric(a[0], c[0]);
        if component_cmp(a[0], b[0]) <= 0 && component_cmp(b[0], c[0]) <= 0 {
            lemma_component_cmp_transitive(a[0], b[0], c[0]);
        }
        if component_cmp(a[0], b[0]) == 0 && component_cmp(b[0], c[0]) == 0 {
            lemma_components_cmp_transitive(a.drop_first(), b.drop_first(), c.drop_first());
        }
    }
}

/// Swapping two counts negates their comparison.
pub proof fn lemma_count_cmp_antisymmetric(a: CountView, b: CountView)
    ensures
        count_cmp(a, b) == -count_cmp(b, a),
{
    if let (Some(x), Some(y)) = (a.entry.limits_file, b.entry.limits_file) {
        lemma_components_cmp_antisymmetric(path_components(x), path_components(y));
    }
}

/// Swapping two warnings negates their comparison.
pub proof fn lemma_warning_cmp_antisymmetric(a: WarningView, b: WarningView)
    ensures
        warning_cmp(a, b) == -warning_cmp(b, a),
{
    lemma_components_cmp_antisymmetric(path_components(a.culprit), path_components(b.culprit));
}

/// The order of warnings is transitive.
pub proof fn lemma_warning_cmp_transitive(a: WarningView, b: WarningView, c: WarningView)
    requires
        warning_cmp(a, b) <= 0,
        warning_cmp(b, c) <= 0,
    ensures
        warning_cmp(a, c) <= 0,
{
    let (x, y, z) = (path_components(a.culprit), path_components(b.culprit), path_components(c.culprit));
    lemma_components_cmp_antisymmetric(x, y);
    lemma_components_cmp_antisymmetric(y, z);
    lemma_components_cmp_antisymmetric(x, z);
    if components_cmp(x, y) <= 0 && components_cmp(y, z) <= 0 {
        lemma_components_cmp_transitive(x, y, z);
    }
}

/// The order of counts is transitive.
pub proof fn lemma_count_cmp_transitive(a: CountView, b: CountView, c: CountView)
    requires
        count_cmp(a, b) <= 0,
        count_cmp(b, c) <= 0,
    ensures
        count_cmp(a, c) <= 0,
{
    let (fa, fb, fc) = (a.entry.limits_file, b.entry.limits_file, c.entry.limits_file);
    if let (Some(x), Some(y)) = (fa, fb) {
        lemma_components_cmp_antisymmetric(path_components(x), path_components(y));
    }
    if let (Some(y), Some(z)) = (fb, fc) {
        lemma_components_cmp_antisymmetric(path_components(y), path_components(z));
    }
    if let (Some(x), Some(z)) = (fa, fc) {
        lemma_components_cmp_antisymmetric(path_components(x), path_components(z));
    }
    if let (Some(x), Some(y), Some(z)) = (fa, fb, fc) {
        if path_cmp(x, y) <= 0 && path_cmp(y, z) <= 0 {
            lemma_components_cmp_transitive(path_components(x), path_components(y), path_components(z));
        }
    }
}

/// Every count comes no later than every count after it.
pub open spec fn sorted_counts(s: Seq<CountView>) -> bool {
    forall|i: int, j: int| 0 <= i < j < s.len() ==> count_cmp(#[trigger] s[i], #[trigger] s[j]) <= 0
}

/// The first position, from `i` on, whose count comes strictly after `x`.
pub open spec fn first_after(s: Seq<CountView>, x: CountView, i: int) -> int
    decreases s.len() - i,
{
    if i < 0 || i >= s.len() {
        s.len() as int
    } else if count_cmp(s[i], x) > 0 {
        i
    } else {
        first_after(s, x, i + 1)
    }
}

/// `s` with `x` inserted after every count that does not come after it.
pub open spec fn insert_sorted(s: Seq<CountView>, x: CountView) -> Seq<CountView> {
    s.insert(first_after(s, x, 0), x)
}

/// The counts of `s` added one after the other by `insert_sorted`.
pub open spec fn sorted_from(s: Seq<CountView>) -> Seq<CountView>
    decreases s.len(),
{
    if s.len() == 0 {
        s
    } else {
        insert_sorted(sorted_from(s.drop_last()), s.last())
    }
}

/// Where `first_after` points, and what lies before it.
pub proof fn lemma_first_after(s: Seq<CountView>, x: CountView, i: int)
    requires
        0 <= i <= s.len(),
    ensures
        i <= first_after(s, x, i) <= s.len(),
        forall|k: int| i <= k < first_after(s, x, i) ==> count_cmp(#[trigger] s[k], x) <= 0,
        first_after(s, x, i) < s.len() ==> count_cmp(s[first_after(s, x, i)], x) > 0,
    decreases s.len() - i,
{
    if i < s.len() && count_cmp(s[i], x) <= 0 {
        lemma_first_after(s, x, i + 1);
    }
}

/// Inserting by `insert_sorted` keeps a sorted sequence sorted and adds one count.
pub proof fn lemma_insert_sorted(s: Seq<CountView>, x: CountView)
    requires
        sorted_counts(s),
    ensures
        sorted_counts(insert_sorted(s, x)),
        insert_sorted(s, x).to_multiset() == s.to_multiset().insert(x),
{
    let p = first_after(s, x, 0);
    lemma_first_after(s, x, 0);
    let t = insert_sorted(s, x);
    assert forall|i: int, j: int| 0 <= i < j < t.len() implies count_cmp(#[trigger] t[i], #[trigger] t[j]) <= 0 by {
        if i == p {
            // x against a later count
            lemma_count_cmp_antisymmetric(s[p], x);
            if j - 1 > p {
                lemma_count_cmp_transitive(x, s[p], s[j - 1]);
            }
        } else if j == p {
            assert(count_cmp(s[i], x) <= 0);
        } else if i < p && j > p {
            assert(count_cmp(s[i], s[j - 1]) <= 0);
        } else if i > p {
            assert(count_cmp(s[i - 1], s[j - 1]) <= 0);
        } else {
            assert(count_cmp(s[i], s[j]) <= 0);
        }
    }
    broadcast use vstd::seq_lib::group_to_multiset_ensures;
    assert(t.remove(p) =~= s);
    assert(t[p] == x);
    assert(s.to_multiset() == t.to_multiset().remove(x));
    assert(t.to_multiset().count(x) > 0) by {
        assert(t.contains(x));
    }
    assert(t.to_multiset() =~= s.to_multiset().insert(x));
}

/// Adding counts one after the other by `insert_sorted` sorts them.
pub proof fn lemma_sorted_from(s: Seq<CountView>)
    ensures
        sorted_counts(sorted_from(s)),
        sorted_from(s).to_multiset() == s.to_multiset(),
    decreases s.len(),
{
    broadcast use vstd::seq_lib::group_to_multiset_ensures;
    if s.len() > 0 {
        lemma_sorted_from(s.drop_last());
        lemma_insert_sorted(sorted_from(s.drop_last()), s.last());
        assert(s.drop_last().push(s.last()) == s);
    } else {
        assert(s.to_multiset() =~= Multiset::empty());
    }
}

/// Compares two integers.
fn cmp_u64(a: u64, b: u64) -> (r: i8)
    ensures
        r as int == int_cmp(a as int, b as int),
{
    if a < b {
        -1
    } else if a > b {
        1
    } else {
        0
    }
}

/// Compares two texts character by character.
pub fn compare_text(a: &str, b: &str) -> (r: i8)
    ensures
        r as int == text_cmp(a@, b@),
{
    let n = a.unicode_len();
    let m = b.unicode_len();
    let mut i: usize = 0;
    assert(a@.skip(0) == a@);
    assert(b@.skip(0) == b@);
    while i < n && i < m
        invariant
            n == a@.len(),
            m == b@.len(),
            i <= n,
            i <= m,
            text_cmp(a@, b@) == text_cmp(a@.skip(i as int), b@.skip(i as int)),
        decreases n - i,
    {
        let x = a.get_char(i);
        let y = b.get_char(i);
        assert(a@.skip(i as int)[0] == x);
        assert(b@.skip(i as int)[0] == y);
        if (x as u32) < (y as u32) {
            return -1;
        }
        if (x as u32) > (y as u32) {
            return 1;
        }
        assert(a@.skip(i as int).drop_first() == a@.skip(i + 1));
        assert(b@.skip(i as int).drop_first() == b@.skip(i + 1));
        i = i + 1;
    }
    if i == n {
        if i == m {
            0
        } else {
            -1
        }
    } else {
        1
    }
}

/// Where a component stands among the kinds of components.
fn rank_of(c: &str) -> (r: u64)
    ensures
        r as int == component_rank(c@),
{
    let n = c.unicode_len();
    if n == 1 && c.get_char(0) == '/' {
        assert(c@ =~= seq!['/']);
        0
    } else if n == 1 && c.get_char(0) == '.' {
        assert(c@ =~= seq!['.']);
        1
    } else if n == 2 && c.get_char(0) == '.' && c.get_char(1) == '.' {
        assert(c@ =~= seq!['.', '.']);
        2
    } else {
        proof {
            if c@ == seq!['/'] || c@ == seq!['.'] || c@ == seq!['.', '.'] {
                assert(c@[0] == c@[0]);
            }
        }
        3
    }
}

/// Compares two path components.
fn compare_component(a: &str, b: &str) -> (r: i8)
    ensures
        r as int == component_cmp(a@, b@),
{
    let (ra, rb) = (rank_of(a), rank_of(b));
    if ra != rb {
        cmp_u64(ra, rb)
    } else if ra == 3 {
        compare_text(a, b)
    } else {
        0
    }
}

/// Compares two paths component by component.
pub fn compare_paths(a: &str, b: &str) -> (r: i8)
    ensures
        r as int == path_cmp(a@, b@),
{
    let ca = components_of(a);
    let cb = components_of(b);
    let ghost va = strs_view(ca@);
    let ghost vb = strs_view(cb@);
    let mut i: usize = 0;
    assert(va.skip(0) == va);
    assert(vb.skip(0) == vb);
    while i < ca.len() && i < cb.len()
        invariant
            va == strs_view(ca@),
            vb == strs_view(cb@),
            i <= ca.len(),
            i <= cb.len(),
            path_cmp(a@, b@) == components_cmp(va.skip(i as int), vb.skip(i as int)),
        decreases ca.len() - i,
    {
        let c = compare_component(ca[i].as_str(), cb[i].as_str());
        assert(va.skip(i as int)[0] == va[i as int]);
        assert(vb.skip(i as int)[0] == vb[i as int]);
        if c != 0 {
            return c;
        }
        assert(va.skip(i as int).drop_first() == va.skip(i + 1));
        assert(vb.skip(i as int).drop_first() == vb.skip(i + 1));
        i = i + 1;
    }
    if i == ca.len() {
        if i == cb.len() {
            0
        } else {
            -1
        }
    } else {
        1
    }
}

/// Compares two optional positions.
fn compare_positions(a: Option<usize>, b: Option<usize>) -> (r: i8)
    ensures
        r as int == position_cmp(a, b),
{
    match (a, b) {
        (None, None) => 0,
        (None, Some(_)) => -1,
        (Some(_), None) => 1,
        (Some(x), Some(y)) => cmp_u64(x as u64, y as u64),
    }
}

/// Compares two warnings in reporting order: by culprit, then line, then column.
pub fn compare_warnings(a: &CountsTowardsLimit, b: &CountsTowardsLimit) -> (r: i8)
    ensures
        r as int == warning_cmp(a@, b@),
{
    let c1 = compare_paths(a.culprit().as_str(), b.culprit().as_str());
    if c1 != 0 {
        return c1;
    }
    let c2 = compare_positions(a.line(), b.line());
    if c2 != 0 {
        return c2;
    }
    compare_positions(a.column(), b.column())
}

/// Compares two counts in reporting order.
pub fn compare_counts(a: &EntryCount, b: &EntryCount) -> (r: i8)
    ensures
        r as int == count_cmp(a@, b@),
{
    let (ea, eb) = (a.entry(), b.entry());
    let c1: i8 = match (&ea.limits_file, &eb.limits_file) {
        (None, None) => 0,
        (None, Some(_)) => -1,
        (Some(_), None) => 1,
        (Some(x), Some(y)) => compare_paths(x.as_str(), y.as_str()),
    };
    if c1 != 0 {
        return c1;
    }
    let (ka, kb) = (ea.kind.0, eb.kind.0);
    let c2 = if ka.arena != kb.arena {
        cmp_u64(ka.arena as u64, kb.arena as u64)
    } else {
        cmp_u64(ka.index as u64, kb.index as u64)
    };
    if c2 != 0 {
        return c2;
    }
    let c3: i8 = match (ea.category, eb.category) {
        (Category::Wildcard, Category::Wildcard) => 0,
        (Category::Wildcard, Category::Specific(_)) => -1,
        (Category::Specific(_), Category::Wildcard) => 1,
        (Category::Specific(x), Category::Specific(y)) => if x.arena != y.arena {
            cmp_u64(x.arena as u64, y.arena as u64)
        } else {
            cmp_u64(x.index as u64, y.index as u64)
        },
    };
    if c3 != 0 {
        return c3;
    }
    let c4: i8 = match (a.limit(), b.limit()) {
        (None, None) => 0,
        (None, Some(_)) => -1,
        (Some(_), None) => 1,
        (Some(x), Some(y)) => cmp_u64(x, y),
    };
    if c4 != 0 {
        return c4;
    }
    cmp_u64(a.actual(), b.actual())
}

} // verus!
