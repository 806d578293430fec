//! Searching inside log files: which limit file a culprit falls under, and the
//! warnings that one regular expression finds in one log file.
use crate::arena::{ArenaView, SearchableArena, StrId};
use crate::grouped::GroupedWarnings;
use crate::limits::{Category, EntryView, LimitsEntry};
use crate::settings::Kind;
use crate::warnings::{CountsTowardsLimit, Description, WarningView};
use regex::{Regex, RegexBuilder};
use vstd::hash_map::StringHashMap;
use vstd::prelude::*;
use vstd::string::*;

verus! {

/// What one scan of one log file with one kind's regular expression found: the arena
/// that its categories and descriptions were interned in, and the warnings by entry.
pub struct LogSearchResults {
    pub string_arena: SearchableArena,
    pub warnings: GroupedWarnings,
}

impl LogSearchResults {
    /// The arena and the groups are well formed, and every handle of the warnings
    /// belongs to the result's own arena.
    pub open spec fn wf(&self) -> bool {
        &&& self.string_arena.wf()
        &&& self.warnings.wf()
        &&& forall|e: EntryView, w: WarningView| #[trigger] self.warnings@.contains((e, w))
            ==> e.category.resolves_in(self.string_arena@) && w.resolves_in(self.string_arena@)
    }
}

/// The components of a path, as `std::path::Path::components` yields them, each as its
/// text.
pub uninterp spec fn path_components(p: Seq<char>) -> Seq<Seq<char>>;

/// Relies on `std::path::Path::components`: the path's components, in order, each turned
/// into its text (the root directory reads `/`).
#[verifier::external_body]
pub(crate) fn components_of(p: &str) -> (r: Vec<String>)
    ensures
        strs_view(r@) == path_components(p@),
{
    std::path::Path::new(p).components().map(|c| c.as_os_str().to_string_lossy().into_owned()).collect()
}

/// The views of a sequence of strings.
pub open spec fn strs_view(v: Seq<String>) -> Seq<Seq<char>> {
    v.map_values(|s: String| s@)
}

/// A path (as components) has a parent: it is not empty, and not the root alone.
pub open spec fn has_parent(c: Seq<Seq<char>>) -> bool {
    c.len() > 0 && c.last() != seq!['/']
}

/// The components `b` are a suffix of the components `a`.
pub open spec fn ends_with(a: Seq<Seq<char>>, b: Seq<Seq<char>>) -> bool {
    b.len() <= a.len() && a.subrange(a.len() - b.len(), a.len() as int) == b
}

/// The directory a limit file stands in, as components; nothing for a path without a
/// parent.
pub open spec fn limit_dir(limit_file: Seq<char>) -> Option<Seq<Seq<char>>> {
    let c = path_components(limit_file);
    if has_parent(c) {
        Some(c.drop_last())
    } else {
        None
    }
}

/// The limit file's directory ends with the ancestor `anc`.
pub open spec fn dir_matches(limit_file: Seq<char>, anc: Seq<Seq<char>>) -> bool {
    match limit_dir(limit_file) {
        Some(d) => ends_with(d, anc),
        None => false,
    }
}

/// The first limit file, from position `j` on, whose directory ends with `anc`.
pub open spec fn first_match_from(limits: Seq<Seq<char>>, anc: Seq<Seq<char>>, j: int) -> Option<int>
    decreases limits.len() - j,
{
    if j < 0 || j >= limits.len() {
        None
    } else if dir_matches(limits[j], anc) {
        Some(j)
    } else {
        first_match_from(limits, anc, j + 1)
    }
}

/// The limit file for the ancestors of `c` of at most `k` components, nearest first; the
/// search stops at the first ancestor that has no parent.
pub open spec fn resolve_from(limits: Seq<Seq<char>>, c: Seq<Seq<char>>, k: int) -> Option<int>
    decreases k,
{
    if k <= 0 || !has_parent(c.take(k)) {
        None
    } else {
        match first_match_from(limits, c.take(k), 0) {
            Some(j) => Some(j),
            None => resolve_from(limits, c, k - 1),
        }
    }
}

/// The position of the limit file responsible for `culprit`: the first one whose
/// directory ends with the culprit's nearest ancestor that any limit file's directory
/// ends with.
pub open spec fn resolve_limits(limits: Seq<Seq<char>>, culprit: Seq<char>) -> Option<int> {
    resolve_from(limits, path_components(culprit), path_components(culprit).len() as int)
}

/// A limit file found from position `j` on is a position of `limits`.
pub proof fn lemma_first_match_range(limits: Seq<Seq<char>>, anc: Seq<Seq<char>>, j: int)
    ensures
        match first_match_from(limits, anc, j) {
            Some(t) => 0 <= t < limits.len(),
            None => true,
        },
    decreases limits.len() - j,
{
    if 0 <= j < limits.len() && !dir_matches(limits[j], anc) {
        lemma_first_match_range(limits, anc, j + 1);
    }
}

/// The limit file found for a culprit is a position of `limits`.
pub proof fn lemma_resolve_range(limits: Seq<Seq<char>>, c: Seq<Seq<char>>, k: int)
    ensures
        match resolve_from(limits, c, k) {
            Some(t) => 0 <= t < limits.len(),
            None => true,
        },
    decreases k,
{
    if k > 0 && has_parent(c.take(k)) {
        lemma_first_match_range(limits, c.take(k), 0);
        lemma_resolve_range(limits, c, k - 1);
    }
}

/// Whether a component is the root directory.
fn is_root(c: &String) -> (r: bool)
    ensures
        r == (c@ == seq!['/']),
{
    let s = c.as_str();
    if s.unicode_len() == 1 && s.get_char(0) == '/' {
        assert(s@ == seq!['/']);
        true
    } else {
        false
    }
}

/// Whether the components `dir` end with the first `k` components of `c`.
fn dir_ends_with(dir: &Vec<String>, c: &Vec<String>, k: usize) -> (r: bool)
    requires
        k <= c.len(),
    ensures
        r == ends_with(strs_view(dir@), strs_view(c@).take(k as int)),
{
    let ghost a = strs_view(dir@);
    let ghost b = strs_view(c@).take(k as int);
    if k > dir.len() {
        return false;
    }
    let off = dir.len() - k;
    let mut i: usize = 0;
    while i < k
        invariant
            k <= c.len(),
            off + k == dir.len(),
            a == strs_view(dir@),
            b == strs_view(c@).take(k as int),
            i <= k,
            forall|t: int| 0 <= t < i ==> a[off + t] == b[t],
        decreases k - i,
    {
        if dir[off + i] != c[i] {
            assert(a.subrange(a.len() - b.len(), a.len() as int)[i as int] != b[i as int]);
            return false;
        }
        i = i + 1;
    }
    assert(a.subrange(a.len() - b.len(), a.len() as int) == b);
    true
}

/// Finds the limit file responsible for `culprit_file`: walking the culprit's ancestors
/// from the nearest (the culprit's own path) outwards, and stopping before the root, the
/// first limit file whose directory ends with the ancestor. A limit file without a parent
/// directory is never responsible. Backslashes in `culprit_file` are not separators: they
/// must be normalised before.
pub fn find_limits_for<'a>(limits: &'a Vec<String>, culprit_file: &str) -> (r: Option<&'a String>)
    ensures
        match resolve_limits(strs_view(limits@), culprit_file@) {
            Some(j) => r is Some && 0 <= j < limits.len() && *r.unwrap() == limits@[j],
            None => r is None,
        },
{
    match find_limits_index(limits, culprit_file) {
        Some(j) => Some(&limits[j]),
        None => None,
    }
}

/// The position in `limits` of the limit file responsible for `culprit_file`, as
/// `find_limits_for` finds it.
pub fn find_limits_index(limits: &Vec<String>, culprit_file: &str) -> (r: Option<usize>)
    ensures
        match resolve_limits(strs_view(limits@), culprit_file@) {
            Some(j) => r == Some(j as usize) && 0 <= j < limits.len(),
            None => r is None,
        },
{
    let ghost ls = strs_view(limits@);
    // The directory of each limit file, as components.
    let mut dirs: Vec<Option<Vec<String>>> = Vec::new();
    let mut j: usize = 0;
    while j < limits.len()
        invariant
            j <= limits.len(),
            dirs.len() == j,
            ls == strs_view(limits@),
            forall|t: int| 0 <= t < j ==> match #[trigger] dirs@[t] {
                Some(d) => limit_dir(ls[t]) == Some(strs_view(d@)),
                None => limit_dir(ls[t]) is None,
            },
        decreases limits.len() - j,
    {
        let mut comps = components_of(limits[j].as_str());
        if comps.len() > 0 && !is_root(&comps[comps.len() - 1]) {
            let ghost before = comps@;
            comps.pop();
            proof {
                assert(strs_view(comps@) == strs_view(before).drop_last());
            }
            dirs.push(Some(comps));
        } else {
            dirs.push(None);
        }
        j = j + 1;
    }
    let c = components_of(culprit_file);
    let ghost cv = strs_view(c@);
    let mut k: usize = c.len();
    while k > 0
        invariant
            k <= c.len(),
            cv == strs_view(c@),
            cv == path_components(culprit_file@),
            ls == strs_view(limits@),
            dirs.len() == limits.len(),
            forall|t: int| 0 <= t < limits.len() ==> match #[trigger] dirs@[t] {
                Some(d) => limit_dir(ls[t]) == Some(strs_view(d@)),
                None => limit_dir(ls[t]) is None,
            },
            resolve_limits(ls, culprit_file@) == resolve_from(ls, cv, k as int),
        decreases k,
    {
        proof {
            assert(cv.take(k as int).last() == cv[k - 1]);
        }
        if is_root(&c[k - 1]) {
            return None;
        }
        let mut j: usize = 0;
        while j < dirs.len()
            invariant
                0 < k <= c.len(),
                cv == strs_view(c@),
                has_parent(cv.take(k as int)),
                ls == strs_view(limits@),
                dirs.len() == limits.len(),
                forall|t: int| 0 <= t < limits.len() ==> match #[trigger] dirs@[t] {
                    Some(d) => limit_dir(ls[t]) == Some(strs_view(d@)),
                    None => limit_dir(ls[t]) is None,
                },
                j <= dirs.len(),
                resolve_limits(ls, culprit_file@) == resolve_from(ls, cv, k as int),
                first_match_from(ls, cv.take(k as int), 0) == first_match_from(ls, cv.take(k as int), j as int),
            decreases dirs.len() - j,
        {
            let found = match &dirs[j] {
                Some(d) => dir_ends_with(d, &c, k),
                None => false,
            };
            if found {
                proof {
                    assert(dir_matches(ls[j as int], cv.take(k as int)));
                    assert(first_match_from(ls, cv.take(k as int), j as int) == Some(j as int));
                }
                return Some(j);
            }
            j = j + 1;
        }
        k = k - 1;
    }
    None
}

#[verifier::external_type_specification]
#[verifier::external_body]
pub struct ExRegex(Regex);

#[verifier::external_type_specification]
#[verifier::external_body]
pub struct ExRegexError(regex::Error);

/// The named captures of one match, as text: `file`, `line`, `column`, `category` and
/// `description`, each absent when the match did not capture it.
pub struct RawMatch {
    pub file: Option<String>,
    pub line: Option<String>,
    pub column: Option<String>,
    pub category: Option<String>,
    pub description: Option<String>,
}

/// A `RawMatch` as a mathematical value.
pub struct MatchView {
    pub file: Option<Seq<char>>,
    pub line: Option<Seq<char>>,
    pub column: Option<Seq<char>>,
    pub category: Option<Seq<char>>,
    pub description: Option<Seq<char>>,
}

impl View for RawMatch {
    type V = MatchView;

    open spec fn view(&self) -> MatchView {
        MatchView {
            file: crate::limits::opt_str_view(self.file),
            line: crate::limits::opt_str_view(self.line),
            column: crate::limits::opt_str_view(self.column),
            category: crate::limits::opt_str_view(self.category),
            description: crate::limits::opt_str_view(self.description),
        }
    }
}

/// The views of a sequence of matches.
pub open spec fn matches_view(ms: Seq<RawMatch>) -> Seq<MatchView> {
    ms.map_values(|m: RawMatch| m@)
}

/// The matches, in order, that the regular expression `pattern`, compiled in multi-line
/// mode, finds in `text`, each with its named captures.
pub uninterp spec fn regex_matches(pattern: Seq<char>, text: Seq<char>) -> Seq<MatchView>;

/// The capture groups of the regular expression `pattern`, in order, each with its name
/// (none for an unnamed group).
pub uninterp spec fn regex_group_names(pattern: Seq<char>) -> Seq<Option<Seq<char>>>;

/// A regular expression that finds warnings, compiled in multi-line mode, together with
/// its pattern.
pub struct WarningRegex {
    pattern: String,
    compiled: Regex,
}

/// Whether `pattern`, in multi-line mode, is a regular expression that compiles.
pub uninterp spec fn regex_compiles(pattern: Seq<char>) -> bool;

/// Relies on `regex::RegexBuilder` (`new`, `multi_line(true)`, `build`): compiles
/// `pattern` in multi-line mode, or says why it is no regular expression; which of the
/// two depends on the pattern alone. The result keeps the pattern beside the compiled
/// expression.
#[verifier::external_body]
fn compile_multi_line(pattern: &str) -> (r: Result<WarningRegex, regex::Error>)
    ensures
        r is Ok <==> regex_compiles(pattern@),
        r is Ok ==> r->Ok_0.pattern@ == pattern@,
{
    let compiled = RegexBuilder::new(pattern).multi_line(true).build()?;
    Ok(WarningRegex { pattern: pattern.to_owned(), compiled })
}

/// Relies on `regex::Regex::captures_iter` and `regex::Captures::name`: the successive
/// non-overlapping matches in `text`, each with the text of its named captures.
#[verifier::external_body]
fn find_matches(re: &WarningRegex, text: &str) -> (r: Vec<RawMatch>)
    ensures
        matches_view(r@) == regex_matches(re.pattern@, text@),
{
    re.compiled.captures_iter(text).map(|c| RawMatch {
        file: c.name("file").map(|m| m.as_str().to_owned()),
        line: c.name("line").map(|m| m.as_str().to_owned()),
        column: c.name("column").map(|m| m.as_str().to_owned()),
        category: c.name("category").map(|m| m.as_str().to_owned()),
        description: c.name("description").map(|m| m.as_str().to_owned()),
    }).collect()
}

/// Relies on `regex::Regex::capture_names`: the name of each capture group, in order.
#[verifier::external_body]
fn group_names(re: &WarningRegex) -> (r: Vec<Option<String>>)
    ensures
        r@.map_values(|n: Option<String>| crate::limits::opt_str_view(n)) == regex_group_names(re.pattern@),
{
    re.compiled.capture_names().map(|n| n.map(|s| s.to_owned())).collect()
}

/// Relies on `str::replace`: every backslash of `s` replaced by a slash.
#[verifier::external_body]
fn replace_backslashes(s: &str) -> (r: String)
    ensures
        r@ == normalize_separators(s@),
{
    s.replace('\\', "/")
}

impl WarningRegex {
    /// The pattern the regular expression was compiled from.
    pub closed spec fn pattern(&self) -> Seq<char> {
        self.pattern@
    }

    /// Compiles `pattern` in multi-line mode.
    pub fn new(pattern: &str) -> (r: Result<WarningRegex, regex::Error>)
        ensures
            r is Ok <==> regex_compiles(pattern@),
            r is Ok ==> r->Ok_0.pattern() == pattern@,
    {
        compile_multi_line(pattern)
    }

    /// Whether the regular expression has a capture group named `name`.
    pub fn has_group(&self, name: &str) -> (r: bool)
        ensures
            r == regex_group_names(self.pattern()).contains(Some(name@)),
    {
        let names = group_names(self);
        let ghost nv = names@.map_values(|n: Option<String>| crate::limits::opt_str_view(n));
        let wanted = name.to_owned();
        let mut i: usize = 0;
        while i < names.len()
            invariant
                nv == names@.map_values(|n: Option<String>| crate::limits::opt_str_view(n)),
                nv == regex_group_names(self.pattern()),
                wanted@ == name@,
                i <= names.len(),
                forall|t: int| 0 <= t < i ==> nv[t] != Some(name@),
            decreases names.len() - i,
        {
            if let Some(n) = &names[i] {
                if *n == wanted {
                    assert(nv[i as int] == Some(name@));
                    return true;
                }
            }
            i = i + 1;
        }
        proof {
            if nv.contains(Some(name@)) {
                let t = choose|t: int| 0 <= t < nv.len() && nv[t] == Some(name@);
            }
        }
        false
    }

    /// The matches the regular expression finds in `text`.
    pub fn matches(&self, text: &str) -> (r: Vec<RawMatch>)
        ensures
            matches_view(r@) == regex_matches(self.pattern(), text@),
    {
        find_matches(self, text)
    }
}

/// A path with each backslash turned into a slash.
pub open spec fn normalize_separators(s: Seq<char>) -> Seq<char> {
    s.map_values(|c: char| if c == '\\' { '/' } else { c })
}

/// The value of a string of decimal digits.
pub open spec fn digits_value(s: Seq<char>) -> nat
    decreases s.len(),
{
    if s.len() == 0 {
        0
    } else {
        digits_value(s.drop_last()) * 10 + ((s.last() as nat) - ('0' as nat)) as nat
    }
}

/// Every character is a decimal digit.
pub open spec fn all_digits(s: Seq<char>) -> bool {
    forall|i: int| 0 <= i < s.len() ==> '0' <= #[trigger] s[i] <= '9'
}

/// The positive integer that `s` writes (decimal digits after an optional `+`), if it
/// writes one that fits in `usize`.
pub open spec fn positive_number(s: Seq<char>) -> Option<usize> {
    let d = if s.len() > 0 && s[0] == '+' {
        s.drop_first()
    } else {
        s
    };
    if d.len() > 0 && all_digits(d) && 0 < digits_value(d) <= usize::MAX {
        Some(digits_value(d) as usize)
    } else {
        None
    }
}

/// Appending digits never lowers the value.
proof fn lemma_digits_value_grows(s: Seq<char>, i: int)
    requires
        0 <= i <= s.len(),
        all_digits(s),
    ensures
        digits_value(s.take(i)) <= digits_value(s),
    decreases s.len() - i,
{
    if i < s.len() {
        lemma_digits_value_grows(s, i + 1);
        assert(s.take(i + 1).drop_last() == s.take(i));
        assert('0' <= s.take(i + 1).last());
    } else {
        assert(s.take(i) == s);
    }
}

/// Reads a positive integer written in decimal, as line and column numbers are.
pub fn parse_positive(s: &str) -> (r: Option<usize>)
    ensures
        r == positive_number(s@),
{
    let n = s.unicode_len();
    let mut start: usize = 0;
    if n > 0 && s.get_char(0) == '+' {
        start = 1;
    }
    let ghost d = if s@.len() > 0 && s@[0] == '+' { s@.drop_first() } else { s@ };
    assert(d == s@.subrange(start as int, n as int));
    assert(positive_number(s@) == (if d.len() > 0 && all_digits(d) && 0 < digits_value(d) <= usize::MAX {
        Some(digits_value(d) as usize)
    } else {
        None
    }));
    if start >= n {
        return None;
    }
    let mut value: usize = 0;
    let mut i: usize = start;
    while i < n
        invariant
            n == s@.len(),
            start <= i <= n,
            positive_number(s@) == (if d.len() > 0 && all_digits(d) && 0 < digits_value(d) <= usize::MAX {
                Some(digits_value(d) as usize)
            } else {
                None
            }),
            d == s@.subrange(start as int, n as int),
            all_digits(d.take(i - start)),
            value == digits_value(d.take(i - start)),
        decreases n - i,
    {
        let c = s.get_char(i);
        let ghost k = i - start;
        assert(d.take(k + 1).drop_last() == d.take(k as int));
        assert(d.take(k + 1).last() == c);
        if c < '0' || c > '9' {
            assert(!all_digits(d)) by {
                assert(d[k as int] == c);
            }
            assert(positive_number(s@) is None);
            return None;
        }
        let digit = (c as u32 - '0' as u32) as usize;
        if value > (usize::MAX - digit) / 10 {
            proof {
                assert(value * 10 + digit > usize::MAX) by (nonlinear_arith)
                    requires value > (usize::MAX - digit) / 10, digit <= 9;
                if all_digits(d) {
                    assert(all_digits(d.take(k + 1)));
                    assert(digits_value(d.take(k + 1)) == value * 10 + digit);
                    lemma_digits_value_grows(d, k + 1);
                    assert(digits_value(d) > usize::MAX);
                }
                assert(positive_number(s@) is None);
            }
            return None;
        }
        proof {
            assert(value * 10 + digit <= usize::MAX) by (nonlinear_arith)
                requires value <= (usize::MAX - digit) / 10, digit <= 9;
            assert(all_digits(d.take(k + 1))) by {
                assert forall|t: int| 0 <= t < k + 1 implies '0' <= #[trigger] d.take(k + 1)[t] <= '9' by {
                    if t < k {
                        assert(d.take(k + 1)[t] == d.take(k as int)[t]);
                    }
                }
            }
        }
        value = value * 10 + digit;
        i = i + 1;
    }
    assert(d.take(n - start) == d);
    if value == 0 {
        None
    } else {
        Some(value)
    }
}

/// Why the warnings of a log file could not be read.
#[derive(Clone, Debug, PartialEq, Eq)]
pub enum ScanError {
    /// A match did not capture the culprit file.
    MissingFile,
    /// A match captured a line that is not a positive integer.
    BadLine(String),
    /// A match captured a column that is not a positive integer.
    BadColumn(String),
}

/// A `ScanError` as a mathematical value.
pub enum ScanErrorView {
    MissingFile,
    BadLine(Seq<char>),
    BadColumn(Seq<char>),
}

impl View for ScanError {
    type V = ScanErrorView;

    open spec fn view(&self) -> ScanErrorView {
        match self {
            ScanError::MissingFile => ScanErrorView::MissingFile,
            ScanError::BadLine(t) => ScanErrorView::BadLine(t@),
            ScanError::BadColumn(t) => ScanErrorView::BadColumn(t@),
        }
    }
}

/// The number an optional capture holds: none when absent; nothing at all when it is
/// not a positive integer.
pub open spec fn capture_number(c: Option<Seq<char>>) -> Option<Option<usize>> {
    match c {
        None => Some(None),
        Some(t) => match positive_number(t) {
            Some(n) => Some(Some(n)),
            None => None,
        },
    }
}

/// Why a match cannot be read, if it cannot: no culprit, or a line or column that is not
/// a positive integer (checked in this order).
pub open spec fn match_error(m: MatchView) -> Option<ScanErrorView> {
    if m.file is None {
        Some(ScanErrorView::MissingFile)
    } else if capture_number(m.line) is None {
        Some(ScanErrorView::BadLine(m.line.unwrap()))
    } else if capture_number(m.column) is None {
        Some(ScanErrorView::BadColumn(m.column.unwrap()))
    } else {
        None
    }
}

/// The error of the first match that cannot be read.
pub open spec fn first_error(ms: Seq<MatchView>) -> Option<ScanErrorView>
    decreases ms.len(),
{
    if ms.len() == 0 {
        None
    } else {
        match first_error(ms.drop_last()) {
            Some(e) => Some(e),
            None => match_error(ms.last()),
        }
    }
}

/// Once a match cannot be read, later matches change nothing.
pub proof fn lemma_first_error_stop(ms: Seq<MatchView>, k: int, n: int)
    requires
        0 <= k <= n <= ms.len(),
        first_error(ms.take(k)) is Some,
    ensures
        first_error(ms.take(n)) == first_error(ms.take(k)),
    decreases n - k,
{
    if n > k {
        lemma_first_error_stop(ms, k, n - 1);
        assert(ms.take(n).drop_last() == ms.take(n - 1));
    }
}

/// Interns an optional capture.
pub open spec fn intern_opt(a: ArenaView, c: Option<Seq<char>>) -> (ArenaView, Option<StrId>) {
    match c {
        Some(t) => (a.get_or_insert(t).0, Some(a.get_or_insert(t).1)),
        None => (a, None),
    }
}

/// What one readable match records: the arena after interning its category and then
/// its description, and the warning with the entry it counts towards. The entry names
/// the limit file responsible for the culprit, and the observed category only when
/// there is such a file.
pub open spec fn scan_match(limits: Seq<Seq<char>>, kind: Kind, a: ArenaView, m: MatchView) -> (
    ArenaView,
    (EntryView, WarningView),
) {
    let culprit = normalize_separators(m.file.unwrap());
    let cat = intern_opt(a, m.category);
    let desc = intern_opt(cat.0, m.description);
    let category = category_of(cat.1);
    let lf = resolve_limits(limits, culprit);
    let entry = EntryView {
        limits_file: match lf {
            Some(j) => Some(limits[j]),
            None => None,
        },
        kind,
        category: if lf is Some {
            category
        } else {
            Category::Wildcard
        },
    };
    let w = WarningView {
        culprit,
        line: capture_number(m.line).unwrap(),
        column: capture_number(m.column).unwrap(),
        kind,
        category,
        description: Description(desc.1),
    };
    (desc.0, (entry, w))
}

/// The arena and the warnings after recording the matches `ms` in order.
pub open spec fn scan_all(limits: Seq<Seq<char>>, kind: Kind, a: ArenaView, ms: Seq<MatchView>) -> (
    ArenaView,
    Set<(EntryView, WarningView)>,
)
    decreases ms.len(),
{
    if ms.len() == 0 {
        (a, Set::empty())
    } else {
        let prev = scan_all(limits, kind, a, ms.drop_last());
        let step = scan_match(limits, kind, prev.0, ms.last());
        (step.0, prev.1.insert(step.1))
    }
}

/// The view of an optional interned handle as a category.
pub open spec fn category_of(id: Option<StrId>) -> Category {
    match id {
        Some(i) => Category::Specific(i),
        None => Category::Wildcard,
    }
}

/// Records the warnings of `matches`, found with the regular expression of `kind`, in a
/// fresh arena: each under the limit file of `limits` responsible for its culprit (with
/// backslashes read as slashes). Fails on the first match without a culprit, or with a
/// line or column that is not a positive integer.
pub fn collect_matches(limits: &Vec<String>, kind: Kind, matches: &Vec<RawMatch>) -> (r: Result<LogSearchResults, ScanError>)
    ensures
        match r {
            Ok(res) => first_error(matches_view(matches@)) is None && res.wf() && (res.string_arena@, res.warnings@)
                == scan_all(
                strs_view(limits@),
                kind,
                ArenaView { identity: res.string_arena@.identity, strings: Seq::empty() },
                matches_view(matches@),
            ),
            Err(e) => first_error(matches_view(matches@)) == Some(e@),
        },
{
    let ghost lv = strs_view(limits@);
    let ghost mv = matches_view(matches@);
    let mut arena = SearchableArena::new();
    let ghost a0 = arena@;
    let mut warnings = GroupedWarnings::new();
    let mut cache: StringHashMap<Option<usize>> = StringHashMap::new();
    let mut i: usize = 0;
    while i < matches.len()
        invariant
            lv == strs_view(limits@),
            mv == matches_view(matches@),
            a0.strings == Seq::<Seq<char>>::empty(),
            i <= matches.len(),
            arena.wf(),
            warnings.wf(),
            arena@.identity == a0.identity,
            first_error(mv.take(i as int)) is None,
            (arena@, warnings@) == scan_all(lv, kind, a0, mv.take(i as int)),
            forall|e: EntryView, w: WarningView| #[trigger] warnings@.contains((e, w))
                ==> e.category.resolves_in(arena@) && w.resolves_in(arena@),
            forall|k: Seq<char>| #[trigger] cache@.dom().contains(k) ==> cache@[k] == (match resolve_limits(lv, k) {
                Some(j) => Some(j as usize),
                None => None::<usize>,
            }),
        decreases matches.len() - i,
    {
        let m = &matches[i];
        proof {
            assert(mv.take(i + 1).drop_last() == mv.take(i as int));
            assert(mv.take(i + 1).last() == m@);
        }
        let file = match &m.file {
            Some(f) => f,
            None => {
                proof {
                    lemma_first_error_stop(mv, i + 1, mv.len() as int);
                    assert(mv.take(mv.len() as int) == mv);
                }
                return Err(ScanError::MissingFile);
            },
        };
        let culprit = replace_backslashes(file.as_str());
        let line = match &m.line {
            Some(t) => match parse_positive(t.as_str()) {
                Some(n) => Some(n),
                None => {
                    proof {
                        lemma_first_error_stop(mv, i + 1, mv.len() as int);
                        assert(mv.take(mv.len() as int) == mv);
                    }
                    return Err(ScanError::BadLine(t.clone()));
                },
            },
            None => None,
        };
        let column = match &m.column {
            Some(t) => match parse_positive(t.as_str()) {
                Some(n) => Some(n),
                None => {
                    proof {
                        lemma_first_error_stop(mv, i + 1, mv.len() as int);
                        assert(mv.take(mv.len() as int) == mv);
                    }
                    return Err(ScanError::BadColumn(t.clone()));
                },
            },
            None => None,
        };
        let limits_index = match cache.get(culprit.as_str()) {
            Some(x) => *x,
            None => {
                let x = find_limits_index(limits, culprit.as_str());
                cache.insert(culprit.clone(), x);
                x
            },
        };
        proof {
            lemma_resolve_range(lv, path_components(culprit@), path_components(culprit@).len() as int);
            assert(limits_index == (match resolve_limits(lv, culprit@) {
                Some(j) => Some(j as usize),
                None => None::<usize>,
            }));
        }
        let ghost a_before = arena@;
        proof {
            arena.lemma_view_wf();
        }
        let category = match &m.category {
            Some(c) => Category::Specific(arena.get_or_insert(c.as_str())),
            None => Category::Wildcard,
        };
        let ghost a_mid = arena@;
        proof {
            arena.lemma_view_wf();
        }
        let description = match &m.description {
            Some(d) => Description(Some(arena.get_or_insert(d.as_str()))),
            None => Description(None),
        };
        let category_to_match = if limits_index.is_some() {
            category
        } else {
            Category::Wildcard
        };
        let limits_file: Option<String> = match limits_index {
            Some(j) => {
                let p = limits[j].clone();
                assert(p@ == lv[j as int]);
                Some(p)
            },
            None => None,
        };
        let entry = LimitsEntry { limits_file, kind, category: category_to_match };
        let warning = CountsTowardsLimit::new(culprit, line, column, kind, category, description);
        let ghost step = scan_match(lv, kind, a_before, m@);
        proof {
            assert(step.0 == arena@);
            assert(culprit@ == normalize_separators(m@.file.unwrap()));
            assert(line == capture_number(m@.line).unwrap());
            assert(column == capture_number(m@.column).unwrap());
            assert(category == category_of(intern_opt(a_before, m@.category).1));
            assert(description == Description(intern_opt(a_mid, m@.description).1));
            assert(step.1.1 == warning@);
            match resolve_limits(lv, culprit@) {
                Some(jj) => {
                    assert(0 <= jj < lv.len());
                    assert(lv.len() == limits.len());
                    assert(limits_index == Some(jj as usize));
                    assert((jj as usize) as int == jj);
                    assert(lv[jj] == limits@[jj]@);
                    assert(entry@.limits_file == Some(lv[jj]));
                },
                None => {
                    assert(entry@.limits_file is None);
                },
            }
            assert(step.1.0 == entry@);
            // the handles recorded so far, and the new ones, resolve in the grown arena
            if let Some(t) = m@.category {
                crate::arena::lemma_lookup_of_get_or_insert(a_before, t);
            }
            if let Some(t) = m@.description {
                crate::arena::lemma_lookup_of_get_or_insert(a_mid, t);
            }
            assert forall|e: EntryView, w: WarningView| #[trigger] warnings@.contains((e, w)) implies e.category.resolves_in(
                arena@,
            ) && w.resolves_in(arena@) by {
                if let Some(t) = m@.category {
                    if let Category::Specific(id) = e.category {
                        crate::arena::lemma_lookup_stable(a_before, t, id);
                    }
                    if let Category::Specific(id) = w.category {
                        crate::arena::lemma_lookup_stable(a_before, t, id);
                    }
                    if let Some(id) = w.description.0 {
                        crate::arena::lemma_lookup_stable(a_before, t, id);
                    }
                }
                if let Some(t) = m@.description {
                    if let Category::Specific(id) = e.category {
                        crate::arena::lemma_lookup_stable(a_mid, t, id);
                    }
                    if let Category::Specific(id) = w.category {
                        crate::arena::lemma_lookup_stable(a_mid, t, id);
                    }
                    if let Some(id) = w.description.0 {
                        crate::arena::lemma_lookup_stable(a_mid, t, id);
                    }
                }
            }
            if let Some(t) = m@.description {
                if let Category::Specific(id) = category {
                    crate::arena::lemma_lookup_stable(a_mid, t, id);
                }
            }
        }
        warnings.insert(&entry, warning);
        i = i + 1;
    }
    proof {
        assert(mv.take(i as int) == mv);
    }
    Ok(LogSearchResults { string_arena: arena, warnings })
}

/// Searches `file_contents` with the regular expression of `kind` and records what it
/// finds, as `collect_matches` does with the matches.
pub fn search_contents_with_regex(
    limits: &Vec<String>,
    kind: &Kind,
    file_contents: &str,
    regex: &WarningRegex,
) -> (r: Result<LogSearchResults, ScanError>)
    ensures
        match r {
            Ok(res) => first_error(regex_matches(regex.pattern(), file_contents@)) is None && res.wf()
                && (res.string_arena@, res.warnings@) == scan_all(
                strs_view(limits@),
                *kind,
                ArenaView { identity: res.string_arena@.identity, strings: Seq::empty() },
                regex_matches(regex.pattern(), file_contents@),
            ),
            Err(e) => first_error(regex_matches(regex.pattern(), file_contents@)) == Some(e@),
        },
{
    let matches = regex.matches(file_contents);
    collect_matches(limits, *kind, &matches)
}

} // verus!
