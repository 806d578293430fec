//! Lowering the declared thresholds to the counts observed, when no threshold was
//! exceeded.
use crate::aggregate::files_view;
use crate::limits::{
    copy_categories, last_category_index, last_kind_index, updated, Limit, LimitView, LimitsFile,
};
use crate::order::compare_text;
use crate::warnings::{counts_view, CountView, EntryCount};
use vstd::prelude::*;

verus! {

/// Why the thresholds could not be lowered: a count names a limit file that is not
/// among the limit files.
#[derive(Clone, Debug, PartialEq, Eq)]
pub enum UpdateError {
    UnknownLimitsFile(String),
}

/// An `UpdateError` as a mathematical value.
pub enum UpdateErrorView {
    UnknownLimitsFile(Seq<char>),
}

impl View for UpdateError {
    type V = UpdateErrorView;

    open spec fn view(&self) -> UpdateErrorView {
        match self {
            UpdateError::UnknownLimitsFile(p) => UpdateErrorView::UnknownLimitsFile(p@),
        }
    }
}

/// The first position of the limit file at `path`.
pub open spec fn path_index(files: Seq<(Seq<char>, Seq<(Kind, LimitView)>)>, path: Seq<char>, i: int) -> Option<int>
    decreases files.len() - i,
{
    if i < 0 || i >= files.len() {
        None
    } else if files[i].0 == path {
        Some(i)
    } else {
        path_index(files, path, i + 1)
    }
}

/// The limits `ls` declare the threshold that the count `c` was held against: its kind,
/// and for a per-category limit its category. A count held against the kind's default
/// threshold has no such declaration.
pub open spec fn declares(ls: Seq<(Kind, LimitView)>, c: CountView) -> bool {
    match last_kind_index(ls, c.entry.kind) {
        None => false,
        Some(i) => match ls[i].1 {
            LimitView::PerCategory(cats) => last_category_index(cats, c.entry.category) is Some,
            LimitView::Number(_) => true,
        },
    }
}

/// The limits `ls` with the count `c` written into the threshold it was held against.
pub open spec fn updated_file(ls: Seq<(Kind, LimitView)>, c: CountView) -> Seq<(Kind, LimitView)> {
    let i = last_kind_index(ls, c.entry.kind).unwrap();
    ls.update(i, (c.entry.kind, updated(ls[i].1, c.entry.category, c.actual)))
}

/// The limit files after writing each count of `counts` in turn into the file it names.
/// Counts without a limit file, and counts whose file does not declare the threshold
/// they were held against, are passed over. The first count that names a limit file
/// not among `files` is an error.
pub open spec fn ratchet(
    files: Seq<(Seq<char>, Seq<(Kind, LimitView)>)>,
    counts: Seq<CountView>,
) -> Result<Seq<(Seq<char>, Seq<(Kind, LimitView)>)>, UpdateErrorView>
    decreases counts.len(),
{
    if counts.len() == 0 {
        Ok(files)
    } else {
        match ratchet(files, counts.drop_last()) {
            Err(e) => Err(e),
            Ok(fs) => {
                let c = counts.last();
                match c.entry.limits_file {
                    None => Ok(fs),
                    Some(p) => match path_index(fs, p, 0) {
                        None => Err(UpdateErrorView::UnknownLimitsFile(p)),
                        Some(i) => if declares(fs[i].1, c) {
                            Ok(fs.update(i, (fs[i].0, updated_file(fs[i].1, c))))
                        } else {
                            Ok(fs)
                        },
                    },
                }
            },
        }
    }
}

/// Once a count names an unknown limit file, later counts change nothing.
pub proof fn lemma_ratchet_stop(
    files: Seq<(Seq<char>, Seq<(Kind, LimitView)>)>,
    counts: Seq<CountView>,
    k: int,
    n: int,
)
    requires
        0 <= k <= n <= counts.len(),
        ratchet(files, counts.take(k)) is Err,
    ensures
        ratchet(files, counts.take(n)) == ratchet(files, counts.take(k)),
    decreases n - k,
{
    if n > k {
        lemma_ratchet_stop(files, counts, k, n - 1);
        assert(counts.take(n).drop_last() == counts.take(n - 1));
    }
}

use crate::settings::Kind;

/// A copy of a limit.
fn copy_limit(l: &Limit) -> (r: Limit)
    ensures
        r@ == l@,
{
    match l {
        Limit::Number(x) => Limit::Number(*x),
        Limit::PerCategory(cats) => Limit::PerCategory(copy_categories(cats)),
    }
}

/// A copy of a limit file.
fn copy_file(f: &LimitsFile) -> (r: LimitsFile)
    ensures
        r@ == f@,
{
    let ls = f.iter();
    let mut out: Vec<(Kind, Limit)> = Vec::new();
    let mut i: usize = 0;
    while i < ls.len()
        invariant
            i <= ls.len(),
            crate::limits::limits_view(ls@) == f@,
            crate::limits::limits_view(out@) == crate::limits::limits_view(ls@).take(i as int),
        decreases ls.len() - i,
    {
        let l = copy_limit(&ls[i].1);
        let ghost before = crate::limits::limits_view(out@);
        let ghost item = (ls@[i as int].0, l@);
        out.push((ls[i].0, l));
        assert(crate::limits::limits_view(out@) =~= before.push(item));
        assert(crate::limits::limits_view(ls@).take(i + 1) =~= crate::limits::limits_view(ls@).take(i as int).push(item));
        i = i + 1;
    }
    assert(crate::limits::limits_view(ls@).take(i as int) =~= crate::limits::limits_view(ls@));
    LimitsFile::new(out)
}

/// Whether two limits are the same.
fn same_limit(a: &Limit, b: &Limit) -> (r: bool)
    ensures
        r == (a@ == b@),
{
    match (a, b) {
        (Limit::Number(x), Limit::Number(y)) => *x == *y,
        (Limit::PerCategory(v), Limit::PerCategory(w)) => {
            if v.len() != w.len() {
                return false;
            }
            let mut i: usize = 0;
            while i < v.len()
                invariant
                    v.len() == w.len(),
                    a@ == LimitView::PerCategory(v@),
                    b@ == LimitView::PerCategory(w@),
                    i <= v.len(),
                    forall|t: int| 0 <= t < i ==> v@[t] == w@[t],
                decreases v.len() - i,
            {
                if v[i].0 != w[i].0 || v[i].1 != w[i].1 {
                    assert(v@[i as int] != w@[i as int]);
                    assert(a@ == LimitView::PerCategory(v@));
                    assert(b@ == LimitView::PerCategory(w@));
                    assert(v@ != w@);
                    return false;
                }
                i = i + 1;
            }
            assert(v@ =~= w@);
            true
        },
        _ => false,
    }
}

/// Whether two limit files declare the same limits.
pub fn same_limits(a: &LimitsFile, b: &LimitsFile) -> (r: bool)
    ensures
        r == (a@ == b@),
{
    let (la, lb) = (a.iter(), b.iter());
    assert(a@.len() == la@.len() && b@.len() == lb@.len());
    if la.len() != lb.len() {
        return false;
    }
    let mut i: usize = 0;
    while i < la.len()
        invariant
            la.len() == lb.len(),
            crate::limits::limits_view(la@) == a@,
            crate::limits::limits_view(lb@) == b@,
            i <= la.len(),
            forall|t: int| 0 <= t < i ==> a@[t] == b@[t],
        decreases la.len() - i,
    {
        if la[i].0 != lb[i].0 || !same_limit(&la[i].1, &lb[i].1) {
            assert(a@[i as int] == (la@[i as int].0, la@[i as int].1@));
            assert(b@[i as int] == (lb@[i as int].0, lb@[i as int].1@));
            assert(a@[i as int] != b@[i as int]);
            return false;
        }
        assert(a@[i as int] == (la@[i as int].0, la@[i as int].1@));
        assert(b@[i as int] == (lb@[i as int].0, lb@[i as int].1@));
        i = i + 1;
    }
    assert(a@ =~= b@);
    true
}

/// Writes the counts of `counts` (the counts within their thresholds of a run without
/// violations) into copies of the limit files, lowering each declared finite threshold
/// to its count; infinite thresholds stay, and counts held against a kind's default
/// threshold change nothing. Returns the copies, and whether each differs from
/// its original.
pub fn update_limits(limits: &Vec<(String, LimitsFile)>, counts: &[EntryCount]) -> (r: Result<
    (Vec<(String, LimitsFile)>, Vec<bool>),
    UpdateError,
>)
    ensures
        match r {
            Ok((files, changed)) => ratchet(files_view(limits@), counts_view(counts@)) == Ok::<
                Seq<(Seq<char>, Seq<(Kind, LimitView)>)>,
                UpdateErrorView,
            >(files_view(files@)) && changed@.len() == limits@.len() && forall|i: int|
                0 <= i < limits@.len() ==> changed@[i] == (files@[i].1@ != limits@[i].1@),
            Err(e) => ratchet(files_view(limits@), counts_view(counts@)) == Err::<
                Seq<(Seq<char>, Seq<(Kind, LimitView)>)>,
                UpdateErrorView,
            >(e@),
        },
{
    let ghost fv0 = files_view(limits@);
    let ghost cv = counts_view(counts@);
    let mut files: Vec<(String, LimitsFile)> = Vec::new();
    let mut j: usize = 0;
    while j < limits.len()
        invariant
            j <= limits.len(),
            fv0 == files_view(limits@),
            files_view(files@) == fv0.take(j as int),
        decreases limits.len() - j,
    {
        let copy = copy_file(&limits[j].1);
        let ghost before = files_view(files@);
        let name = limits[j].0.clone();
        let ghost item = (name@, copy@);
        files.push((name, copy));
        assert(files_view(files@) =~= before.push(item));
        assert(fv0.take(j + 1) =~= fv0.take(j as int).push(item));
        j = j + 1;
    }
    assert(fv0.take(j as int) == fv0);
    assert(cv.take(0) =~= Seq::<CountView>::empty());
    let mut k: usize = 0;
    while k < counts.len()
        invariant
            k <= counts.len(),
            fv0 == files_view(limits@),
            cv == counts_view(counts@),
            files@.len() == limits@.len(),
            ratchet(fv0, cv.take(k as int)) == Ok::<Seq<(Seq<char>, Seq<(Kind, LimitView)>)>, UpdateErrorView>(
                files_view(files@),
            ),
        decreases counts.len() - k,
    {
        proof {
            assert(cv.take(k + 1).drop_last() == cv.take(k as int));
            assert(cv.take(k + 1).last() == counts@[k as int]@);
        }
        let c = &counts[k];
        if let Some(path) = &c.entry().limits_file {
            let ghost fv = files_view(files@);
            // the first limit file at `path`
            let mut i: usize = 0;
            let mut found = false;
            while !found && i < files.len()
                invariant
                    fv == files_view(files@),
                    i <= files.len(),
                    found ==> i < files.len() && fv[i as int].0 == path@,
                    path_index(fv, path@, 0) == path_index(fv, path@, i as int),
                decreases files.len() - i + (if found { 0int } else { 1int }),
            {
                if compare_text(files[i].0.as_str(), path.as_str()) == 0 {
                    proof {
                        crate::order::lemma_text_cmp_antisymmetric(files@[i as int].0@, path@);
                    }
                    found = true;
                } else {
                    proof {
                        crate::order::lemma_text_cmp_antisymmetric(files@[i as int].0@, path@);
                    }
                    i = i + 1;
                }
            }
            if !found {
                proof {
                    lemma_ratchet_stop(fv0, cv, k + 1, cv.len() as int);
                    assert(cv.take(cv.len() as int) == cv);
                }
                return Err(UpdateError::UnknownLimitsFile(path.clone()));
            }
            let ghost ls = fv[i as int].1;
            proof {
                crate::limits::lemma_last_kind_index(ls, c@.entry.kind);
            }
            let declared = match files[i].1.get_limit(&c.entry().kind) {
                None => false,
                Some(Limit::PerCategory(cats)) => crate::limits::find_category(cats, c.entry().category).is_some(),
                Some(Limit::Number(_)) => true,
            };
            if declared {
                let mut file = copy_file(&files[i].1);
                file.update_limits(c);
                let name = files[i].0.clone();
                files.set(i, (name, file));
                assert(files_view(files@) =~= fv.update(i as int, (fv[i as int].0, updated_file(ls, c@))));
            }
        }
        k = k + 1;
    }
    assert(cv.take(k as int) == cv);
    let mut changed: Vec<bool> = Vec::new();
    let mut t: usize = 0;
    while t < limits.len()
        invariant
            t <= limits.len(),
            files@.len() == limits@.len(),
            changed@.len() == t,
            forall|q: int| 0 <= q < t ==> changed@[q] == (files@[q].1@ != limits@[q].1@),
        decreases limits.len() - t,
    {
        changed.push(!same_limits(&files[t].1, &limits[t].1));
        t = t + 1;
    }
    Ok((files, changed))
}

} // verus!
