//! A string arena that can also be searched: from a string back to its handle.
use id_arena::{Arena, ArenaBehavior, DefaultArenaBehavior};
use vstd::hash_map::StringHashMap;
use vstd::prelude::*;

verus! {

#[verifier::external_type_specification]
#[verifier::external_body]
#[verifier::reject_recursive_types(T)]
#[verifier::reject_recursive_types(A)]
pub struct ExArena<T, A>(Arena<T, A>);

#[verifier::external_type_specification]
#[verifier::external_body]
#[verifier::reject_recursive_types(T)]
pub struct ExDefaultArenaBehavior<T>(DefaultArenaBehavior<T>);

/// The strings an `id_arena::Arena` holds, in the order they were allocated.
pub uninterp spec fn arena_strings(a: Arena<String>) -> Seq<Seq<char>>;

/// The identity an `id_arena::Arena` received when it was created; every id it hands
/// out carries it.
pub uninterp spec fn arena_identity(a: Arena<String>) -> u32;

/// Relies on `id_arena::Arena::new`: a new arena holds nothing.
#[verifier::external_body]
fn new_string_arena() -> (r: Arena<String>)
    ensures
        arena_strings(r) == Seq::<Seq<char>>::empty(),
{
    Arena::new()
}

/// Relies on `id_arena::Arena::alloc`: the string is appended to the arena's items,
/// and its id carries the arena's identity and the index it was stored at.
#[verifier::external_body]
fn alloc_string(a: &mut Arena<String>, s: String) -> (r: StrId)
    ensures
        arena_strings(*final(a)) == arena_strings(*old(a)).push(s@),
        arena_strings(*final(a)).len() <= usize::MAX,
        arena_identity(*final(a)) == arena_identity(*old(a)),
        r == (StrId { arena: arena_identity(*old(a)), index: arena_strings(*old(a)).len() as usize }),
{
    let id = a.alloc(s);
    StrId { arena: DefaultArenaBehavior::<String>::arena_id(id), index: id.index() }
}

/// Relies on `id_arena::Arena::get`: an id of this arena finds the item stored at its
/// index; an id of another arena, or past the end, finds nothing.
#[verifier::external_body]
fn get_string(a: &Arena<String>, id: StrId) -> (r: Option<&String>)
    ensures
        match r {
            Some(s) => id.arena == arena_identity(*a) && id.index < arena_strings(*a).len()
                && s@ == arena_strings(*a)[id.index as int],
            None => !(id.arena == arena_identity(*a) && id.index < arena_strings(*a).len()),
        },
{
    a.get(DefaultArenaBehavior::<String>::new_id(id.arena, id.index))
}

/// Relies on `id_arena::Arena::next_id`: the id the next allocation will receive.
#[verifier::external_body]
fn next_string_id(a: &Arena<String>) -> (r: StrId)
    ensures
        r == (StrId { arena: arena_identity(*a), index: arena_strings(*a).len() as usize }),
{
    let id = a.next_id();
    StrId { arena: DefaultArenaBehavior::<String>::arena_id(id), index: id.index() }
}

/// A handle to a string interned in one particular arena: the arena's identity and the
/// position of the string in it. Handles of arenas with different identities differ; an
/// arena looks up only handles that carry its own identity.
#[derive(Clone, Copy, Debug, PartialEq, Eq, Hash, PartialOrd, Ord, Structural)]
pub struct StrId {
    pub arena: u32,
    pub index: usize,
}

/// The last position at which `s` occurs in `strings`, if any.
pub open spec fn last_index_of(strings: Seq<Seq<char>>, s: Seq<char>) -> Option<int>
    decreases strings.len(),
{
    if strings.len() == 0 {
        None
    } else if strings.last() == s {
        Some(strings.len() - 1)
    } else {
        last_index_of(strings.drop_last(), s)
    }
}

/// What an arena holds, as a mathematical value: its identity and its strings in
/// insertion order.
pub struct ArenaView {
    pub identity: u32,
    pub strings: Seq<Seq<char>>,
}

impl ArenaView {
    /// The arena's items fit in memory.
    pub open spec fn wf(self) -> bool {
        self.strings.len() <= usize::MAX
    }

    /// The handle the reverse mapping gives for `s`: the one of its latest insertion.
    pub open spec fn get_id(self, s: Seq<char>) -> Option<StrId> {
        match last_index_of(self.strings, s) {
            Some(i) => Some(StrId { arena: self.identity, index: i as usize }),
            None => None,
        }
    }

    /// The string a handle stands for, if the handle belongs to this arena.
    pub open spec fn lookup(self, id: StrId) -> Option<Seq<char>> {
        if id.arena == self.identity && id.index < self.strings.len() {
            Some(self.strings[id.index as int])
        } else {
            None
        }
    }

    /// The handle the next insertion receives.
    pub open spec fn next_id(self) -> StrId {
        StrId { arena: self.identity, index: self.strings.len() as usize }
    }

    /// The arena after appending `s`.
    pub open spec fn insert(self, s: Seq<char>) -> ArenaView {
        ArenaView { identity: self.identity, strings: self.strings.push(s) }
    }

    /// The arena and handle after looking `s` up, inserting it when absent.
    pub open spec fn get_or_insert(self, s: Seq<char>) -> (ArenaView, StrId) {
        match self.get_id(s) {
            Some(id) => (self, id),
            None => (self.insert(s), self.next_id()),
        }
    }

    /// The arena after a `get_or_insert` of each of `strs`, in order.
    pub open spec fn add_all(self, strs: Seq<Seq<char>>) -> ArenaView
        decreases strs.len(),
    {
        if strs.len() == 0 {
            self
        } else {
            self.add_all(strs.drop_last()).get_or_insert(strs.last()).0
        }
    }
}

/// Where `last_index_of` points, `s` stands; where it finds nothing, `s` is absent.
pub proof fn lemma_last_index_of(strings: Seq<Seq<char>>, s: Seq<char>)
    ensures
        match last_index_of(strings, s) {
            Some(i) => 0 <= i < strings.len() && strings[i] == s,
            None => forall|j: int| 0 <= j < strings.len() ==> strings[j] != s,
        },
    decreases strings.len(),
{
    if strings.len() > 0 && strings.last() != s {
        let rest = strings.drop_last();
        lemma_last_index_of(rest, s);
        assert forall|j: int| 0 <= j < rest.len() implies rest[j] == strings[j] by {}
    }
}

/// Appending `x` makes it the latest occurrence of itself and leaves the others alone.
pub proof fn lemma_last_index_of_push(strings: Seq<Seq<char>>, x: Seq<char>, s: Seq<char>)
    ensures
        last_index_of(strings.push(x), s) == (if x == s {
            Some(strings.len() as int)
        } else {
            last_index_of(strings, s)
        }),
{
    assert(strings.push(x).drop_last() == strings);
}

/// A string that has a handle keeps one after any `get_or_insert`.
pub proof fn lemma_get_or_insert_keeps_ids(v: ArenaView, x: Seq<char>, s: Seq<char>)
    requires
        v.get_id(s) is Some,
    ensures
        v.get_or_insert(x).0.get_id(s) is Some,
{
    lemma_last_index_of_push(v.strings, x, s);
}

/// Looking up the handle that `get_or_insert` returns gives back the string.
pub proof fn lemma_lookup_of_get_or_insert(v: ArenaView, s: Seq<char>)
    requires
        v.wf(),
    ensures
        v.get_or_insert(s).0.lookup(v.get_or_insert(s).1) == Some(s),
{
    lemma_last_index_of(v.strings, s);
    lemma_last_index_of_push(v.strings, s, s);
}

/// A second `get_or_insert` of the same string returns the same handle and leaves the
/// arena as the first one left it.
pub proof fn lemma_get_or_insert_idempotent(v: ArenaView, s: Seq<char>)
    requires
        v.wf(),
    ensures
        v.get_or_insert(s).0.get_or_insert(s) == v.get_or_insert(s),
{
    lemma_last_index_of_push(v.strings, s, s);
}

/// After `add_all`, every string that was added has a handle.
pub proof fn lemma_add_all_has_ids(v: ArenaView, strs: Seq<Seq<char>>, k: int)
    requires
        0 <= k < strs.len(),
    ensures
        v.add_all(strs).get_id(strs[k]) is Some,
    decreases strs.len(),
{
    let prev = v.add_all(strs.drop_last());
    if k == strs.len() - 1 {
        lemma_last_index_of(prev.strings, strs[k]);
        lemma_last_index_of_push(prev.strings, strs[k], strs[k]);
    } else {
        lemma_add_all_has_ids(v, strs.drop_last(), k);
        lemma_get_or_insert_keeps_ids(prev, strs.last(), strs[k]);
    }
}

/// `add_all` keeps the arena's identity and only appends.
pub proof fn lemma_add_all_extends(v: ArenaView, strs: Seq<Seq<char>>)
    ensures
        v.add_all(strs).identity == v.identity,
        v.add_all(strs).strings.len() >= v.strings.len(),
        v.add_all(strs).strings.take(v.strings.len() as int) == v.strings,
    decreases strs.len(),
{
    if strs.len() > 0 {
        let prev = v.add_all(strs.drop_last());
        lemma_add_all_extends(v, strs.drop_last());
        if prev.get_id(strs.last()) is None {
            assert(prev.strings.push(strs.last()).take(v.strings.len() as int)
                == prev.strings.take(v.strings.len() as int));
        }
    }
}

/// A handle that resolves keeps resolving to the same string after a `get_or_insert`.
pub proof fn lemma_lookup_stable(v: ArenaView, s: Seq<char>, id: StrId)
    requires
        v.lookup(id) is Some,
    ensures
        v.get_or_insert(s).0.lookup(id) == v.lookup(id),
        v.get_or_insert(s).0.identity == v.identity,
{
}

/// A change of an arena through its deduplicating entry points.
pub enum ArenaOp {
    GetOrInsert(Seq<char>),
    AddAll(Seq<Seq<char>>),
}

/// The arena after the changes `ops`, in order.
pub open spec fn apply_ops(v: ArenaView, ops: Seq<ArenaOp>) -> ArenaView
    decreases ops.len(),
{
    if ops.len() == 0 {
        v
    } else {
        match ops.last() {
            ArenaOp::GetOrInsert(x) => apply_ops(v, ops.drop_last()).get_or_insert(x).0,
            ArenaOp::AddAll(strs) => apply_ops(v, ops.drop_last()).add_all(strs),
        }
    }
}

/// The handle of a string that has one is kept by a `get_or_insert` of any string.
pub proof fn lemma_get_id_kept(v: ArenaView, x: Seq<char>, s: Seq<char>)
    requires
        v.get_id(s) is Some,
    ensures
        v.get_or_insert(x).0.get_id(s) == v.get_id(s),
{
    lemma_last_index_of_push(v.strings, x, s);
}

/// The handle of a string that has one is kept by an `add_all`.
pub proof fn lemma_get_id_kept_by_add_all(v: ArenaView, strs: Seq<Seq<char>>, s: Seq<char>)
    requires
        v.get_id(s) is Some,
    ensures
        v.add_all(strs).get_id(s) == v.get_id(s),
    decreases strs.len(),
{
    if strs.len() > 0 {
        lemma_get_id_kept_by_add_all(v, strs.drop_last(), s);
        lemma_get_id_kept(v.add_all(strs.drop_last()), strs.last(), s);
    }
}

/// Once `get_or_insert` has returned a handle for `s`, any later changes through
/// `get_or_insert` and `add_all` keep it: a later `get_or_insert` of `s` returns the same
/// handle and leaves the arena unchanged.
pub proof fn lemma_get_or_insert_stable(v: ArenaView, s: Seq<char>, ops: Seq<ArenaOp>)
    ensures
        apply_ops(v.get_or_insert(s).0, ops).get_or_insert(s) == (
            apply_ops(v.get_or_insert(s).0, ops),
            v.get_or_insert(s).1,
        ),
    decreases ops.len(),
{
    let w = v.get_or_insert(s).0;
    lemma_last_index_of_push(v.strings, s, s);
    assert(w.get_id(s) == Some(v.get_or_insert(s).1));
    lemma_get_id_after_ops(w, s, ops);
}

/// Changes through `get_or_insert` and `add_all` keep every handle that the reverse
/// mapping gives.
pub proof fn lemma_get_id_after_ops(v: ArenaView, s: Seq<char>, ops: Seq<ArenaOp>)
    requires
        v.get_id(s) is Some,
    ensures
        apply_ops(v, ops).get_id(s) == v.get_id(s),
    decreases ops.len(),
{
    if ops.len() > 0 {
        lemma_get_id_after_ops(v, s, ops.drop_last());
        match ops.last() {
            ArenaOp::GetOrInsert(x) => lemma_get_id_kept(apply_ops(v, ops.drop_last()), x, s),
            ArenaOp::AddAll(strs) => lemma_get_id_kept_by_add_all(apply_ops(v, ops.drop_last()), strs, s),
        }
    }
}

/// After merging `b` into `a`, resolving any of `b`'s strings through `get_or_insert`
/// leaves the merged arena unchanged and yields a handle that looks up to that string.
pub proof fn lemma_merge_round_trip(a: ArenaView, b: ArenaView, k: int)
    requires
        0 <= k < b.strings.len(),
        a.add_all(b.strings).wf(),
    ensures
        a.add_all(b.strings).get_or_insert(b.strings[k]).0 == a.add_all(b.strings),
        a.add_all(b.strings).lookup(a.add_all(b.strings).get_or_insert(b.strings[k]).1)
            == Some(b.strings[k]),
{
    lemma_add_all_has_ids(a, b.strings, k);
    lemma_lookup_of_get_or_insert(a.add_all(b.strings), b.strings[k]);
}

/// A string arena together with a reverse mapping from each string to the handle of its
/// latest insertion.
pub struct SearchableArena {
    arena: Arena<String>,
    mapping: StringHashMap<StrId>,
}

impl View for SearchableArena {
    type V = ArenaView;

    closed spec fn view(&self) -> ArenaView {
        ArenaView { identity: arena_identity(self.arena), strings: arena_strings(self.arena) }
    }
}

impl SearchableArena {
    /// The reverse mapping agrees with the items: it maps each string to the handle of
    /// its latest insertion, and nothing else.
    pub closed spec fn wf(self) -> bool {
        &&& self@.wf()
        &&& forall|s: Seq<char>|
            #![trigger self.mapping@.dom().contains(s)]
            (self.mapping@.dom().contains(s) <==> self@.get_id(s) is Some)
        &&& forall|s: Seq<char>|
            self.mapping@.dom().contains(s) ==> Some(#[trigger] self.mapping@[s]) == self@.get_id(s)
    }

    /// The arena's items fit in memory.
    pub proof fn lemma_view_wf(&self)
        requires
            self.wf(),
        ensures
            self@.wf(),
    {
    }

    /// An empty arena.
    pub fn new() -> (r: Self)
        ensures
            r.wf(),
            r@.strings == Seq::<Seq<char>>::empty(),
    {
        SearchableArena { arena: new_string_arena(), mapping: StringHashMap::new() }
    }

    /// Appends `val`, even when it is already present; the reverse mapping then points
    /// at the new handle.
    pub fn insert(&mut self, val: String) -> (r: StrId)
        requires
            old(self).wf(),
        ensures
            final(self).wf(),
            final(self)@ == old(self)@.insert(val@),
            r == old(self)@.next_id(),
    {
        let key = val.clone();
        let id = alloc_string(&mut self.arena, val);
        self.mapping.insert(key, id);
        proof {
            let v = self@;
            assert forall|s: Seq<char>| #[trigger]
                last_index_of(v.strings, s) == (if s == key@ {
                    Some(old(self)@.strings.len() as int)
                } else {
                    last_index_of(old(self)@.strings, s)
                }) by {
                assert(v.strings.drop_last() == old(self)@.strings);
            }
        }
        id
    }

    /// The handle of the latest insertion of `val`, if it was ever inserted.
    pub fn get_id(&self, val: &str) -> (r: Option<StrId>)
        requires
            self.wf(),
        ensures
            r == self@.get_id(val@),
    {
        match self.mapping.get(val) {
            Some(id) => Some(*id),
            None => None,
        }
    }

    /// The string behind `id`; nothing when `id` belongs to another arena.
    pub fn lookup(&self, id: StrId) -> (r: Option<&String>)
        ensures
            match r {
                Some(s) => self@.lookup(id) == Some(s@),
                None => self@.lookup(id) is None,
            },
    {
        get_string(&self.arena, id)
    }

    /// The handle of `val`, inserting it first when it is absent.
    pub fn get_or_insert(&mut self, val: &str) -> (r: StrId)
        requires
            old(self).wf(),
        ensures
            final(self).wf(),
            (final(self)@, r) == old(self)@.get_or_insert(val@),
    {
        match self.get_id(val) {
            Some(id) => id,
            None => self.insert(val.to_owned()),
        }
    }

    /// Adds every string of `other`, in its insertion order, through `get_or_insert`.
    pub fn add_all(&mut self, other: &SearchableArena)
        requires
            old(self).wf(),
            other.wf(),
        ensures
            final(self).wf(),
            final(self)@ == old(self)@.add_all(other@.strings),
    {
        let end = next_string_id(&other.arena);
        let mut i: usize = 0;
        while i < end.index
            invariant
                end == other@.next_id(),
                other.wf(),
                self.wf(),
                i <= other@.strings.len(),
                self@ == old(self)@.add_all(other@.strings.take(i as int)),
            decreases other@.strings.len() - i,
        {
            if let Some(s) = get_string(&other.arena, StrId { arena: end.arena, index: i }) {
                self.get_or_insert(s);
            }
            proof {
                let t = other@.strings.take(i + 1);
                assert(t.drop_last() == other@.strings.take(i as int));
                assert(t.last() == other@.strings[i as int]);
            }
            i = i + 1;
        }
        proof {
            assert(other@.strings.take(i as int) == other@.strings);
        }
    }
}

} // verus!
