//! The public map: reference-counted entries reached through `Ref` values.
//!
//! Each `Ref` accounts for one unit of its entry's count and is branded
//! with the identity tag of the map that minted it. `clone_ref` mints one
//! more; `drop_ref` returns one, and returning the last removes the entry
//! and hands its key and value back to the caller — who may hold further
//! `Ref`s inside them and return those in turn, cascading removal through
//! an acyclic reference graph. Every accessor first checks the brand, so a
//! `Ref` used with a map that did not mint it is refused with `WrongMap`.
//!
//! Verified code has no allocation identity to brand values with, so the
//! tag is an explicit `u64` chosen at construction; give distinct maps
//! distinct tags.

use crate::counted_hash_map::CountedHandle;
use crate::counted_hash_map::CountedHashMap;
use crate::counted_hash_map::PutResult;
use crate::handle_hash_map::Handle;
use crate::handle_hash_map::InsertError;
use crate::keys::MapKey;
use vstd::prelude::*;

verus! {

/// The error from using a `Ref` with a map that did not mint it, or whose
/// entry it no longer speaks for.
#[derive(Clone, Copy, PartialEq, Eq, Debug, Structural)]
pub struct WrongMap;

/// A counted reference to one entry of one map. Move-only: cloning and
/// dropping go through the map, which keeps the count exact.
pub struct Ref {
    owner: u64,
    inner: CountedHandle,
}

impl Ref {
    /// The identity tag of the map that minted this reference.
    pub closed spec fn spec_owner(self) -> u64 {
        self.owner
    }

    /// The handle of the entry this reference counts for.
    pub closed spec fn spec_handle(self) -> Handle {
        self.inner.spec_handle()
    }

    /// Read the owner tag.
    pub fn owner(&self) -> (o: u64)
        ensures
            o == self.spec_owner(),
    {
        self.owner
    }

    /// Read the entry handle.
    pub fn handle(&self) -> (h: Handle)
        ensures
            h == self.spec_handle(),
    {
        self.inner.handle()
    }

    /// Borrow the key of the referenced entry, after checking that `map`
    /// minted this reference and still resolves it.
    pub fn key<'a, K: MapKey, V>(&self, map: &'a RcHashMap<K, V>) -> (r: Result<&'a K, WrongMap>)
        requires
            map.wf(),
        ensures
            match r {
                Ok(k) => map.owns(*self) && map.resolves(self.spec_handle()) && *k
                    == map.key_exec_at(self.spec_handle()) && k@ == map.key_at(self.spec_handle()),
                Err(e) => e == WrongMap && !(map.owns(*self) && map.resolves(self.spec_handle())),
            },
    {
        if self.owner != map.id {
            return Err(WrongMap);
        }
        match self.inner.key_ref(&map.map) {
            Some(k) => Ok(k),
            None => Err(WrongMap),
        }
    }

    /// Borrow the value of the referenced entry, after the same checks.
    pub fn value<'a, K: MapKey, V>(&self, map: &'a RcHashMap<K, V>) -> (r: Result<&'a V, WrongMap>)
        requires
            map.wf(),
        ensures
            match r {
                Ok(v) => map.owns(*self) && map.resolves(self.spec_handle()) && *v == map.value_at(
                    self.spec_handle(),
                ),
                Err(e) => e == WrongMap && !(map.owns(*self) && map.resolves(self.spec_handle())),
            },
    {
        if self.owner != map.id {
            return Err(WrongMap);
        }
        match self.inner.value_ref(&map.map) {
            Some(v) => Ok(v),
            None => Err(WrongMap),
        }
    }

    /// Replace the value of the referenced entry, returning the previous
    /// value, after the same checks. The count is untouched.
    pub fn set_value<K: MapKey, V>(&self, map: &mut RcHashMap<K, V>, value: V) -> (r: Result<
        V,
        WrongMap,
    >)
        requires
            old(map).wf(),
        ensures
            final(map).wf(),
            match r {
                Ok(prev) => {
                    &&& old(map).owns(*self)
                    &&& old(map).resolves(self.spec_handle())
                    &&& prev == old(map).value_at(self.spec_handle())
                    &&& final(map).resolves(self.spec_handle())
                    &&& final(map).value_at(self.spec_handle()) == value
                    &&& final(map).count_at(self.spec_handle()) == old(map).count_at(
                        self.spec_handle(),
                    )
                    &&& final(map).key_at(self.spec_handle()) == old(map).key_at(
                        self.spec_handle(),
                    )
                    &&& old(map).entries_preserved_except(*final(map), self.spec_handle())
                    &&& old(map).no_new_handles_except(*final(map), self.spec_handle())
                    &&& old(map).handles_stable(*final(map))
                    &&& old(map).retired_preserved(*final(map))
                    &&& final(map).as_map() == old(map).as_map().insert(
                        old(map).key_at(self.spec_handle()),
                        value,
                    )
                    &&& final(map).spec_len() == old(map).spec_len()
                },
                Err(e) => {
                    &&& e == WrongMap
                    &&& !(old(map).owns(*self) && old(map).resolves(self.spec_handle()))
                    &&& *final(map) == *old(map)
                },
            },
    {
        if self.owner != map.id {
            return Err(WrongMap);
        }
        let live = match self.inner.key_ref(&map.map) {
            Some(_) => true,
            None => false,
        };
        if !live {
            return Err(WrongMap);
        }
        Ok(map.map.set_value(&self.inner, value))
    }
}

impl PartialEq for Ref {
    /// Two references are equal when they were minted by the same map for
    /// the same entry; how many other units either side's entry has is no
    /// part of it.
    fn eq(&self, other: &Self) -> (r: bool) {
        self.owner == other.owner && self.inner.handle() == other.inner.handle()
    }
}

impl vstd::std_specs::cmp::PartialEqSpecImpl for Ref {
    open spec fn obeys_eq_spec() -> bool {
        true
    }

    open spec fn eq_spec(&self, other: &Ref) -> bool {
        self.spec_owner() == other.spec_owner() && self.spec_handle() == other.spec_handle()
    }
}

impl Eq for Ref {

}

/// A key that can own a reference into the same map (or another). Only
/// the identifier takes part in equality and hashing; the held reference
/// rides along and is handed back with the key when the entry is removed,
/// so the caller can return it in turn — a cascade driven by a key, as
/// when one entry's key owns another entry.
pub struct HoldingKey {
    pub id: u64,
    pub held: Option<Ref>,
}

impl View for HoldingKey {
    type V = u64;

    open spec fn view(&self) -> u64 {
        self.id
    }
}

impl MapKey for HoldingKey {
    open spec fn hash_of(v: u64) -> u64 {
        v
    }

    fn key_eq(&self, other: &Self) -> (r: bool) {
        self.id == other.id
    }

    fn key_hash(&self) -> (r: u64) {
        self.id
    }
}

/// The public reference-counted map.
pub struct RcHashMap<K: MapKey, V> {
    id: u64,
    map: CountedHashMap<K, V>,
}

impl<K: MapKey, V> RcHashMap<K, V> {
    // ------------------------------------------------------------------
    // The model.
    // ------------------------------------------------------------------
    /// The identity tag this map brands its references with.
    pub closed spec fn spec_id(self) -> u64 {
        self.id
    }

    /// This map minted `r`.
    pub open spec fn owns(self, r: Ref) -> bool {
        r.spec_owner() == self.spec_id()
    }

    pub closed spec fn resolves(self, h: Handle) -> bool {
        self.map.resolves(h)
    }

    pub closed spec fn retired(self, h: Handle) -> bool {
        self.map.retired(h)
    }

    pub closed spec fn spec_contains(self, kv: K::V) -> bool {
        self.map.spec_contains(kv)
    }

    pub closed spec fn handle_of(self, kv: K::V) -> Handle {
        self.map.handle_of(kv)
    }

    pub closed spec fn key_at(self, h: Handle) -> K::V {
        self.map.key_at(h)
    }

    pub closed spec fn key_exec_at(self, h: Handle) -> K {
        self.map.key_exec_at(h)
    }

    pub closed spec fn value_at(self, h: Handle) -> V {
        self.map.value_at(h)
    }

    pub closed spec fn count_at(self, h: Handle) -> nat {
        self.map.count_at(h)
    }

    pub closed spec fn spec_len(self) -> nat {
        self.map.spec_len()
    }

    pub closed spec fn handle_seq(self) -> Seq<Handle> {
        self.map.handle_seq()
    }

    pub closed spec fn as_map(self) -> Map<K::V, V> {
        self.map.as_map()
    }

    pub closed spec fn wf(self) -> bool {
        self.map.wf()
    }

    // ------------------------------------------------------------------
    // State relations the operations promise.
    // ------------------------------------------------------------------
    /// Every other live entry keeps its key, value and count; the brand
    /// never changes.
    pub open spec fn entries_preserved_except(self, post: Self, except: Handle) -> bool {
        &&& post.spec_id() == self.spec_id()
        &&& forall|h2: Handle|
            #[trigger] self.resolves(h2) && h2 != except ==> post.resolves(h2) && post.key_at(h2)
                == self.key_at(h2) && post.key_exec_at(h2) == self.key_exec_at(h2)
                && post.value_at(h2) == self.value_at(h2) && post.count_at(h2) == self.count_at(h2)
    }

    /// No handle starts resolving, except possibly `born`.
    pub open spec fn no_new_handles_except(self, post: Self, born: Handle) -> bool {
        forall|h2: Handle| #[trigger] post.resolves(h2) && h2 != born ==> self.resolves(h2)
    }

    /// A key present before and after keeps its handle.
    pub open spec fn handles_stable(self, post: Self) -> bool {
        forall|kv: K::V|
            self.spec_contains(kv) && post.spec_contains(kv) ==> #[trigger] post.handle_of(kv)
                == self.handle_of(kv)
    }

    /// Retired handles stay retired.
    pub open spec fn retired_preserved(self, post: Self) -> bool {
        forall|h2: Handle| #[trigger] self.retired(h2) ==> post.retired(h2)
    }

    // ------------------------------------------------------------------
    // Bridging lemmas.
    // ------------------------------------------------------------------
    /// A live entry has at least one unit of count outstanding.
    pub proof fn lemma_live_entries_counted(self, h: Handle)
        requires
            self.wf(),
            self.resolves(h),
        ensures
            self.count_at(h) >= 1,
    {
        self.map.lemma_live_entries_counted(h);
    }

    pub proof fn lemma_resolves_contains(self, h: Handle)
        requires
            self.wf(),
            self.resolves(h),
        ensures
            self.spec_contains(self.key_at(h)),
            self.handle_of(self.key_at(h)) == h,
            self.as_map().dom().contains(self.key_at(h)),
            self.as_map()[self.key_at(h)] == self.value_at(h),
    {
        self.map.lemma_resolves_contains(h);
    }

    pub proof fn lemma_contains_resolves(self, kv: K::V)
        requires
            self.wf(),
            self.spec_contains(kv),
        ensures
            self.resolves(self.handle_of(kv)),
            self.key_at(self.handle_of(kv)) == kv,
            self.as_map().dom().contains(kv),
            self.value_at(self.handle_of(kv)) == self.as_map()[kv],
    {
        self.map.lemma_contains_resolves(kv);
    }

    pub proof fn lemma_retired_not_resolves(self, h: Handle)
        requires
            self.retired(h),
        ensures
            !self.resolves(h),
    {
        self.map.lemma_retired_not_resolves(h);
    }

    pub proof fn lemma_dom_contains(self, kv: K::V)
        requires
            self.wf(),
        ensures
            self.as_map().dom().contains(kv) == self.spec_contains(kv),
    {
        self.map.lemma_dom_contains(kv);
    }

    /// The length is the number of live keys.
    pub proof fn lemma_len_is_key_count(self)
        requires
            self.wf(),
        ensures
            self.as_map().dom().finite(),
            self.as_map().dom().len() == self.spec_len(),
    {
        self.map.lemma_len_is_key_count();
    }

    /// The handle sequence lists each live entry's handle exactly once
    /// and nothing else.
    pub proof fn lemma_handle_seq_props(self)
        requires
            self.wf(),
        ensures
            self.handle_seq().len() == self.spec_len(),
            forall|j: int|
                0 <= j < self.handle_seq().len() ==> self.resolves(#[trigger] self.handle_seq()[j]),
            forall|j1: int, j2: int|
                #![trigger self.handle_seq()[j1], self.handle_seq()[j2]]
                0 <= j1 < self.handle_seq().len() && 0 <= j2 < self.handle_seq().len() && j1 != j2
                    ==> self.handle_seq()[j1] != self.handle_seq()[j2],
            forall|h: Handle| #[trigger] self.resolves(h) ==> self.handle_seq().contains(h),
    {
        self.map.lemma_handle_seq_props();
    }

    // ------------------------------------------------------------------
    // Construction and size.
    // ------------------------------------------------------------------
    /// A fresh, empty map branded with `id`. References carry the brand
    /// back, which is what `WrongMap` checks; give distinct maps distinct
    /// tags.
    pub fn new(id: u64) -> (r: Self)
        ensures
            r.wf(),
            r.spec_id() == id,
            r.spec_len() == 0,
            r.as_map() == Map::<K::V, V>::empty(),
            forall|h: Handle| !r.resolves(h),
    {
        RcHashMap { id, map: CountedHashMap::new() }
    }

    pub fn len(&self) -> (r: usize)
        requires
            self.wf(),
        ensures
            r == self.spec_len(),
    {
        self.map.len()
    }

    pub fn is_empty(&self) -> (r: bool)
        requires
            self.wf(),
        ensures
            r == (self.spec_len() == 0),
    {
        self.map.is_empty()
    }

    pub fn contains_key(&self, q: &K) -> (r: bool)
        requires
            self.wf(),
        ensures
            r == self.spec_contains(q@),
            r == self.as_map().dom().contains(q@),
    {
        self.map.contains_key(q)
    }

    // ------------------------------------------------------------------
    // Minting references.
    // ------------------------------------------------------------------
    /// Insert a new entry and hand back the one reference that accounts
    /// for it; a duplicate key is refused with no change.
    pub fn insert(&mut self, key: K, value: V) -> (r: Result<Ref, InsertError>)
        requires
            old(self).wf(),
            old(self).spec_len() < usize::MAX,
        ensures
            final(self).wf(),
            final(self).spec_id() == old(self).spec_id(),
            match r {
                Ok(rf) => {
                    &&& final(self).owns(rf)
                    &&& !old(self).spec_contains(key@)
                    &&& !old(self).resolves(rf.spec_handle())
                    &&& final(self).resolves(rf.spec_handle())
                    &&& final(self).handle_of(key@) == rf.spec_handle()
                    &&& final(self).spec_contains(key@)
                    &&& final(self).key_at(rf.spec_handle()) == key@
                    &&& final(self).key_exec_at(rf.spec_handle()) == key
                    &&& final(self).value_at(rf.spec_handle()) == value
                    &&& final(self).count_at(rf.spec_handle()) == 1
                    &&& old(self).entries_preserved_except(*final(self), rf.spec_handle())
                    &&& old(self).no_new_handles_except(*final(self), rf.spec_handle())
                    &&& old(self).handles_stable(*final(self))
                    &&& old(self).retired_preserved(*final(self))
                    &&& final(self).as_map() == old(self).as_map().insert(key@, value)
                    &&& final(self).spec_len() == old(self).spec_len() + 1
                },
                Err(e) => {
                    &&& e == InsertError::DuplicateKey
                    &&& old(self).spec_contains(key@)
                    &&& *final(self) == *old(self)
                },
            },
    {
        match self.map.insert(key, value) {
            Ok(ch) => Ok(Ref { owner: self.id, inner: ch }),
            Err(e) => Err(e),
        }
    }

    /// Look the key up; on a hit, mint one more reference for the entry.
    pub fn find(&mut self, q: &K) -> (r: Option<Ref>)
        requires
            old(self).wf(),
            old(self).spec_contains(q@) ==> old(self).count_at(old(self).handle_of(q@))
                < usize::MAX,
        ensures
            final(self).wf(),
            final(self).spec_id() == old(self).spec_id(),
            match r {
                Some(rf) => {
                    &&& final(self).owns(rf)
                    &&& old(self).spec_contains(q@)
                    &&& rf.spec_handle() == old(self).handle_of(q@)
                    &&& final(self).resolves(rf.spec_handle())
                    &&& final(self).count_at(rf.spec_handle()) == old(self).count_at(
                        rf.spec_handle(),
                    ) + 1
                    &&& final(self).key_at(rf.spec_handle()) == q@
                    &&& final(self).value_at(rf.spec_handle()) == old(self).as_map()[q@]
                    &&& old(self).entries_preserved_except(*final(self), rf.spec_handle())
                    &&& old(self).no_new_handles_except(*final(self), rf.spec_handle())
                    &&& old(self).handles_stable(*final(self))
                    &&& old(self).retired_preserved(*final(self))
                    &&& final(self).as_map() == old(self).as_map()
                    &&& final(self).spec_len() == old(self).spec_len()
                },
                None => !old(self).spec_contains(q@) && *final(self) == *old(self),
            },
    {
        match self.map.find(q) {
            Some(ch) => Some(Ref { owner: self.id, inner: ch }),
            None => None,
        }
    }

    /// Mint one more reference for the entry that `r` speaks for; `r`
    /// stays usable. This is how a reference is cloned.
    pub fn clone_ref(&mut self, r: &Ref) -> (r2: Ref)
        requires
            old(self).wf(),
            old(self).owns(*r),
            old(self).resolves(r.spec_handle()),
            old(self).count_at(r.spec_handle()) < usize::MAX,
        ensures
            final(self).wf(),
            final(self).spec_id() == old(self).spec_id(),
            final(self).owns(r2),
            r2.spec_handle() == r.spec_handle(),
            final(self).resolves(r.spec_handle()),
            final(self).count_at(r.spec_handle()) == old(self).count_at(r.spec_handle()) + 1,
            final(self).key_at(r.spec_handle()) == old(self).key_at(r.spec_handle()),
            final(self).value_at(r.spec_handle()) == old(self).value_at(r.spec_handle()),
            old(self).entries_preserved_except(*final(self), r.spec_handle()),
            old(self).no_new_handles_except(*final(self), r.spec_handle()),
            old(self).handles_stable(*final(self)),
            old(self).retired_preserved(*final(self)),
            final(self).as_map() == old(self).as_map(),
            final(self).spec_len() == old(self).spec_len(),
    {
        let ch = self.map.get(&r.inner);
        Ref { owner: self.id, inner: ch }
    }

    /// Return a reference: the entry's count drops by one. Returning the
    /// last reference removes the entry and hands its key and value back;
    /// the map is consistent before the caller touches them, so dropping
    /// further references held inside the key or value is safe.
    pub fn drop_ref(&mut self, r: Ref) -> (res: PutResult<K, V>)
        requires
            old(self).wf(),
            old(self).owns(r),
            old(self).resolves(r.spec_handle()),
        ensures
            final(self).wf(),
            final(self).spec_id() == old(self).spec_id(),
            match res {
                PutResult::Live => {
                    &&& old(self).count_at(r.spec_handle()) > 1
                    &&& final(self).resolves(r.spec_handle())
                    &&& final(self).count_at(r.spec_handle()) == old(self).count_at(
                        r.spec_handle(),
                    ) - 1
                    &&& final(self).key_at(r.spec_handle()) == old(self).key_at(r.spec_handle())
                    &&& final(self).value_at(r.spec_handle()) == old(self).value_at(
                        r.spec_handle(),
                    )
                    &&& old(self).entries_preserved_except(*final(self), r.spec_handle())
                    &&& old(self).no_new_handles_except(*final(self), r.spec_handle())
                    &&& old(self).handles_stable(*final(self))
                    &&& old(self).retired_preserved(*final(self))
                    &&& final(self).as_map() == old(self).as_map()
                    &&& final(self).spec_len() == old(self).spec_len()
                },
                PutResult::Removed { key, value } => {
                    &&& old(self).count_at(r.spec_handle()) == 1
                    &&& key == old(self).key_exec_at(r.spec_handle())
                    &&& key@ == old(self).key_at(r.spec_handle())
                    &&& value == old(self).value_at(r.spec_handle())
                    &&& !final(self).resolves(r.spec_handle())
                    &&& final(self).retired(r.spec_handle())
                    &&& !final(self).spec_contains(old(self).key_at(r.spec_handle()))
                    &&& old(self).entries_preserved_except(*final(self), r.spec_handle())
                    &&& old(self).no_new_handles_except(*final(self), r.spec_handle())
                    &&& old(self).handles_stable(*final(self))
                    &&& old(self).retired_preserved(*final(self))
                    &&& final(self).as_map() == old(self).as_map().remove(
                        old(self).key_at(r.spec_handle()),
                    )
                    &&& final(self).spec_len() == old(self).spec_len() - 1
                },
            },
    {
        let Ref { owner, inner } = r;
        self.map.put(inner)
    }

    /// Mint one reference per live entry, in slot order: each entry's
    /// count grows by one and every yielded reference must eventually be
    /// returned through `drop_ref`. Dropping references to other entries
    /// while walking the result leaves the yielded references valid.
    pub fn iter_refs(&mut self) -> (r: Vec<Ref>)
        requires
            old(self).wf(),
            forall|h: Handle| #[trigger] old(self).resolves(h) ==> old(self).count_at(h)
                < usize::MAX,
        ensures
            final(self).wf(),
            final(self).spec_id() == old(self).spec_id(),
            r@.len() == old(self).spec_len(),
            forall|j: int|
                0 <= j < r@.len() ==> (#[trigger] r@[j]).spec_handle() == old(self).handle_seq()[j]
                    && r@[j].spec_owner() == old(self).spec_id(),
            forall|h2: Handle| final(self).resolves(h2) == old(self).resolves(h2),
            forall|h2: Handle|
                #[trigger] old(self).resolves(h2) ==> {
                    &&& final(self).key_at(h2) == old(self).key_at(h2)
                    &&& final(self).key_exec_at(h2) == old(self).key_exec_at(h2)
                    &&& final(self).value_at(h2) == old(self).value_at(h2)
                    &&& final(self).count_at(h2) == old(self).count_at(h2) + 1
                },
            old(self).retired_preserved(*final(self)),
            old(self).handles_stable(*final(self)),
            final(self).as_map() == old(self).as_map(),
            final(self).spec_len() == old(self).spec_len(),
            final(self).handle_seq() == old(self).handle_seq(),
    {
        proof {
            assert forall|h: Handle| #[trigger] self.map.resolves(h) implies self.map.count_at(h)
                < usize::MAX by {
                assert(old(self).resolves(h));
            }
        }
        let chs = self.map.iter_counted();
        let mut out: Vec<Ref> = Vec::new();
        let n = chs.len();
        let ghost pre = *old(self);
        let mut chs = chs;
        let mut i: usize = 0;
        proof {
            assert(chs@.len() == n);
        }
        while i < n
            invariant
                out@.len() == i,
                0 <= i <= n,
                chs@.len() == n - i,
                forall|j: int|
                    0 <= j < i ==> (#[trigger] out@[j]).spec_handle() == pre.handle_seq()[j]
                        && out@[j].spec_owner() == pre.spec_id(),
                forall|j: int|
                    0 <= j < n - i ==> (#[trigger] chs@[j]).spec_handle() == pre.handle_seq()[i
                        + j],
                self.id == pre.spec_id(),
            decreases n - i,
        {
            let ch = chs.remove(0);
            out.push(Ref { owner: self.id, inner: ch });
            i = i + 1;
        }
        out
    }

    /// The handles of all live entries, each exactly once, in slot order;
    /// no references are minted.
    pub fn handles(&self) -> (r: Vec<Handle>)
        requires
            self.wf(),
        ensures
            r@ == self.handle_seq(),
            r@.len() == self.spec_len(),
            forall|j: int| 0 <= j < r@.len() ==> self.resolves(#[trigger] r@[j]),
            forall|j1: int, j2: int|
                #![trigger r@[j1], r@[j2]]
                0 <= j1 < r@.len() && 0 <= j2 < r@.len() && j1 != j2 ==> r@[j1] != r@[j2],
            forall|h: Handle| #[trigger] self.resolves(h) ==> r@.contains(h),
    {
        self.map.handles()
    }
}

} // verus!
