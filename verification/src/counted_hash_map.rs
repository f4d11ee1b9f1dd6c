//! The counted layer: a per-entry reference counter over the structural
//! map.
//!
//! Every stored value is paired with a counter. The moment an insert
//! returns, the new entry's count is one, matching the one counted handle
//! the caller received; `find` and `get` mint further counted handles,
//! each carrying one unit; `put` consumes one and removes the entry
//! exactly when its count returns to zero. Between operations every live
//! entry's count is at least one: an entry with no outstanding counted
//! handle does not exist.

use crate::handle_hash_map::Handle;
use crate::handle_hash_map::HandleHashMap;
use crate::handle_hash_map::InsertError;
use crate::keys::MapKey;
use crate::tokens::Count;
use crate::tokens::Token;
use crate::tokens::UsizeCount;
use vstd::map::*;
use vstd::prelude::*;

verus! {

/// A value together with its reference counter.
pub struct Counted<V> {
    pub refcount: UsizeCount,
    pub value: V,
}

impl<V> Counted<V> {
    pub fn new(value: V, initial: usize) -> (r: Self)
        ensures
            r.refcount.spec_count() == initial,
            r.value == value,
    {
        Counted { refcount: UsizeCount::new(initial), value }
    }
}

/// A handle carrying one unit of its entry's count. Move-only; disposed
/// of by returning it to `put`.
pub struct CountedHandle {
    handle: Handle,
    token: Token,
}

impl CountedHandle {
    /// The structural handle this counted handle carries a unit for.
    pub closed spec fn spec_handle(self) -> Handle {
        self.handle
    }

    /// Read the structural handle (the unit of count stays put).
    pub fn handle(&self) -> (h: Handle)
        ensures
            h == self.spec_handle(),
    {
        self.handle
    }

    /// Borrow the key of the entry this handle counts for.
    pub fn key_ref<'m, K: MapKey, V>(&self, map: &'m CountedHashMap<K, V>) -> (r: Option<&'m K>)
        requires
            map.wf(),
        ensures
            match r {
                Some(k) => map.resolves(self.spec_handle()) && *k == map.key_exec_at(
                    self.spec_handle(),
                ) && k@ == map.key_at(self.spec_handle()),
                None => !map.resolves(self.spec_handle()),
            },
    {
        map.key(self.handle)
    }

    /// Borrow the value of the entry this handle counts for.
    pub fn value_ref<'m, K: MapKey, V>(&self, map: &'m CountedHashMap<K, V>) -> (r: Option<&'m V>)
        requires
            map.wf(),
        ensures
            match r {
                Some(v) => map.resolves(self.spec_handle()) && *v == map.value_at(
                    self.spec_handle(),
                ),
                None => !map.resolves(self.spec_handle()),
            },
    {
        map.value(self.handle)
    }
}

/// What returning a counted handle did: the entry lives on, or it was
/// removed and its key and value are handed back.
pub enum PutResult<K, V> {
    Live,
    Removed { key: K, value: V },
}

/// The counted map.
pub struct CountedHashMap<K: MapKey, V> {
    inner: HandleHashMap<K, Counted<V>>,
}

impl<K: MapKey, V> CountedHashMap<K, V> {
    // ------------------------------------------------------------------
    // The model: the structural model, plus a count per live entry.
    // ------------------------------------------------------------------
    pub closed spec fn resolves(self, h: Handle) -> bool {
        self.inner.resolves(h)
    }

    pub closed spec fn retired(self, h: Handle) -> bool {
        self.inner.retired(h)
    }

    pub closed spec fn spec_contains(self, kv: K::V) -> bool {
        self.inner.spec_contains(kv)
    }

    pub closed spec fn handle_of(self, kv: K::V) -> Handle {
        self.inner.handle_of(kv)
    }

    pub closed spec fn key_at(self, h: Handle) -> K::V {
        self.inner.key_at(h)
    }

    pub closed spec fn key_exec_at(self, h: Handle) -> K {
        self.inner.key_exec_at(h)
    }

    pub closed spec fn value_at(self, h: Handle) -> V {
        self.inner.value_at(h).value
    }

    /// The count of the entry that `h` resolves to.
    pub closed spec fn count_at(self, h: Handle) -> nat {
        self.inner.value_at(h).refcount.spec_count()
    }

    pub closed spec fn spec_len(self) -> nat {
        self.inner.spec_len()
    }

    pub closed spec fn handle_seq(self) -> Seq<Handle> {
        self.inner.handle_seq()
    }

    /// The contents, as a map from key views to user values.
    pub closed spec fn as_map(self) -> Map<K::V, V> {
        Map::new(|kv: K::V| self.inner.spec_contains(kv), |kv: K::V| self.inner.as_map()[kv].value)
    }

    /// Well-formed: the structural map is, and every live entry's count
    /// is at least one — an entry nobody counts for does not exist.
    pub closed spec fn wf(self) -> bool {
        &&& self.inner.wf()
        &&& forall|h: Handle| #[trigger] self.inner.resolves(h) ==> self.count_at(h) >= 1
    }

    // ------------------------------------------------------------------
    // State relations the operations promise.
    // ------------------------------------------------------------------
    /// Every other live entry keeps its key, value and count.
    pub open spec fn entries_preserved_except(self, post: Self, except: Handle) -> bool {
        forall|h2: Handle|
            #[trigger] self.resolves(h2) && h2 != except ==> post.resolves(h2) && post.key_at(h2)
                == self.key_at(h2) && post.key_exec_at(h2) == self.key_exec_at(h2)
                && post.value_at(h2) == self.value_at(h2) && post.count_at(h2) == self.count_at(h2)
    }

    /// No handle starts resolving, except possibly `born`.
    pub open spec fn no_new_handles_except(self, post: Self, born: Handle) -> bool {
        forall|h2: Handle| #[trigger] post.resolves(h2) && h2 != born ==> self.resolves(h2)
    }

    /// A key present before and after keeps its handle.
    pub open spec fn handles_stable(self, post: Self) -> bool {
        forall|kv: K::V|
            self.spec_contains(kv) && post.spec_contains(kv) ==> #[trigger] post.handle_of(kv)
                == self.handle_of(kv)
    }

    /// Retired handles stay retired.
    pub open spec fn retired_preserved(self, post: Self) -> bool {
        forall|h2: Handle| #[trigger] self.retired(h2) ==> post.retired(h2)
    }

    // ------------------------------------------------------------------
    // Bridging lemmas.
    // ------------------------------------------------------------------
    /// A live entry has a positive count: with no outstanding counted
    /// handle an entry cannot exist.
    pub proof fn lemma_live_entries_counted(self, h: Handle)
        requires
            self.wf(),
            self.resolves(h),
        ensures
            self.count_at(h) >= 1,
    {
    }

    pub proof fn lemma_resolves_contains(self, h: Handle)
        requires
            self.wf(),
            self.resolves(h),
        ensures
            self.spec_contains(self.key_at(h)),
            self.handle_of(self.key_at(h)) == h,
            self.as_map().dom().contains(self.key_at(h)),
            self.as_map()[self.key_at(h)] == self.value_at(h),
    {
        self.inner.lemma_resolves_contains(h);
    }

    pub proof fn lemma_contains_resolves(self, kv: K::V)
        requires
            self.wf(),
            self.spec_contains(kv),
        ensures
            self.resolves(self.handle_of(kv)),
            self.key_at(self.handle_of(kv)) == kv,
            self.as_map().dom().contains(kv),
            self.value_at(self.handle_of(kv)) == self.as_map()[kv],
    {
        self.inner.lemma_contains_resolves(kv);
    }

    pub proof fn lemma_retired_not_resolves(self, h: Handle)
        requires
            self.retired(h),
        ensures
            !self.resolves(h),
    {
        self.inner.lemma_retired_not_resolves(h);
    }

    pub proof fn lemma_dom_contains(self, kv: K::V)
        requires
            self.wf(),
        ensures
            self.as_map().dom().contains(kv) == self.spec_contains(kv),
    {
    }

    /// The length is the number of live keys.
    pub proof fn lemma_len_is_key_count(self)
        requires
            self.wf(),
        ensures
            self.as_map().dom().finite(),
            self.as_map().dom().len() == self.spec_len(),
    {
        self.inner.lemma_len_is_key_count();
        assert forall|kv: K::V|
            self.as_map().dom().contains(kv) == self.inner.as_map().dom().contains(kv) by {
            self.lemma_dom_contains(kv);
            self.inner.lemma_dom_contains(kv);
        }
        assert(self.as_map().dom() =~= self.inner.as_map().dom());
    }

    /// The handle sequence lists each live entry's handle exactly once
    /// and nothing else.
    pub proof fn lemma_handle_seq_props(self)
        requires
            self.wf(),
        ensures
            self.handle_seq().len() == self.spec_len(),
            forall|j: int|
                0 <= j < self.handle_seq().len() ==> self.resolves(#[trigger] self.handle_seq()[j]),
            forall|j1: int, j2: int|
                #![trigger self.handle_seq()[j1], self.handle_seq()[j2]]
                0 <= j1 < self.handle_seq().len() && 0 <= j2 < self.handle_seq().len() && j1 != j2
                    ==> self.handle_seq()[j1] != self.handle_seq()[j2],
            forall|h: Handle| #[trigger] self.resolves(h) ==> self.handle_seq().contains(h),
    {
        self.inner.lemma_handle_seq_props();
    }

    // ------------------------------------------------------------------
    // Construction and size.
    // ------------------------------------------------------------------
    pub fn new() -> (r: Self)
        ensures
            r.wf(),
            r.spec_len() == 0,
            r.as_map() == Map::<K::V, V>::empty(),
            forall|h: Handle| !r.resolves(h),
    {
        let m = CountedHashMap { inner: HandleHashMap::new() };
        proof {
            assert_maps_equal!(m.as_map(), Map::<K::V, V>::empty(), kv => {
                m.lemma_dom_contains(kv);
                m.inner.lemma_dom_contains(kv);
            });
        }
        m
    }

    pub fn len(&self) -> (r: usize)
        requires
            self.wf(),
        ensures
            r == self.spec_len(),
    {
        self.inner.len()
    }

    pub fn is_empty(&self) -> (r: bool)
        requires
            self.wf(),
        ensures
            r == (self.spec_len() == 0),
    {
        self.inner.is_empty()
    }

    pub fn contains_key(&self, q: &K) -> (r: bool)
        requires
            self.wf(),
        ensures
            r == self.spec_contains(q@),
            r == self.as_map().dom().contains(q@),
    {
        proof {
            self.lemma_dom_contains(q@);
        }
        self.inner.contains_key(q)
    }

    // ------------------------------------------------------------------
    // Acquiring counted handles.
    // ------------------------------------------------------------------
    /// Mint one more unit of count for the entry that `h` resolves to.
    fn acquire(&mut self, h: Handle) -> (t: Token)
        requires
            old(self).wf(),
            old(self).resolves(h),
            old(self).count_at(h) < usize::MAX,
        ensures
            final(self).wf(),
            final(self).resolves(h),
            final(self).count_at(h) == old(self).count_at(h) + 1,
            final(self).key_at(h) == old(self).key_at(h),
            final(self).key_exec_at(h) == old(self).key_exec_at(h),
            final(self).value_at(h) == old(self).value_at(h),
            old(self).entries_preserved_except(*final(self), h),
            old(self).no_new_handles_except(*final(self), h),
            old(self).handles_stable(*final(self)),
            old(self).retired_preserved(*final(self)),
            final(self).as_map() == old(self).as_map(),
            final(self).spec_len() == old(self).spec_len(),
            final(self).handle_seq() == old(self).handle_seq(),
    {
        let ghost pre = *old(self);
        let f = |c: Counted<V>| -> (out: (Counted<V>, Token))
            requires
                c.refcount.spec_count() < usize::MAX,
            ensures
                out.0.value == c.value,
                out.0.refcount.spec_count() == c.refcount.spec_count() + 1,
            {
                let Counted { mut refcount, value } = c;
                let t = refcount.get();
                (Counted { refcount, value }, t)
            };
        let r = self.inner.map_value(h, f);
        match r {
            Some(t) => {
                proof {
                    let post = *self;
                    let k0 = pre.inner.key_at(h);
                    pre.inner.lemma_resolves_contains(h);
                    assert forall|h2: Handle| #[trigger] post.inner.resolves(h2) implies
                        post.count_at(h2) >= 1 by {
                        if h2 != h {
                            assert(pre.inner.resolves(h2));
                        }
                    }
                    assert_maps_equal!(post.as_map(), pre.as_map(), kv => {
                        pre.lemma_dom_contains(kv);
                        post.lemma_dom_contains(kv);
                        pre.inner.lemma_dom_contains(kv);
                        post.inner.lemma_dom_contains(kv);
                        if kv != k0 && pre.inner.spec_contains(kv) {
                            assert(post.inner.as_map()[kv] == pre.inner.as_map()[kv]);
                        }
                    });
                }
                t
            }
            None => {
                proof {
                    assert(false);
                }
                vstd::pervasive::unreached()
            }
        }
    }

    /// Look the key up; on a hit, mint one more unit and hand back a
    /// counted handle. The entry's count grows by one.
    pub fn find(&mut self, q: &K) -> (r: Option<CountedHandle>)
        requires
            old(self).wf(),
            old(self).spec_contains(q@) ==> old(self).count_at(old(self).handle_of(q@))
                < usize::MAX,
        ensures
            final(self).wf(),
            match r {
                Some(ch) => {
                    &&& old(self).spec_contains(q@)
                    &&& ch.spec_handle() == old(self).handle_of(q@)
                    &&& final(self).resolves(ch.spec_handle())
                    &&& final(self).count_at(ch.spec_handle()) == old(self).count_at(
                        ch.spec_handle(),
                    ) + 1
                    &&& final(self).key_at(ch.spec_handle()) == q@
                    &&& final(self).value_at(ch.spec_handle()) == old(self).as_map()[q@]
                    &&& old(self).entries_preserved_except(*final(self), ch.spec_handle())
                    &&& old(self).no_new_handles_except(*final(self), ch.spec_handle())
                    &&& old(self).handles_stable(*final(self))
                    &&& old(self).retired_preserved(*final(self))
                    &&& final(self).as_map() == old(self).as_map()
                    &&& final(self).spec_len() == old(self).spec_len()
                },
                None => !old(self).spec_contains(q@) && *final(self) == *old(self),
            },
    {
        let found = self.inner.find(q);
        match found {
            Some(h) => {
                proof {
                    old(self).inner.lemma_resolves_contains(h);
                }
                let t = self.acquire(h);
                Some(CountedHandle { handle: h, token: t })
            }
            None => None,
        }
    }

    /// Mint one more counted handle for the same entry; the input stays
    /// usable. This is how a counted handle is cloned.
    pub fn get(&mut self, h: &CountedHandle) -> (r: CountedHandle)
        requires
            old(self).wf(),
            old(self).resolves(h.spec_handle()),
            old(self).count_at(h.spec_handle()) < usize::MAX,
        ensures
            final(self).wf(),
            r.spec_handle() == h.spec_handle(),
            final(self).resolves(h.spec_handle()),
            final(self).count_at(h.spec_handle()) == old(self).count_at(h.spec_handle()) + 1,
            final(self).key_at(h.spec_handle()) == old(self).key_at(h.spec_handle()),
            final(self).value_at(h.spec_handle()) == old(self).value_at(h.spec_handle()),
            old(self).entries_preserved_except(*final(self), h.spec_handle()),
            old(self).no_new_handles_except(*final(self), h.spec_handle()),
            old(self).handles_stable(*final(self)),
            old(self).retired_preserved(*final(self)),
            final(self).as_map() == old(self).as_map(),
            final(self).spec_len() == old(self).spec_len(),
    {
        let handle = h.handle;
        let t = self.acquire(handle);
        CountedHandle { handle, token: t }
    }

    // ------------------------------------------------------------------
    // Insertion.
    // ------------------------------------------------------------------
    /// Insert a new entry with count one, handing back the one counted
    /// handle that accounts for it; a duplicate key is refused with no
    /// change and no token minted.
    pub fn insert(&mut self, key: K, value: V) -> (r: Result<CountedHandle, InsertError>)
        requires
            old(self).wf(),
            old(self).spec_len() < usize::MAX,
        ensures
            final(self).wf(),
            match r {
                Ok(ch) => {
                    &&& !old(self).spec_contains(key@)
                    &&& !old(self).resolves(ch.spec_handle())
                    &&& final(self).resolves(ch.spec_handle())
                    &&& final(self).handle_of(key@) == ch.spec_handle()
                    &&& final(self).spec_contains(key@)
                    &&& final(self).key_at(ch.spec_handle()) == key@
                    &&& final(self).key_exec_at(ch.spec_handle()) == key
                    &&& final(self).value_at(ch.spec_handle()) == value
                    &&& final(self).count_at(ch.spec_handle()) == 1
                    &&& old(self).entries_preserved_except(*final(self), ch.spec_handle())
                    &&& old(self).no_new_handles_except(*final(self), ch.spec_handle())
                    &&& old(self).handles_stable(*final(self))
                    &&& old(self).retired_preserved(*final(self))
                    &&& final(self).as_map() == old(self).as_map().insert(key@, value)
                    &&& final(self).spec_len() == old(self).spec_len() + 1
                },
                Err(e) => {
                    &&& e == InsertError::DuplicateKey
                    &&& old(self).spec_contains(key@)
                    &&& *final(self) == *old(self)
                },
            },
    {
        let ghost pre = *old(self);
        let mut counted = Counted::new(value, 0);
        let t = counted.refcount.get();
        match self.inner.insert(key, counted) {
            Ok(h) => {
                proof {
                    let post = *self;
                    assert forall|h2: Handle| #[trigger] post.inner.resolves(h2) implies
                        post.count_at(h2) >= 1 by {
                        if h2 != h {
                            assert(pre.inner.resolves(h2));
                        }
                    }
                    assert_maps_equal!(post.as_map(), pre.as_map().insert(key@, value), kv => {
                        pre.lemma_dom_contains(kv);
                        post.lemma_dom_contains(kv);
                        pre.inner.lemma_dom_contains(kv);
                        post.inner.lemma_dom_contains(kv);
                        if kv != key@ && post.inner.spec_contains(kv) {
                            assert(post.inner.as_map()[kv] == pre.inner.as_map()[kv]);
                        }
                    });
                }
                Ok(CountedHandle { handle: h, token: t })
            }
            Err(e) => Err(e),
        }
    }

    /// Insert with a value built only on success: on a duplicate key the
    /// constructor is never run, no token is minted and the map is
    /// unchanged.
    pub fn insert_with<F: FnOnce() -> V>(&mut self, key: K, f: F) -> (r: Result<
        CountedHandle,
        InsertError,
    >)
        requires
            old(self).wf(),
            old(self).spec_len() < usize::MAX,
            call_requires(f, ()),
        ensures
            final(self).wf(),
            match r {
                Ok(ch) => {
                    &&& !old(self).spec_contains(key@)
                    &&& !old(self).resolves(ch.spec_handle())
                    &&& final(self).resolves(ch.spec_handle())
                    &&& final(self).handle_of(key@) == ch.spec_handle()
                    &&& final(self).spec_contains(key@)
                    &&& final(self).key_at(ch.spec_handle()) == key@
                    &&& final(self).key_exec_at(ch.spec_handle()) == key
                    &&& call_ensures(f, (), final(self).value_at(ch.spec_handle()))
                    &&& final(self).count_at(ch.spec_handle()) == 1
                    &&& old(self).entries_preserved_except(*final(self), ch.spec_handle())
                    &&& old(self).no_new_handles_except(*final(self), ch.spec_handle())
                    &&& old(self).handles_stable(*final(self))
                    &&& old(self).retired_preserved(*final(self))
                    &&& final(self).as_map() == old(self).as_map().insert(
                        key@,
                        final(self).value_at(ch.spec_handle()),
                    )
                    &&& final(self).spec_len() == old(self).spec_len() + 1
                },
                Err(e) => {
                    &&& e == InsertError::DuplicateKey
                    &&& old(self).spec_contains(key@)
                    &&& *final(self) == *old(self)
                },
            },
    {
        if self.inner.contains_key(&key) {
            return Err(InsertError::DuplicateKey);
        }
        let value = f();
        match self.insert(key, value) {
            Ok(ch) => Ok(ch),
            Err(e) => {
                proof {
                    assert(false);
                }
                Err(e)
            }
        }
    }

    // ------------------------------------------------------------------
    // Returning counted handles.
    // ------------------------------------------------------------------
    /// Return a counted handle: the entry's count drops by one. When it
    /// reaches zero the entry is removed and its key and value are handed
    /// back; the index is consistent before the caller touches them.
    pub fn put(&mut self, h: CountedHandle) -> (r: PutResult<K, V>)
        requires
            old(self).wf(),
            old(self).resolves(h.spec_handle()),
        ensures
            final(self).wf(),
            match r {
                PutResult::Live => {
                    &&& old(self).count_at(h.spec_handle()) > 1
                    &&& final(self).resolves(h.spec_handle())
                    &&& final(self).count_at(h.spec_handle()) == old(self).count_at(
                        h.spec_handle(),
                    ) - 1
                    &&& final(self).key_at(h.spec_handle()) == old(self).key_at(h.spec_handle())
                    &&& final(self).value_at(h.spec_handle()) == old(self).value_at(
                        h.spec_handle(),
                    )
                    &&& old(self).entries_preserved_except(*final(self), h.spec_handle())
                    &&& old(self).no_new_handles_except(*final(self), h.spec_handle())
                    &&& old(self).handles_stable(*final(self))
                    &&& old(self).retired_preserved(*final(self))
                    &&& final(self).as_map() == old(self).as_map()
                    &&& final(self).spec_len() == old(self).spec_len()
                },
                PutResult::Removed { key, value } => {
                    &&& old(self).count_at(h.spec_handle()) == 1
                    &&& key == old(self).key_exec_at(h.spec_handle())
                    &&& key@ == old(self).key_at(h.spec_handle())
                    &&& value == old(self).value_at(h.spec_handle())
                    &&& !final(self).resolves(h.spec_handle())
                    &&& final(self).retired(h.spec_handle())
                    &&& !final(self).spec_contains(old(self).key_at(h.spec_handle()))
                    &&& old(self).entries_preserved_except(*final(self), h.spec_handle())
                    &&& old(self).no_new_handles_except(*final(self), h.spec_handle())
                    &&& old(self).handles_stable(*final(self))
                    &&& old(self).retired_preserved(*final(self))
                    &&& final(self).as_map() == old(self).as_map().remove(
                        old(self).key_at(h.spec_handle()),
                    )
                    &&& final(self).spec_len() == old(self).spec_len() - 1
                },
            },
    {
        let ghost pre = *old(self);
        let CountedHandle { handle, token } = h;
        let f = move |c: Counted<V>| -> (out: (Counted<V>, bool))
            requires
                c.refcount.spec_count() >= 1,
            ensures
                out.0.value == c.value,
                out.0.refcount.spec_count() == c.refcount.spec_count() - 1,
                out.1 == (out.0.refcount.spec_count() == 0),
            {
                let Counted { mut refcount, value } = c;
                let zero = refcount.put(token);
                (Counted { refcount, value }, zero)
            };
        let r = self.inner.map_value(handle, f);
        let ghost mid = *self;
        let ghost k0 = pre.inner.key_at(handle);
        proof {
            pre.inner.lemma_resolves_contains(handle);
        }
        match r {
            Some(zero) => {
                if zero {
                    match self.inner.remove(handle) {
                        Some((key, counted)) => {
                            proof {
                                let post = *self;
                                assert(mid.inner.key_at(handle) == k0);
                                assert forall|h2: Handle| #[trigger] post.inner.resolves(
                                    h2,
                                ) implies post.count_at(h2) >= 1 by {
                                    assert(post.inner.resolves(h2) && h2 != handle);
                                    assert(mid.inner.resolves(h2));
                                    assert(pre.inner.resolves(h2));
                                    assert(post.count_at(h2) == mid.count_at(h2));
                                    assert(mid.count_at(h2) == pre.count_at(h2));
                                }
                                assert forall|h2: Handle| #[trigger] pre.resolves(h2) && h2
                                    != handle implies post.resolves(h2) && post.key_at(h2)
                                    == pre.key_at(h2) && post.key_exec_at(h2) == pre.key_exec_at(
                                    h2,
                                ) && post.value_at(h2) == pre.value_at(h2) && post.count_at(h2)
                                    == pre.count_at(h2) by {
                                    assert(pre.inner.resolves(h2));
                                    assert(mid.inner.resolves(h2));
                                }
                                assert forall|h2: Handle| #[trigger] post.resolves(h2) && h2
                                    != handle implies pre.resolves(h2) by {
                                    assert(mid.inner.resolves(h2));
                                }
                                assert forall|h2: Handle| #[trigger] pre.retired(h2) implies
                                    post.retired(h2) by {
                                    assert(mid.inner.retired(h2));
                                }
                                assert forall|kv: K::V|
                                    pre.spec_contains(kv) && post.spec_contains(
                                        kv,
                                    ) implies #[trigger] post.handle_of(kv) == pre.handle_of(
                                    kv,
                                ) by {
                                    pre.inner.lemma_dom_contains(kv);
                                    mid.inner.lemma_dom_contains(kv);
                                    post.inner.lemma_dom_contains(kv);
                                    assert(mid.inner.spec_contains(kv));
                                    assert(mid.inner.handle_of(kv) == pre.inner.handle_of(kv));
                                    assert(post.inner.handle_of(kv) == mid.inner.handle_of(kv));
                                }
                                assert_maps_equal!(post.as_map(), pre.as_map().remove(k0), kv => {
                                    pre.lemma_dom_contains(kv);
                                    post.lemma_dom_contains(kv);
                                    pre.inner.lemma_dom_contains(kv);
                                    mid.inner.lemma_dom_contains(kv);
                                    post.inner.lemma_dom_contains(kv);
                                    if kv != k0 && post.inner.spec_contains(kv) {
                                        assert(post.inner.as_map()[kv] == mid.inner.as_map()[kv]);
                                        assert(mid.inner.as_map()[kv] == pre.inner.as_map()[kv]);
                                    }
                                });
                            }
                            PutResult::Removed { key, value: counted.value }
                        }
                        None => {
                            proof {
                                assert(false);
                            }
                            PutResult::Live
                        }
                    }
                } else {
                    proof {
                        let post = *self;
                        assert forall|h2: Handle| #[trigger] post.inner.resolves(h2) implies
                            post.count_at(h2) >= 1 by {
                            if h2 != handle {
                                assert(pre.inner.resolves(h2));
                            }
                        }
                        assert_maps_equal!(post.as_map(), pre.as_map(), kv => {
                            pre.lemma_dom_contains(kv);
                            post.lemma_dom_contains(kv);
                            pre.inner.lemma_dom_contains(kv);
                            post.inner.lemma_dom_contains(kv);
                            if kv != k0 && pre.inner.spec_contains(kv) {
                                assert(post.inner.as_map()[kv] == pre.inner.as_map()[kv]);
                            }
                        });
                    }
                    PutResult::Live
                }
            }
            None => {
                proof {
                    assert(false);
                }
                PutResult::Live
            }
        }
    }

    // ------------------------------------------------------------------
    // Value access and update.
    // ------------------------------------------------------------------
    /// Replace the user value of the entry a counted handle counts for,
    /// returning the previous value. The count is untouched.
    pub fn set_value(&mut self, h: &CountedHandle, value: V) -> (prev: V)
        requires
            old(self).wf(),
            old(self).resolves(h.spec_handle()),
        ensures
            final(self).wf(),
            prev == old(self).value_at(h.spec_handle()),
            final(self).resolves(h.spec_handle()),
            final(self).value_at(h.spec_handle()) == value,
            final(self).count_at(h.spec_handle()) == old(self).count_at(h.spec_handle()),
            final(self).key_at(h.spec_handle()) == old(self).key_at(h.spec_handle()),
            old(self).entries_preserved_except(*final(self), h.spec_handle()),
            old(self).no_new_handles_except(*final(self), h.spec_handle()),
            old(self).handles_stable(*final(self)),
            old(self).retired_preserved(*final(self)),
            final(self).as_map() == old(self).as_map().insert(
                old(self).key_at(h.spec_handle()),
                value,
            ),
            final(self).spec_len() == old(self).spec_len(),
    {
        let ghost pre = *old(self);
        let handle = h.handle;
        let f = move |c: Counted<V>| -> (out: (Counted<V>, V))
            ensures
                out.0.value == value,
                out.0.refcount.spec_count() == c.refcount.spec_count(),
                out.1 == c.value,
            {
                let Counted { refcount, value: prev } = c;
                (Counted { refcount, value }, prev)
            };
        let r = self.inner.map_value(handle, f);
        match r {
            Some(prev) => {
                proof {
                    let post = *self;
                    let k0 = pre.inner.key_at(handle);
                    pre.inner.lemma_resolves_contains(handle);
                    assert forall|h2: Handle| #[trigger] post.inner.resolves(h2) implies
                        post.count_at(h2) >= 1 by {
                        if h2 != handle {
                            assert(pre.inner.resolves(h2));
                        }
                    }
                    assert_maps_equal!(post.as_map(), pre.as_map().insert(k0, value), kv => {
                        pre.lemma_dom_contains(kv);
                        post.lemma_dom_contains(kv);
                        pre.inner.lemma_dom_contains(kv);
                        post.inner.lemma_dom_contains(kv);
                        if kv != k0 && post.inner.spec_contains(kv) {
                            assert(post.inner.as_map()[kv] == pre.inner.as_map()[kv]);
                        }
                    });
                }
                prev
            }
            None => {
                proof {
                    assert(false);
                }
                vstd::pervasive::unreached()
            }
        }
    }

    // ------------------------------------------------------------------
    // Iteration.
    // ------------------------------------------------------------------
    /// The handles of all live entries, each exactly once, in slot order;
    /// no tokens are minted (the entries are alive by being in the map).
    pub fn handles(&self) -> (r: Vec<Handle>)
        requires
            self.wf(),
        ensures
            r@ == self.handle_seq(),
            r@.len() == self.spec_len(),
            forall|j: int| 0 <= j < r@.len() ==> self.resolves(#[trigger] r@[j]),
            forall|j1: int, j2: int|
                #![trigger r@[j1], r@[j2]]
                0 <= j1 < r@.len() && 0 <= j2 < r@.len() && j1 != j2 ==> r@[j1] != r@[j2],
            forall|h: Handle| #[trigger] self.resolves(h) ==> r@.contains(h),
    {
        self.inner.handles()
    }

    /// Mint one counted handle per live entry, in slot order. Every entry's
    /// count grows by one; each handle must eventually be returned to
    /// `put`. This is how an iteration that hands out entry references is
    /// built: the minted handles keep every yielded entry alive.
    pub fn iter_counted(&mut self) -> (r: Vec<CountedHandle>)
        requires
            old(self).wf(),
            forall|h: Handle| #[trigger] old(self).resolves(h) ==> old(self).count_at(h)
                < usize::MAX,
        ensures
            final(self).wf(),
            r@.len() == old(self).spec_len(),
            forall|j: int|
                0 <= j < r@.len() ==> (#[trigger] r@[j]).spec_handle() == old(self).handle_seq()[j],
            forall|h2: Handle| final(self).resolves(h2) == old(self).resolves(h2),
            forall|h2: Handle|
                #[trigger] old(self).resolves(h2) ==> {
                    &&& final(self).key_at(h2) == old(self).key_at(h2)
                    &&& final(self).key_exec_at(h2) == old(self).key_exec_at(h2)
                    &&& final(self).value_at(h2) == old(self).value_at(h2)
                    &&& final(self).count_at(h2) == old(self).count_at(h2) + 1
                },
            old(self).retired_preserved(*final(self)),
            old(self).handles_stable(*final(self)),
            final(self).as_map() == old(self).as_map(),
            final(self).spec_len() == old(self).spec_len(),
            final(self).handle_seq() == old(self).handle_seq(),
    {
        let ghost pre = *old(self);
        let hs = self.inner.handles();
        let n = hs.len();
        let mut out: Vec<CountedHandle> = Vec::new();
        let mut i: usize = 0;
        while i < n
            invariant
                self.wf(),
                pre.wf(),
                n == hs@.len(),
                0 <= i <= n,
                hs@ == pre.handle_seq(),
                forall|j: int| 0 <= j < n ==> pre.resolves(#[trigger] hs@[j]),
                forall|j1: int, j2: int|
                    #![trigger hs@[j1], hs@[j2]]
                    0 <= j1 < n && 0 <= j2 < n && j1 != j2 ==> hs@[j1] != hs@[j2],
                forall|h2: Handle| #[trigger] pre.resolves(h2) ==> pre.count_at(h2) < usize::MAX,
                out@.len() == i,
                forall|j: int| 0 <= j < i ==> (#[trigger] out@[j]).spec_handle() == hs@[j],
                forall|h2: Handle| self.resolves(h2) == pre.resolves(h2),
                forall|h2: Handle|
                    #[trigger] pre.resolves(h2) ==> self.key_at(h2) == pre.key_at(h2)
                        && self.key_exec_at(h2) == pre.key_exec_at(h2) && self.value_at(h2)
                        == pre.value_at(h2),
                forall|j: int|
                    0 <= j < i ==> self.count_at(#[trigger] hs@[j]) == pre.count_at(hs@[j]) + 1,
                forall|j: int|
                    i <= j < n ==> self.count_at(#[trigger] hs@[j]) == pre.count_at(hs@[j]),
                pre.retired_preserved(*self),
                pre.handles_stable(*self),
                self.as_map() == pre.as_map(),
                self.spec_len() == pre.spec_len(),
                self.handle_seq() == pre.handle_seq(),
            decreases n - i,
        {
            let h = hs[i];
            let ghost before = *self;
            let t = self.acquire(h);
            out.push(CountedHandle { handle: h, token: t });
            proof {
                assert forall|j: int| 0 <= j < i + 1 implies self.count_at(#[trigger] hs@[j])
                    == pre.count_at(hs@[j]) + 1 by {
                    if j < i {
                        assert(hs@[j] != h);
                        assert(before.resolves(hs@[j]));
                    }
                }
                assert forall|j: int| i + 1 <= j < n implies self.count_at(#[trigger] hs@[j])
                    == pre.count_at(hs@[j]) by {
                    assert(hs@[j] != h);
                    assert(before.resolves(hs@[j]));
                }
                assert forall|h2: Handle| #[trigger] pre.resolves(h2) implies self.key_at(h2)
                    == pre.key_at(h2) && self.key_exec_at(h2) == pre.key_exec_at(h2)
                    && self.value_at(h2) == pre.value_at(h2) by {
                    assert(before.resolves(h2));
                    if h2 != h {
                        assert(self.key_at(h2) == before.key_at(h2));
                    }
                }
                assert forall|kv: K::V|
                    pre.spec_contains(kv) && self.spec_contains(kv) implies #[trigger] self.handle_of(
                    kv,
                ) == pre.handle_of(kv) by {
                    pre.lemma_dom_contains(kv);
                    before.lemma_dom_contains(kv);
                    assert(before.spec_contains(kv));
                    assert(before.handle_of(kv) == pre.handle_of(kv));
                }
            }
            i = i + 1;
        }
        out
    }

    /// Read the count of the entry that `h` resolves to.
    pub fn count(&self, h: Handle) -> (r: Option<usize>)
        requires
            self.wf(),
        ensures
            match r {
                Some(c) => self.resolves(h) && c == self.count_at(h),
                None => !self.resolves(h),
            },
    {
        match self.inner.value(h) {
            Some(c) => Some(c.refcount.count()),
            None => None,
        }
    }

    /// Borrow the key that `h` resolves to.
    pub fn key<'a>(&'a self, h: Handle) -> (r: Option<&'a K>)
        requires
            self.wf(),
        ensures
            match r {
                Some(k) => self.resolves(h) && *k == self.key_exec_at(h) && k@ == self.key_at(h),
                None => !self.resolves(h),
            },
    {
        self.inner.key(h)
    }

    /// Borrow the value that `h` resolves to.
    pub fn value<'a>(&'a self, h: Handle) -> (r: Option<&'a V>)
        requires
            self.wf(),
        ensures
            match r {
                Some(v) => self.resolves(h) && *v == self.value_at(h),
                None => !self.resolves(h),
            },
    {
        match self.inner.value(h) {
            Some(c) => Some(&c.value),
            None => None,
        }
    }
}

} // verus!
