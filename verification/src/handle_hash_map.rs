//! The structural layer: a hash index over a slot table with generational
//! slot identifiers.
//!
//! Entries live in a slot table; a bucketed index maps the stored 64-bit
//! hash of each entry's key to its slot, so handle-based access never
//! re-hashes and lookups probe one bucket. Every entry's hash is computed
//! once, at insertion, and kept with the entry; removal and growth of the
//! index only ever read that stored hash. A slot that is freed and reused
//! bumps its generation, so a handle to the old occupant can never resolve
//! to the new one.

use crate::keys::MapKey;
use vstd::prelude::*;

verus! {

/// Number of buckets the index starts with.
pub const INITIAL_BUCKETS: usize = 16;

/// A stable identifier for an entry: the entry's slot and the generation
/// the slot had when the entry was created. Cheap to copy, hash, compare.
#[derive(Clone, Copy, PartialEq, Eq, Hash, Debug, Structural)]
pub struct Handle {
    pub index: usize,
    pub generation: u64,
}

/// The one user-facing failure of insertion.
#[derive(Clone, Copy, PartialEq, Eq, Hash, Debug, Structural)]
pub enum InsertError {
    DuplicateKey,
}

impl Handle {
    /// Borrow the key this handle resolves to in `map`.
    pub fn key<'a, K: MapKey, V>(&self, map: &'a HandleHashMap<K, V>) -> (r: Option<&'a K>)
        requires
            map.wf(),
        ensures
            match r {
                Some(k) => map.resolves(*self) && *k == map.key_exec_at(*self) && k@ == map.key_at(
                    *self,
                ),
                None => !map.resolves(*self),
            },
    {
        map.key(*self)
    }

    /// Borrow the value this handle resolves to in `map`.
    pub fn value<'a, K: MapKey, V>(&self, map: &'a HandleHashMap<K, V>) -> (r: Option<&'a V>)
        requires
            map.wf(),
        ensures
            match r {
                Some(v) => map.resolves(*self) && *v == map.value_at(*self),
                None => !map.resolves(*self),
            },
    {
        map.value(*self)
    }
}

enum Slot<K, V> {
    Vacant { generation: u64 },
    Occupied { generation: u64, hash: u64, key: K, value: V },
}

impl<K, V> Slot<K, V> {
    spec fn gen_of(self) -> u64 {
        match self {
            Slot::Vacant { generation } => generation,
            Slot::Occupied { generation, .. } => generation,
        }
    }

    spec fn is_occ(self) -> bool {
        self is Occupied
    }

    spec fn hash_of_slot(self) -> u64 {
        match self {
            Slot::Vacant { .. } => 0,
            Slot::Occupied { hash, .. } => hash,
        }
    }

    spec fn key_of(self) -> K
        recommends
            self.is_occ(),
    {
        match self {
            Slot::Vacant { .. } => vstd::pervasive::arbitrary(),
            Slot::Occupied { key, .. } => key,
        }
    }

    spec fn value_of(self) -> V
        recommends
            self.is_occ(),
    {
        match self {
            Slot::Vacant { .. } => vstd::pervasive::arbitrary(),
            Slot::Occupied { value, .. } => value,
        }
    }
}

spec fn occ_count<K, V>(s: Seq<Slot<K, V>>) -> nat
    decreases s.len(),
{
    if s.len() == 0 {
        0
    } else {
        occ_count(s.drop_last()) + if s.last().is_occ() {
            1nat
        } else {
            0nat
        }
    }
}

proof fn lemma_occ_count_update<K, V>(s: Seq<Slot<K, V>>, i: int, x: Slot<K, V>)
    requires
        0 <= i < s.len(),
    ensures
        occ_count(s.update(i, x)) == occ_count(s) + (if x.is_occ() {
            1int
        } else {
            0int
        }) - (if s[i].is_occ() {
            1int
        } else {
            0int
        }),
    decreases s.len(),
{
    let t = s.update(i, x);
    if i == s.len() - 1 {
        assert(t.drop_last() =~= s.drop_last());
    } else {
        assert(t.drop_last() =~= s.drop_last().update(i, x));
        lemma_occ_count_update(s.drop_last(), i, x);
    }
}

spec fn handles_of<K, V>(s: Seq<Slot<K, V>>) -> Seq<Handle>
    decreases s.len(),
{
    if s.len() == 0 {
        Seq::empty()
    } else {
        handles_of(s.drop_last()) + if s.last().is_occ() {
            seq![Handle { index: (s.len() - 1) as usize, generation: s.last().gen_of() }]
        } else {
            Seq::empty()
        }
    }
}

proof fn lemma_handles_of_props<K, V>(s: Seq<Slot<K, V>>)
    requires
        s.len() <= usize::MAX,
    ensures
        handles_of(s).len() == occ_count(s),
        forall|j: int|
            0 <= j < handles_of(s).len() ==> {
                let h = #[trigger] handles_of(s)[j];
                h.index < s.len() && s[h.index as int].is_occ() && s[h.index as int].gen_of()
                    == h.generation
            },
        forall|j1: int, j2: int|
            #![trigger handles_of(s)[j1], handles_of(s)[j2]]
            0 <= j1 < j2 < handles_of(s).len() ==> handles_of(s)[j1].index
                < handles_of(s)[j2].index,
        forall|i: int|
            0 <= i < s.len() && (#[trigger] s[i]).is_occ() ==> handles_of(s).contains(
                Handle { index: i as usize, generation: s[i].gen_of() },
            ),
    decreases s.len(),
{
    if s.len() == 0 {
    } else {
        let prefix = s.drop_last();
        lemma_handles_of_props(prefix);
        let hs = handles_of(s);
        let hp = handles_of(prefix);
        assert forall|i: int| 0 <= i < s.len() && (#[trigger] s[i]).is_occ() implies hs.contains(
            Handle { index: i as usize, generation: s[i].gen_of() },
        ) by {
            let h = Handle { index: i as usize, generation: s[i].gen_of() };
            if i < s.len() - 1 {
                assert(prefix[i] == s[i]);
                assert(hp.contains(h));
                let j = choose|j: int| 0 <= j < hp.len() && hp[j] == h;
                assert(hs[j] == h);
            } else {
                assert(hs[hs.len() - 1] == h);
            }
        }
    }
}

proof fn lemma_handles_of_same<K, V>(s1: Seq<Slot<K, V>>, s2: Seq<Slot<K, V>>)
    requires
        s1.len() == s2.len(),
        forall|i: int|
            0 <= i < s1.len() ==> (#[trigger] s1[i]).is_occ() == s2[i].is_occ() && s1[i].gen_of()
                == s2[i].gen_of(),
    ensures
        handles_of(s1) == handles_of(s2),
    decreases s1.len(),
{
    if s1.len() > 0 {
        assert(s1.drop_last().len() == s2.drop_last().len());
        lemma_handles_of_same(s1.drop_last(), s2.drop_last());
        assert(s1.last().is_occ() == s2.last().is_occ() && s1.last().gen_of()
            == s2.last().gen_of());
    }
}

proof fn lemma_occ_count_push<K, V>(s: Seq<Slot<K, V>>, x: Slot<K, V>)
    ensures
        occ_count(s.push(x)) == occ_count(s) + (if x.is_occ() {
            1int
        } else {
            0int
        }),
{
    assert(s.push(x).drop_last() =~= s);
}

spec fn keys_of<K: MapKey, V>(s: Seq<Slot<K, V>>) -> Set<K::V>
    decreases s.len(),
{
    if s.len() == 0 {
        Set::empty()
    } else {
        let rest = keys_of(s.drop_last());
        if s.last().is_occ() {
            rest.insert(s.last().key_of()@)
        } else {
            rest
        }
    }
}

proof fn lemma_keys_of_props<K: MapKey, V>(s: Seq<Slot<K, V>>)
    ensures
        keys_of(s).finite(),
        forall|kv: K::V|
            #[trigger] keys_of(s).contains(kv) ==> exists|i: int|
                0 <= i < s.len() && (#[trigger] s[i]).is_occ() && s[i].key_of()@ == kv,
        forall|i: int|
            0 <= i < s.len() && (#[trigger] s[i]).is_occ() ==> keys_of(s).contains(s[i].key_of()@),
    decreases s.len(),
{
    if s.len() == 0 {
    } else {
        let prefix = s.drop_last();
        lemma_keys_of_props(prefix);
        assert forall|kv: K::V| #[trigger] keys_of(s).contains(kv) implies exists|i: int|
            0 <= i < s.len() && (#[trigger] s[i]).is_occ() && s[i].key_of()@ == kv by {
            if s.last().is_occ() && kv == s.last().key_of()@ {
                assert(s[s.len() - 1].is_occ() && s[s.len() - 1].key_of()@ == kv);
            } else {
                assert(keys_of(prefix).contains(kv));
                let i = choose|i: int|
                    0 <= i < prefix.len() && (#[trigger] prefix[i]).is_occ() && prefix[i].key_of()@
                        == kv;
                assert(s[i].is_occ() && s[i].key_of()@ == kv);
            }
        }
        assert forall|i: int| 0 <= i < s.len() && (#[trigger] s[i]).is_occ() implies keys_of(
            s,
        ).contains(s[i].key_of()@) by {
            if i < s.len() - 1 {
                assert(prefix[i] == s[i]);
                assert(keys_of(prefix).contains(s[i].key_of()@));
            }
        }
    }
}

proof fn lemma_keys_of_count<K: MapKey, V>(s: Seq<Slot<K, V>>)
    requires
        forall|i: int, j: int|
            #![trigger s[i], s[j]]
            0 <= i < s.len() && 0 <= j < s.len() && i != j && s[i].is_occ() && s[j].is_occ()
                ==> s[i].key_of()@ != s[j].key_of()@,
    ensures
        keys_of(s).finite(),
        keys_of(s).len() == occ_count(s),
    decreases s.len(),
{
    lemma_keys_of_props(s);
    if s.len() == 0 {
    } else {
        let prefix = s.drop_last();
        assert forall|i: int, j: int|
            #![trigger prefix[i], prefix[j]]
            0 <= i < prefix.len() && 0 <= j < prefix.len() && i != j && prefix[i].is_occ()
                && prefix[j].is_occ() implies prefix[i].key_of()@ != prefix[j].key_of()@ by {
            assert(prefix[i] == s[i] && prefix[j] == s[j]);
        }
        lemma_keys_of_count(prefix);
        lemma_keys_of_props(prefix);
        if s.last().is_occ() {
            let k0 = s.last().key_of()@;
            assert(!keys_of(prefix).contains(k0)) by {
                if keys_of(prefix).contains(k0) {
                    let i = choose|i: int|
                        0 <= i < prefix.len() && (#[trigger] prefix[i]).is_occ()
                            && prefix[i].key_of()@ == k0;
                    assert(s[i] == prefix[i]);
                    assert(s[i].key_of()@ != s[s.len() - 1].key_of()@);
                }
            }
        }
    }
}

/// The structural map: a slot table, a bucketed hash index over it, a free
/// list of vacant slots, and the number of live entries.
pub struct HandleHashMap<K: MapKey, V> {
    slots: Vec<Slot<K, V>>,
    buckets: Vec<Vec<usize>>,
    free: Vec<usize>,
    count: usize,
}

impl<K: MapKey, V> HandleHashMap<K, V> {
    // ------------------------------------------------------------------
    // The model.
    // ------------------------------------------------------------------
    /// Slot `i` holds a live entry.
    spec fn occ(self, i: int) -> bool {
        0 <= i < self.slots@.len() && self.slots@[i].is_occ()
    }

    /// The bucket the stored hash `h` belongs to.
    spec fn bucket_index(self, h: u64) -> int {
        (h as int) % (self.buckets@.len() as int)
    }

    /// Number of live entries.
    pub closed spec fn spec_len(self) -> nat {
        occ_count(self.slots@)
    }

    /// Some live entry's key has view `kv`.
    pub closed spec fn spec_contains(self, kv: K::V) -> bool {
        exists|i: int| self.occ(i) && self.slots@[i].key_of()@ == kv
    }

    spec fn slot_of(self, kv: K::V) -> int {
        choose|i: int| self.occ(i) && self.slots@[i].key_of()@ == kv
    }

    /// The handle of the live entry whose key has view `kv`.
    pub closed spec fn handle_of(self, kv: K::V) -> Handle {
        Handle {
            index: self.slot_of(kv) as usize,
            generation: self.slots@[self.slot_of(kv)].gen_of(),
        }
    }

    /// The contents, as a map from key views to values.
    pub closed spec fn as_map(self) -> Map<K::V, V> {
        Map::new(
            |kv: K::V| self.spec_contains(kv),
            |kv: K::V| self.slots@[self.slot_of(kv)].value_of(),
        )
    }

    /// The handles of the live entries, in slot order: the order that
    /// `handles` yields, a function of the contents alone.
    pub closed spec fn handle_seq(self) -> Seq<Handle> {
        handles_of(self.slots@)
    }

    /// `h` currently resolves to a live entry: its slot is occupied and
    /// the generation matches.
    pub closed spec fn resolves(self, h: Handle) -> bool {
        self.occ(h.index as int) && self.slots@[h.index as int].gen_of() == h.generation
    }

    /// `h` can never resolve again: its slot has moved past it, either to
    /// a later generation or to vacancy at the same generation.
    pub closed spec fn retired(self, h: Handle) -> bool {
        h.index < self.slots@.len() && {
            let s = self.slots@[h.index as int];
            s.gen_of() > h.generation || (s.gen_of() == h.generation && !s.is_occ())
        }
    }

    /// View of the key that `h` resolves to.
    pub closed spec fn key_at(self, h: Handle) -> K::V
        recommends
            self.resolves(h),
    {
        self.slots@[h.index as int].key_of()@
    }

    /// The stored key value that `h` resolves to.
    pub closed spec fn key_exec_at(self, h: Handle) -> K
        recommends
            self.resolves(h),
    {
        self.slots@[h.index as int].key_of()
    }

    /// The stored value that `h` resolves to.
    pub closed spec fn value_at(self, h: Handle) -> V
        recommends
            self.resolves(h),
    {
        self.slots@[h.index as int].value_of()
    }

    // ------------------------------------------------------------------
    // How one state can relate to the next. The mutating operations
    // promise these, so a caller can chain them: handles stay put while
    // their entry lives, and a retired handle never comes back.
    // ------------------------------------------------------------------
    /// Every handle that resolved keeps resolving, to the same key and
    /// value, except possibly `except`.
    pub open spec fn entries_preserved_except(self, post: Self, except: Handle) -> bool {
        forall|h2: Handle|
            #[trigger] self.resolves(h2) && h2 != except ==> post.resolves(h2) && post.key_at(h2)
                == self.key_at(h2) && post.key_exec_at(h2) == self.key_exec_at(h2)
                && post.value_at(h2) == self.value_at(h2)
    }

    /// No handle starts resolving, except possibly `born`.
    pub open spec fn no_new_handles_except(self, post: Self, born: Handle) -> bool {
        forall|h2: Handle| #[trigger] post.resolves(h2) && h2 != born ==> self.resolves(h2)
    }

    /// A key present before and after keeps its handle.
    pub open spec fn handles_stable(self, post: Self) -> bool {
        forall|kv: K::V|
            self.spec_contains(kv) && post.spec_contains(kv) ==> #[trigger] post.handle_of(kv)
                == self.handle_of(kv)
    }

    /// Retired handles stay retired.
    pub open spec fn retired_preserved(self, post: Self) -> bool {
        forall|h2: Handle| #[trigger] self.retired(h2) ==> post.retired(h2)
    }

    // ------------------------------------------------------------------
    // The invariant.
    // ------------------------------------------------------------------
    /// Every index entry points at a live slot whose stored hash selects
    /// that very bucket.
    spec fn inv_index_sound(self) -> bool {
        forall|b: int, j: int|
            0 <= b < self.buckets@.len() && 0 <= j < self.buckets@[b]@.len() ==> {
                let s = #[trigger] self.buckets@[b]@[j];
                &&& s < self.slots@.len()
                &&& self.slots@[s as int].is_occ()
                &&& self.bucket_index(self.slots@[s as int].hash_of_slot()) == b
            }
    }

    /// Every live slot is registered in the bucket its stored hash selects.
    spec fn inv_index_complete(self) -> bool {
        forall|i: int|
            #[trigger] self.occ(i) ==> self.buckets@[self.bucket_index(
                self.slots@[i].hash_of_slot(),
            )]@.contains(i as usize)
    }

    /// No bucket lists a slot twice.
    spec fn inv_index_nodup(self) -> bool {
        forall|b: int, j1: int, j2: int|
            #![trigger self.buckets@[b]@[j1], self.buckets@[b]@[j2]]
            0 <= b < self.buckets@.len() && 0 <= j1 < self.buckets@[b]@.len() && 0 <= j2
                < self.buckets@[b]@.len() && j1 != j2 ==> self.buckets@[b]@[j1]
                != self.buckets@[b]@[j2]
    }

    /// Live keys are unique, by view.
    spec fn inv_keys_unique(self) -> bool {
        forall|i: int, j: int|
            #![trigger self.occ(i), self.occ(j)]
            self.occ(i) && self.occ(j) && i != j ==> self.slots@[i].key_of()@
                != self.slots@[j].key_of()@
    }

    /// Every stored hash is the hash of its entry's key.
    spec fn inv_hash_stored(self) -> bool {
        forall|i: int|
            #[trigger] self.occ(i) ==> self.slots@[i].hash_of_slot() == K::hash_of(
                self.slots@[i].key_of()@,
            )
    }

    /// The free list names vacant slots, each at most once.
    spec fn inv_free(self) -> bool {
        &&& forall|j: int|
            0 <= j < self.free@.len() ==> (#[trigger] self.free@[j] < self.slots@.len()
                && !self.slots@[self.free@[j] as int].is_occ())
        &&& forall|j1: int, j2: int|
            #![trigger self.free@[j1], self.free@[j2]]
            0 <= j1 < self.free@.len() && 0 <= j2 < self.free@.len() && j1 != j2 ==> self.free@[j1]
                != self.free@[j2]
    }

    /// Well-formedness: what every operation preserves.
    pub closed spec fn wf(self) -> bool {
        &&& self.buckets@.len() >= 1
        &&& self.inv_index_sound()
        &&& self.inv_index_complete()
        &&& self.inv_index_nodup()
        &&& self.inv_keys_unique()
        &&& self.inv_hash_stored()
        &&& self.inv_free()
        &&& self.count == occ_count(self.slots@)
    }

    // ------------------------------------------------------------------
    // Construction and size.
    // ------------------------------------------------------------------
    pub fn new() -> (r: Self)
        ensures
            r.wf(),
            r.spec_len() == 0,
            r.as_map() == Map::<K::V, V>::empty(),
            forall|h: Handle| !r.resolves(h),
    {
        let mut buckets: Vec<Vec<usize>> = Vec::new();
        let mut i: usize = 0;
        while i < INITIAL_BUCKETS
            invariant
                buckets@.len() == i,
                0 <= i <= INITIAL_BUCKETS,
                forall|b: int| 0 <= b < i ==> #[trigger] buckets@[b]@.len() == 0,
            decreases INITIAL_BUCKETS - i,
        {
            buckets.push(Vec::new());
            i = i + 1;
        }
        let m = HandleHashMap { slots: Vec::new(), buckets, free: Vec::new(), count: 0 };
        proof {
            assert(m.as_map() =~= Map::<K::V, V>::empty());
        }
        m
    }

    pub fn len(&self) -> (r: usize)
        requires
            self.wf(),
        ensures
            r == self.spec_len(),
    {
        self.count
    }

    pub fn is_empty(&self) -> (r: bool)
        requires
            self.wf(),
        ensures
            r == (self.spec_len() == 0),
    {
        self.count == 0
    }

    // ------------------------------------------------------------------
    // Relating handles, keys and the map model.
    // ------------------------------------------------------------------
    /// Views of the vectors are as long as the vectors themselves, so
    /// every index of the view fits in `usize`.
    proof fn lemma_len_bounds(self)
        ensures
            self.slots@.len() <= usize::MAX,
            self.buckets@.len() <= usize::MAX,
            self.free@.len() <= usize::MAX,
    {
        assert(self.slots.len() == self.slots@.len());
        assert(self.buckets.len() == self.buckets@.len());
        assert(self.free.len() == self.free@.len());
    }

    /// A handle that resolves stands for a live key, and it is the handle
    /// the model associates with that key.
    pub proof fn lemma_resolves_contains(self, h: Handle)
        requires
            self.wf(),
            self.resolves(h),
        ensures
            self.spec_contains(self.key_at(h)),
            self.handle_of(self.key_at(h)) == h,
            self.as_map().dom().contains(self.key_at(h)),
            self.as_map()[self.key_at(h)] == self.value_at(h),
    {
        let i = h.index as int;
        assert(self.occ(i) && self.slots@[i].key_of()@ == self.key_at(h));
        let i0 = self.slot_of(self.key_at(h));
        assert(self.occ(i0) && self.slots@[i0].key_of()@ == self.key_at(h));
        assert(i0 == i);
    }

    /// A live key's handle resolves, back to that key and to the model's
    /// value for it.
    pub proof fn lemma_contains_resolves(self, kv: K::V)
        requires
            self.wf(),
            self.spec_contains(kv),
        ensures
            self.resolves(self.handle_of(kv)),
            self.key_at(self.handle_of(kv)) == kv,
            self.as_map().dom().contains(kv),
            self.value_at(self.handle_of(kv)) == self.as_map()[kv],
    {
        self.lemma_len_bounds();
        let i = self.slot_of(kv);
        assert(self.occ(i) && self.slots@[i].key_of()@ == kv);
        assert(i as usize as int == i);
    }

    /// A retired handle does not resolve; retirement is forever, as the
    /// mutating operations' contracts state that retirement is preserved.
    pub proof fn lemma_retired_not_resolves(self, h: Handle)
        requires
            self.retired(h),
        ensures
            !self.resolves(h),
    {
    }

    /// The length is the number of live keys: the model map's domain is
    /// finite and exactly `spec_len` large.
    pub proof fn lemma_len_is_key_count(self)
        requires
            self.wf(),
        ensures
            self.as_map().dom().finite(),
            self.as_map().dom().len() == self.spec_len(),
    {
        assert forall|i: int, j: int|
            #![trigger self.slots@[i], self.slots@[j]]
            0 <= i < self.slots@.len() && 0 <= j < self.slots@.len() && i != j
                && self.slots@[i].is_occ() && self.slots@[j].is_occ() implies self.slots@[i].key_of()@
            != self.slots@[j].key_of()@ by {
            assert(self.occ(i) && self.occ(j));
        }
        lemma_keys_of_count(self.slots@);
        lemma_keys_of_props(self.slots@);
        assert forall|kv: K::V|
            self.as_map().dom().contains(kv) == keys_of(self.slots@).contains(kv) by {
            self.lemma_dom_contains(kv);
            if self.spec_contains(kv) {
                let i = self.slot_of(kv);
                assert(self.occ(i) && self.slots@[i].key_of()@ == kv);
                assert(keys_of(self.slots@).contains(kv));
            }
            if keys_of(self.slots@).contains(kv) {
                let i = choose|i: int|
                    0 <= i < self.slots@.len() && (#[trigger] self.slots@[i]).is_occ()
                        && self.slots@[i].key_of()@ == kv;
                assert(self.occ(i));
                assert(self.spec_contains(kv));
            }
        }
        assert(self.as_map().dom() =~= keys_of(self.slots@));
    }

    /// The handle sequence lists each live entry's handle exactly once
    /// and nothing else.
    pub proof fn lemma_handle_seq_props(self)
        requires
            self.wf(),
        ensures
            self.handle_seq().len() == self.spec_len(),
            forall|j: int|
                0 <= j < self.handle_seq().len() ==> self.resolves(#[trigger] self.handle_seq()[j]),
            forall|j1: int, j2: int|
                #![trigger self.handle_seq()[j1], self.handle_seq()[j2]]
                0 <= j1 < self.handle_seq().len() && 0 <= j2 < self.handle_seq().len() && j1 != j2
                    ==> self.handle_seq()[j1] != self.handle_seq()[j2],
            forall|h: Handle| #[trigger] self.resolves(h) ==> self.handle_seq().contains(h),
    {
        self.lemma_len_bounds();
        lemma_handles_of_props(self.slots@);
        let hs = self.handle_seq();
        assert forall|h: Handle| #[trigger] self.resolves(h) implies hs.contains(h) by {
            assert(self.slots@[h.index as int].is_occ());
            assert(hs.contains(
                Handle {
                    index: h.index as usize,
                    generation: self.slots@[h.index as int].gen_of(),
                },
            ));
        }
        assert forall|j1: int, j2: int|
            #![trigger hs[j1], hs[j2]]
            0 <= j1 < hs.len() && 0 <= j2 < hs.len() && j1 != j2 implies hs[j1] != hs[j2] by {
            if j1 < j2 {
                assert(hs[j1].index < hs[j2].index);
            } else {
                assert(hs[j2].index < hs[j1].index);
            }
        }
    }

    /// The model's domain is exactly what `spec_contains` says.
    pub proof fn lemma_dom_contains(self, kv: K::V)
        requires
            self.wf(),
        ensures
            self.as_map().dom().contains(kv) == self.spec_contains(kv),
    {
    }

    // ------------------------------------------------------------------
    // Lookup.
    // ------------------------------------------------------------------
    /// Find the handle of the live entry whose key equals `q`, if any.
    /// The result is a function of the map's contents alone, so two calls
    /// with no change in between return the same handle.
    pub fn find(&self, q: &K) -> (r: Option<Handle>)
        requires
            self.wf(),
        ensures
            match r {
                Some(h) => {
                    &&& self.spec_contains(q@)
                    &&& h == self.handle_of(q@)
                    &&& self.resolves(h)
                    &&& self.key_at(h) == q@
                    &&& self.value_at(h) == self.as_map()[q@]
                },
                None => !self.spec_contains(q@),
            },
    {
        let hash = q.key_hash();
        let nb = self.buckets.len();
        let b = (hash % (nb as u64)) as usize;
        proof {
            self.lemma_len_bounds();
            assert(nb as u64 > 0);
            assert(hash % (nb as u64) < (nb as u64));
            assert(b as int == self.bucket_index(hash));
        }
        let blen = self.buckets[b].len();
        let ghost bi = b as int;
        let mut j: usize = 0;
        while j < blen
            invariant
                self.wf(),
                0 <= bi < self.buckets@.len(),
                b as int == bi,
                blen == self.buckets@[bi]@.len(),
                0 <= j <= blen,
                hash == K::hash_of(q@),
                bi == self.bucket_index(hash),
                forall|jj: int|
                    0 <= jj < j ==> self.slots@[#[trigger] self.buckets@[bi]@[jj] as int].key_of()@
                        != q@,
            decreases blen - j,
        {
            let s = self.buckets[b][j];
            match &self.slots[s] {
                Slot::Occupied { generation, key, .. } => {
                    if q.key_eq(key) {
                        let h = Handle { index: s, generation: *generation };
                        proof {
                            assert(self.occ(s as int) && self.slots@[s as int].key_of()@ == q@);
                            assert(self.spec_contains(q@));
                            let i0 = self.slot_of(q@);
                            assert(self.occ(i0) && self.slots@[i0].key_of()@ == q@);
                            assert(i0 == s as int);
                        }
                        return Some(h);
                    }
                }
                Slot::Vacant { .. } => {
                    proof {
                        assert(false);
                    }
                }
            }
            j = j + 1;
        }
        proof {
            if self.spec_contains(q@) {
                self.lemma_len_bounds();
                let i = self.slot_of(q@);
                assert(self.occ(i) && self.slots@[i].key_of()@ == q@);
                assert(i as usize as int == i);
                assert(self.slots@[i].hash_of_slot() == hash);
                assert(self.buckets@[bi]@.contains(i as usize));
                let jj = choose|jj: int|
                    0 <= jj < self.buckets@[bi]@.len() && self.buckets@[bi]@[jj] == i as usize;
                assert(self.slots@[self.buckets@[bi]@[jj] as int].key_of()@ != q@);
                assert(false);
            }
        }
        None
    }

    /// Whether a live entry's key equals `q`.
    pub fn contains_key(&self, q: &K) -> (r: bool)
        requires
            self.wf(),
        ensures
            r == self.spec_contains(q@),
            r == self.as_map().dom().contains(q@),
    {
        proof {
            self.lemma_dom_contains(q@);
        }
        self.find(q).is_some()
    }

    // ------------------------------------------------------------------
    // Handle-based access.
    // ------------------------------------------------------------------
    /// Borrow the key that `h` resolves to; `None` if `h` is stale.
    pub fn key<'a>(&'a self, h: Handle) -> (r: Option<&'a K>)
        requires
            self.wf(),
        ensures
            match r {
                Some(k) => self.resolves(h) && *k == self.key_exec_at(h) && k@ == self.key_at(h),
                None => !self.resolves(h),
            },
    {
        if h.index < self.slots.len() {
            match &self.slots[h.index] {
                Slot::Occupied { generation, key, .. } => {
                    if *generation == h.generation {
                        Some(key)
                    } else {
                        None
                    }
                }
                Slot::Vacant { .. } => None,
            }
        } else {
            None
        }
    }

    /// When two states have the same slot count, occupancy, generations
    /// and keys (values may differ), they agree on containment, handles
    /// and retirement.
    proof fn lemma_same_shape(self, post: Self)
        requires
            self.inv_keys_unique(),
            self.slots@.len() == post.slots@.len(),
            forall|i: int|
                #![trigger post.slots@[i]]
                0 <= i < self.slots@.len() ==> {
                    &&& self.slots@[i].is_occ() == post.slots@[i].is_occ()
                    &&& self.slots@[i].gen_of() == post.slots@[i].gen_of()
                    &&& (self.slots@[i].is_occ() ==> post.slots@[i].key_of()
                        == self.slots@[i].key_of())
                },
        ensures
            forall|kv: K::V| self.spec_contains(kv) == post.spec_contains(kv),
            forall|kv: K::V|
                #[trigger] self.spec_contains(kv) ==> post.slot_of(kv) == self.slot_of(kv)
                    && post.handle_of(kv) == self.handle_of(kv),
            forall|h2: Handle| self.resolves(h2) == post.resolves(h2),
            forall|h2: Handle| self.retired(h2) == post.retired(h2),
    {
        assert forall|kv: K::V| self.spec_contains(kv) == post.spec_contains(kv) by {
            if self.spec_contains(kv) {
                let i = self.slot_of(kv);
                assert(self.occ(i) && self.slots@[i].key_of()@ == kv);
                assert(post.occ(i) && post.slots@[i].key_of()@ == kv);
            }
            if post.spec_contains(kv) {
                let i = choose|i: int| post.occ(i) && post.slots@[i].key_of()@ == kv;
                assert(self.occ(i) && self.slots@[i].key_of()@ == kv);
            }
        }
        assert forall|kv: K::V| #[trigger] self.spec_contains(kv) implies post.slot_of(kv)
            == self.slot_of(kv) && post.handle_of(kv) == self.handle_of(kv) by {
            let i_pre = self.slot_of(kv);
            assert(self.occ(i_pre) && self.slots@[i_pre].key_of()@ == kv);
            assert(post.occ(i_pre) && post.slots@[i_pre].key_of()@ == kv);
            let i_post = post.slot_of(kv);
            assert(post.occ(i_post) && post.slots@[i_post].key_of()@ == kv);
            assert(self.occ(i_post) && self.slots@[i_post].key_of()@ == kv);
            assert(i_post == i_pre);
        }
    }

    /// Two states with the same slot table agree on the whole model; only
    /// the index layout above the slots may differ.
    proof fn lemma_same_slots_same_model(self, post: Self)
        requires
            self.inv_keys_unique(),
            post.slots@ == self.slots@,
        ensures
            forall|kv: K::V| self.spec_contains(kv) == post.spec_contains(kv),
            forall|kv: K::V|
                #[trigger] self.spec_contains(kv) ==> post.handle_of(kv) == self.handle_of(kv),
            forall|h2: Handle| self.resolves(h2) == post.resolves(h2),
            forall|h2: Handle| self.retired(h2) == post.retired(h2),
            forall|h2: Handle|
                #[trigger] self.resolves(h2) ==> post.key_at(h2) == self.key_at(h2)
                    && post.key_exec_at(h2) == self.key_exec_at(h2) && post.value_at(h2)
                    == self.value_at(h2),
            post.spec_len() == self.spec_len(),
            post.handle_seq() == self.handle_seq(),
            post.as_map() == self.as_map(),
    {
        self.lemma_same_shape(post);
        assert forall|kv: K::V|
            post.as_map().dom().contains(kv) == self.as_map().dom().contains(kv)
                && (self.spec_contains(kv) ==> post.as_map()[kv] == self.as_map()[kv]) by {
            if self.spec_contains(kv) {
                assert(post.slot_of(kv) == self.slot_of(kv));
            }
        }
        assert(post.as_map() =~= self.as_map());
    }

    /// When the live entries outgrow the index, rebuild it with twice the
    /// buckets. Only the stored hashes are read: no key is re-hashed and
    /// no user code runs. The contents are untouched.
    fn maybe_grow(&mut self)
        requires
            old(self).wf(),
        ensures
            final(self).wf(),
            final(self).slots@ == old(self).slots@,
            final(self).free@ == old(self).free@,
            final(self).count == old(self).count,
    {
        let nb = self.buckets.len();
        if nb > usize::MAX / 4 || self.count < nb * 2 {
            return ;
        }
        let nb2 = nb * 2;
        let ghost pre = *old(self);
        let mut nbuckets: Vec<Vec<usize>> = Vec::new();
        let mut k: usize = 0;
        while k < nb2
            invariant
                nbuckets@.len() == k,
                0 <= k <= nb2,
                forall|b: int| 0 <= b < k ==> #[trigger] nbuckets@[b]@.len() == 0,
            decreases nb2 - k,
        {
            nbuckets.push(Vec::new());
            k = k + 1;
        }
        let n = self.slots.len();
        let mut i: usize = 0;
        while i < n
            invariant
                *self == pre,
                pre.wf(),
                nb2 >= 1,
                nbuckets@.len() == nb2,
                n == self.slots@.len(),
                0 <= i <= n,
                forall|b: int, j: int|
                    #![trigger nbuckets@[b]@[j]]
                    0 <= b < nb2 && 0 <= j < nbuckets@[b]@.len() ==> {
                        let s = nbuckets@[b]@[j];
                        &&& (s as int) < i
                        &&& self.slots@[s as int].is_occ()
                        &&& (self.slots@[s as int].hash_of_slot() as int) % (nb2 as int) == b
                    },
                forall|s: int|
                    0 <= s < i && (#[trigger] self.slots@[s]).is_occ() ==> nbuckets@[(
                    self.slots@[s].hash_of_slot() as int) % (nb2 as int)]@.contains(s as usize),
                forall|b: int, j1: int, j2: int|
                    #![trigger nbuckets@[b]@[j1], nbuckets@[b]@[j2]]
                    0 <= b < nb2 && 0 <= j1 < nbuckets@[b]@.len() && 0 <= j2
                        < nbuckets@[b]@.len() && j1 != j2 ==> nbuckets@[b]@[j1]
                        != nbuckets@[b]@[j2],
            decreases n - i,
        {
            let ghost snapshot = nbuckets@;
            match &self.slots[i] {
                Slot::Occupied { hash, .. } => {
                    let b = (*hash % (nb2 as u64)) as usize;
                    proof {
                        assert(*hash % (nb2 as u64) < (nb2 as u64));
                    }
                    let mut bv = nbuckets[b].clone();
                    proof {
                        assert forall|j: int| 0 <= j < bv@.len() implies bv@[j]
                            == snapshot[b as int]@[j] by {}
                        assert(bv@ =~= snapshot[b as int]@);
                    }
                    bv.push(i);
                    nbuckets[b] = bv;
                    proof {
                        let bi = b as int;
                        assert(nbuckets@[bi]@ =~= snapshot[bi]@.push(i));
                        assert forall|s: int|
                            0 <= s < i + 1 && (#[trigger] self.slots@[s]).is_occ() implies nbuckets@[(
                        self.slots@[s].hash_of_slot() as int) % (nb2 as int)]@.contains(s as usize) by {
                            let b2 = (self.slots@[s].hash_of_slot() as int) % (nb2 as int);
                            if s == i {
                                assert(nbuckets@[bi]@[snapshot[bi]@.len() as int] == i as usize);
                            } else {
                                assert(snapshot[b2]@.contains(s as usize));
                                let j3 = choose|j3: int|
                                    0 <= j3 < snapshot[b2]@.len() && snapshot[b2]@[j3]
                                        == s as usize;
                                assert(nbuckets@[b2]@[j3] == s as usize);
                            }
                        }
                        assert forall|b2: int, j1: int, j2: int|
                            #![trigger nbuckets@[b2]@[j1], nbuckets@[b2]@[j2]]
                            0 <= b2 < nb2 && 0 <= j1 < nbuckets@[b2]@.len() && 0 <= j2
                                < nbuckets@[b2]@.len() && j1 != j2 implies nbuckets@[b2]@[j1]
                            != nbuckets@[b2]@[j2] by {
                            if b2 == bi {
                                if j1 == snapshot[bi]@.len() as int {
                                    assert(nbuckets@[b2]@[j2] == snapshot[b2]@[j2]);
                                    assert((snapshot[b2]@[j2] as int) < i);
                                } else if j2 == snapshot[bi]@.len() as int {
                                    assert(nbuckets@[b2]@[j1] == snapshot[b2]@[j1]);
                                    assert((snapshot[b2]@[j1] as int) < i);
                                } else {
                                    assert(nbuckets@[b2]@[j1] == snapshot[b2]@[j1]);
                                    assert(nbuckets@[b2]@[j2] == snapshot[b2]@[j2]);
                                }
                            }
                        }
                    }
                }
                Slot::Vacant { .. } => {}
            }
            i = i + 1;
        }
        self.buckets = nbuckets;
        proof {
            let post = *self;
            assert(post.inv_index_sound());
            assert forall|i2: int| #[trigger] post.occ(i2) implies post.buckets@[post.bucket_index(
                post.slots@[i2].hash_of_slot(),
            )]@.contains(i2 as usize) by {
                assert(post.slots@[i2].is_occ());
            }
            assert(post.inv_index_complete());
            assert(post.inv_index_nodup());
            assert forall|i2: int, j2: int|
                #![trigger post.occ(i2), post.occ(j2)]
                post.occ(i2) && post.occ(j2) && i2 != j2 implies post.slots@[i2].key_of()@
                != post.slots@[j2].key_of()@ by {
                assert(pre.occ(i2) && pre.occ(j2));
            }
            assert forall|i2: int| #[trigger] post.occ(i2) implies post.slots@[i2].hash_of_slot()
                == K::hash_of(post.slots@[i2].key_of()@) by {
                assert(pre.occ(i2));
            }
            assert(post.wf());
        }
    }

    // ------------------------------------------------------------------
    // In-place update of one entry's value.
    // ------------------------------------------------------------------
    /// Rewrite the value of the entry that `h` resolves to, through `f`,
    /// which receives the owned value and returns the new value together
    /// with a result that is handed back to the caller. `None` (and no
    /// call of `f`) if `h` is stale.
    pub fn map_value<A, F: FnOnce(V) -> (V, A)>(&mut self, h: Handle, f: F) -> (r: Option<A>)
        requires
            old(self).wf(),
            old(self).resolves(h) ==> call_requires(f, (old(self).value_at(h),)),
        ensures
            final(self).wf(),
            match r {
                Some(a) => {
                    &&& old(self).resolves(h)
                    &&& call_ensures(f, (old(self).value_at(h),), (final(self).value_at(h), a))
                    &&& final(self).resolves(h)
                    &&& final(self).key_at(h) == old(self).key_at(h)
                    &&& final(self).key_exec_at(h) == old(self).key_exec_at(h)
                    &&& old(self).entries_preserved_except(*final(self), h)
                    &&& old(self).no_new_handles_except(*final(self), h)
                    &&& old(self).handles_stable(*final(self))
                    &&& old(self).retired_preserved(*final(self))
                    &&& final(self).as_map() == old(self).as_map().insert(
                        old(self).key_at(h),
                        final(self).value_at(h),
                    )
                    &&& final(self).spec_len() == old(self).spec_len()
                    &&& final(self).handle_seq() == old(self).handle_seq()
                },
                None => !old(self).resolves(h) && *final(self) == *old(self),
            },
    {
        proof {
            old(self).lemma_len_bounds();
        }
        if h.index >= self.slots.len() {
            return None;
        }
        let live = match &self.slots[h.index] {
            Slot::Occupied { generation, .. } => *generation == h.generation,
            Slot::Vacant { .. } => false,
        };
        if !live {
            return None;
        }
        let ghost pre = *old(self);
        let ghost i = h.index as int;
        self.slots.push(Slot::Vacant { generation: 0 });
        let taken = self.slots.swap_remove(h.index);
        proof {
            assert(taken == pre.slots@[i]);
            assert(self.slots@ =~= pre.slots@.update(i, Slot::Vacant { generation: 0 }));
        }
        match taken {
            Slot::Occupied { generation, hash, key, value } => {
                let (value2, a) = f(value);
                self.slots[h.index] = Slot::Occupied { generation, hash, key, value: value2 };
                proof {
                    let post = *self;
                    let slot2 = Slot::Occupied { generation, hash, key, value: value2 };
                    assert(post.slots@ =~= pre.slots@.update(i, slot2));
                    lemma_occ_count_update(pre.slots@, i, slot2);
                    assert(post.inv_index_sound());
                    assert forall|i2: int| #[trigger] post.occ(i2) implies post.buckets@[post.bucket_index(
                        post.slots@[i2].hash_of_slot(),
                    )]@.contains(i2 as usize) by {
                        assert(pre.occ(i2));
                        assert(post.slots@[i2].hash_of_slot() == pre.slots@[i2].hash_of_slot());
                    }
                    assert(post.inv_index_complete());
                    assert(post.inv_index_nodup());
                    assert forall|i2: int, j2: int|
                        #![trigger post.occ(i2), post.occ(j2)]
                        post.occ(i2) && post.occ(j2) && i2 != j2 implies post.slots@[i2].key_of()@
                        != post.slots@[j2].key_of()@ by {
                        assert(pre.occ(i2) && pre.occ(j2));
                        assert(post.slots@[i2].key_of() == pre.slots@[i2].key_of());
                        assert(post.slots@[j2].key_of() == pre.slots@[j2].key_of());
                    }
                    assert(post.inv_keys_unique());
                    assert forall|i2: int| #[trigger] post.occ(i2) implies post.slots@[i2].hash_of_slot()
                        == K::hash_of(post.slots@[i2].key_of()@) by {
                        assert(pre.occ(i2));
                        assert(post.slots@[i2].key_of() == pre.slots@[i2].key_of());
                    }
                    assert(post.inv_hash_stored());
                    assert(post.inv_free());
                    assert(post.count == occ_count(post.slots@));
                    assert(post.wf());
                    pre.lemma_same_shape(post);
                    let k0 = pre.key_at(h);
                    pre.lemma_resolves_contains(h);
                    assert forall|h2: Handle| #[trigger] pre.resolves(h2) && h2 != h implies
                        post.resolves(h2) && post.key_at(h2) == pre.key_at(h2)
                        && post.key_exec_at(h2) == pre.key_exec_at(h2) && post.value_at(h2)
                        == pre.value_at(h2) by {
                        if h2.index as int == i {
                            assert(h2.generation == generation);
                            assert(h2 == h);
                        }
                    }
                    assert forall|kv: K::V|
                        post.as_map().dom().contains(kv) implies #[trigger] pre.as_map().insert(
                        k0,
                        value2,
                    ).dom().contains(kv) && post.as_map()[kv] == pre.as_map().insert(
                        k0,
                        value2,
                    )[kv] by {
                        if kv == k0 {
                            assert(post.occ(i) && post.slots@[i].key_of()@ == kv);
                            assert(post.slot_of(kv) == i) by {
                                let i2 = post.slot_of(kv);
                                assert(post.occ(i2) && post.slots@[i2].key_of()@ == kv);
                                assert(pre.occ(i2) && pre.slots@[i2].key_of()@ == kv);
                                assert(pre.occ(i) && pre.slots@[i].key_of()@ == kv);
                            }
                        } else {
                            assert(pre.spec_contains(kv));
                            let i2 = pre.slot_of(kv);
                            assert(pre.occ(i2) && pre.slots@[i2].key_of()@ == kv);
                            assert(i2 != i);
                            assert(post.slot_of(kv) == i2);
                            assert(post.as_map()[kv] == pre.as_map()[kv]);
                        }
                    }
                    assert forall|kv: K::V|
                        pre.as_map().insert(k0, value2).dom().contains(kv) implies post.as_map().dom().contains(
                        kv,
                    ) by {
                        if kv == k0 {
                            assert(post.spec_contains(k0));
                        } else {
                            assert(pre.spec_contains(kv));
                            assert(post.spec_contains(kv));
                        }
                    }
                    assert(post.as_map() =~= pre.as_map().insert(k0, value2));
                    lemma_handles_of_same(pre.slots@, post.slots@);
                }
                Some(a)
            }
            Slot::Vacant { .. } => {
                proof {
                    assert(false);
                }
                None
            }
        }
    }

    /// Position of `target` in bucket `b` of the index.
    fn bucket_position(&self, b: usize, target: usize) -> (r: usize)
        requires
            b < self.buckets@.len(),
            self.buckets@[b as int]@.contains(target),
        ensures
            r < self.buckets@[b as int]@.len(),
            self.buckets@[b as int]@[r as int] == target,
    {
        let blen = self.buckets[b].len();
        let mut j: usize = 0;
        while j < blen
            invariant
                b < self.buckets@.len(),
                self.buckets@[b as int]@.contains(target),
                blen == self.buckets@[b as int]@.len(),
                0 <= j <= blen,
                forall|jj: int| 0 <= jj < j ==> self.buckets@[b as int]@[jj] != target,
            decreases blen - j,
        {
            if self.buckets[b][j] == target {
                return j;
            }
            j = j + 1;
        }
        proof {
            let jj = choose|jj: int|
                0 <= jj < self.buckets@[b as int]@.len() && self.buckets@[b as int]@[jj] == target;
            assert(false);
        }
        vstd::pervasive::unreached()
    }

    // ------------------------------------------------------------------
    // Insertion.
    // ------------------------------------------------------------------
    /// Store `{key, value, hash}` in a slot: a reused vacant slot with its
    /// generation bumped, or a fresh one. The index is not yet updated, so
    /// the caller must register the slot before the map is well-formed
    /// again. A vacant slot whose generation is exhausted is left vacant
    /// forever rather than reused.
    fn allocate_slot(&mut self, hash: u64, key: K, value: V) -> (h: Handle)
        requires
            old(self).wf(),
        ensures
            final(self).buckets@ == old(self).buckets@,
            final(self).free@.len() <= old(self).free@.len(),
            final(self).count == old(self).count,
            final(self).slots@.len() >= old(self).slots@.len(),
            h.index < final(self).slots@.len(),
            final(self).slots@[h.index as int] == (Slot::Occupied {
                generation: h.generation,
                hash,
                key,
                value,
            }),
            forall|i2: int|
                0 <= i2 < final(self).slots@.len() && i2 != h.index ==> (0 <= i2 < old(
                    self,
                ).slots@.len() && #[trigger] final(self).slots@[i2] == old(self).slots@[i2]),
            !old(self).occ(h.index as int),
            h.index < old(self).slots@.len() ==> old(self).slots@[h.index as int].gen_of()
                < h.generation,
            occ_count(final(self).slots@) == occ_count(old(self).slots@) + 1,
            final(self).inv_free(),
    {
        let ghost pre = *old(self);
        let reuse: Option<usize> = match self.free.pop() {
            Some(i2) => {
                proof {
                    assert(pre.free@[pre.free@.len() - 1] == i2);
                    assert(!pre.slots@[i2 as int].is_occ());
                }
                Some(i2)
            }
            None => None,
        };
        match reuse {
            Some(i2) => {
                let g = match &self.slots[i2] {
                    Slot::Vacant { generation } => *generation,
                    Slot::Occupied { .. } => {
                        proof {
                            assert(false);
                        }
                        0u64
                    }
                };
                if g < u64::MAX {
                    let slot2 = Slot::Occupied { generation: g + 1, hash, key, value };
                    proof {
                        lemma_occ_count_update(pre.slots@, i2 as int, slot2);
                    }
                    self.slots[i2] = slot2;
                    proof {
                        assert(self.slots@ =~= pre.slots@.update(i2 as int, slot2));
                        assert(self.free@ =~= pre.free@.drop_last());
                        assert forall|j: int|
                            0 <= j < self.free@.len() implies (#[trigger] self.free@[j]
                                < self.slots@.len() && !self.slots@[self.free@[j] as int].is_occ()) by {
                            assert(self.free@[j] == pre.free@[j]);
                            assert(pre.free@[j] != i2);
                        }
                    }
                    Handle { index: i2, generation: g + 1 }
                } else {
                    let i3 = self.slots.len();
                    let slot2 = Slot::Occupied { generation: 0, hash, key, value };
                    proof {
                        lemma_occ_count_push(pre.slots@, slot2);
                    }
                    self.slots.push(slot2);
                    proof {
                        assert(self.free@ =~= pre.free@.drop_last());
                        assert forall|j: int|
                            0 <= j < self.free@.len() implies (#[trigger] self.free@[j]
                                < self.slots@.len() && !self.slots@[self.free@[j] as int].is_occ()) by {
                            assert(self.free@[j] == pre.free@[j]);
                        }
                    }
                    Handle { index: i3, generation: 0 }
                }
            }
            None => {
                let i3 = self.slots.len();
                let slot2 = Slot::Occupied { generation: 0, hash, key, value };
                proof {
                    lemma_occ_count_push(pre.slots@, slot2);
                }
                self.slots.push(slot2);
                Handle { index: i3, generation: 0 }
            }
        }
    }

    /// Insert a new entry, or refuse a key that is already present,
    /// leaving the map unchanged. A successful insert hands back a fresh
    /// handle: one that did not resolve before and now resolves to the
    /// entry.
    pub fn insert(&mut self, key: K, value: V) -> (r: Result<Handle, InsertError>)
        requires
            old(self).wf(),
            old(self).spec_len() < usize::MAX,
        ensures
            final(self).wf(),
            match r {
                Ok(h) => {
                    &&& !old(self).spec_contains(key@)
                    &&& !old(self).resolves(h)
                    &&& final(self).resolves(h)
                    &&& final(self).spec_contains(key@)
                    &&& final(self).handle_of(key@) == h
                    &&& final(self).key_at(h) == key@
                    &&& final(self).key_exec_at(h) == key
                    &&& final(self).value_at(h) == value
                    &&& old(self).entries_preserved_except(*final(self), h)
                    &&& old(self).no_new_handles_except(*final(self), h)
                    &&& old(self).handles_stable(*final(self))
                    &&& old(self).retired_preserved(*final(self))
                    &&& final(self).as_map() == old(self).as_map().insert(key@, value)
                    &&& final(self).spec_len() == old(self).spec_len() + 1
                },
                Err(e) => {
                    &&& e == InsertError::DuplicateKey
                    &&& old(self).spec_contains(key@)
                    &&& *final(self) == *old(self)
                },
            },
    {
        if self.find(&key).is_some() {
            return Err(InsertError::DuplicateKey);
        }
        let ghost orig = *old(self);
        self.maybe_grow();
        let ghost pre = *self;
        proof {
            orig.lemma_same_slots_same_model(pre);
            assert(pre.wf());
        }
        let hash = key.key_hash();
        let h = self.allocate_slot(hash, key, value);
        let ghost mid = *self;
        let ghost i = h.index as int;
        let nb = self.buckets.len();
        let b = (hash % (nb as u64)) as usize;
        proof {
            pre.lemma_len_bounds();
            assert(hash % (nb as u64) < (nb as u64));
            assert(b as int == mid.bucket_index(hash));
        }
        let mut bv = self.buckets[b].clone();
        let ghost bold = pre.buckets@[b as int]@;
        proof {
            assert forall|k: int| 0 <= k < bv@.len() implies bv@[k] == bold[k] by {}
            assert(bv@ =~= bold);
        }
        bv.push(h.index);
        self.buckets[b] = bv;
        proof {
            assert(self.count == occ_count(pre.slots@));
            assert(occ_count(mid.slots@) == occ_count(pre.slots@) + 1);
        }
        self.count = self.count + 1;
        proof {
            let post = *self;
            let bnew = post.buckets@[b as int]@;
            assert(bnew =~= bold.push(h.index));
            assert(post.buckets@ =~= pre.buckets@.update(b as int, post.buckets@[b as int]));
            // No old index entry names the new slot: every old entry
            // points at a slot that was occupied, and slot i was not.
            assert forall|b2: int, j2: int|
                #![trigger pre.buckets@[b2]@[j2]]
                0 <= b2 < pre.buckets@.len() && 0 <= j2 < pre.buckets@[b2]@.len() implies pre.buckets@[b2]@[j2]
                != h.index by {
                assert(pre.occ(pre.buckets@[b2]@[j2] as int));
            }
            // Soundness.
            assert forall|b2: int, j2: int|
                #![trigger post.buckets@[b2]@[j2]]
                0 <= b2 < post.buckets@.len() && 0 <= j2 < post.buckets@[b2]@.len() implies {
                let s = post.buckets@[b2]@[j2];
                &&& s < post.slots@.len()
                &&& post.slots@[s as int].is_occ()
                &&& post.bucket_index(post.slots@[s as int].hash_of_slot()) == b2
            } by {
                if b2 == b as int && j2 == bnew.len() - 1 {
                    assert(post.buckets@[b2]@[j2] == h.index);
                } else {
                    assert(post.buckets@[b2]@[j2] == pre.buckets@[b2]@[j2]);
                    assert(pre.buckets@[b2]@[j2] != h.index);
                }
            }
            assert(post.inv_index_sound());
            // Completeness.
            assert forall|i2: int| #[trigger] post.occ(i2) implies post.buckets@[post.bucket_index(
                post.slots@[i2].hash_of_slot(),
            )]@.contains(i2 as usize) by {
                if i2 == i {
                    assert(bnew[bnew.len() - 1] == h.index);
                } else {
                    assert(pre.occ(i2));
                    let b2 = pre.bucket_index(pre.slots@[i2].hash_of_slot());
                    assert(pre.buckets@[b2]@.contains(i2 as usize));
                    let j3 = choose|j3: int| 0 <= j3 < pre.buckets@[b2]@.len() && pre.buckets@[b2]@[j3] == i2 as usize;
                    assert(post.buckets@[b2]@[j3] == i2 as usize);
                }
            }
            assert(post.inv_index_complete());
            // No duplicates: the new entry differs from every old one.
            assert forall|b2: int, j1: int, j2: int|
                #![trigger post.buckets@[b2]@[j1], post.buckets@[b2]@[j2]]
                0 <= b2 < post.buckets@.len() && 0 <= j1 < post.buckets@[b2]@.len() && 0 <= j2
                    < post.buckets@[b2]@.len() && j1 != j2 implies post.buckets@[b2]@[j1]
                != post.buckets@[b2]@[j2] by {
                if b2 == b as int {
                    if j1 == bnew.len() - 1 {
                        assert(post.buckets@[b2]@[j2] == pre.buckets@[b2]@[j2]);
                    } else if j2 == bnew.len() - 1 {
                        assert(post.buckets@[b2]@[j1] == pre.buckets@[b2]@[j1]);
                    } else {
                        assert(post.buckets@[b2]@[j1] == pre.buckets@[b2]@[j1]);
                        assert(post.buckets@[b2]@[j2] == pre.buckets@[b2]@[j2]);
                    }
                }
            }
            assert(post.inv_index_nodup());
            // The probe found no equal key, so no live slot holds one.
            assert forall|i2: int| pre.occ(i2) implies pre.slots@[i2].key_of()@ != key@ by {
                if pre.slots@[i2].key_of()@ == key@ {
                    assert(pre.spec_contains(key@));
                }
            }
            assert forall|i2: int, j2: int|
                #![trigger post.occ(i2), post.occ(j2)]
                post.occ(i2) && post.occ(j2) && i2 != j2 implies post.slots@[i2].key_of()@
                != post.slots@[j2].key_of()@ by {
                if i2 != i && j2 != i {
                    assert(pre.occ(i2) && pre.occ(j2));
                } else if i2 == i {
                    assert(pre.occ(j2));
                    assert(pre.slots@[j2].key_of()@ != key@);
                } else {
                    assert(pre.occ(i2));
                    assert(pre.slots@[i2].key_of()@ != key@);
                }
            }
            assert(post.inv_keys_unique());
            assert forall|i2: int| #[trigger] post.occ(i2) implies post.slots@[i2].hash_of_slot()
                == K::hash_of(post.slots@[i2].key_of()@) by {
                if i2 != i {
                    assert(pre.occ(i2));
                    assert(post.slots@[i2] == pre.slots@[i2]);
                }
            }
            assert(post.inv_hash_stored());
            assert(post.inv_free()) by {
                assert(mid.inv_free());
                assert(post.slots@ == mid.slots@ && post.free@ == mid.free@);
            }
            assert(post.count == occ_count(post.slots@));
            assert(post.wf());
            // Freshness of the handle.
            assert(!pre.resolves(h));
            assert(post.resolves(h));
            // The model: one key appears, everything else stays.
            assert(post.spec_contains(key@)) by {
                assert(post.occ(i) && post.slots@[i].key_of()@ == key@);
            }
            assert(post.slot_of(key@) == i) by {
                let i2 = post.slot_of(key@);
                assert(post.occ(i2) && post.slots@[i2].key_of()@ == key@);
            }
            assert(post.handle_of(key@) == h);
            assert forall|kv: K::V| post.spec_contains(kv) && kv != key@ implies
                pre.spec_contains(kv) && post.slot_of(kv) == pre.slot_of(kv) by {
                let i2 = choose|i2: int| post.occ(i2) && post.slots@[i2].key_of()@ == kv;
                assert(i2 != i);
                assert(pre.occ(i2) && pre.slots@[i2].key_of()@ == kv);
                let i3 = pre.slot_of(kv);
                assert(pre.occ(i3) && pre.slots@[i3].key_of()@ == kv);
                let i4 = post.slot_of(kv);
                assert(post.occ(i4) && post.slots@[i4].key_of()@ == kv);
                assert(i4 != i);
                assert(pre.occ(i4) && pre.slots@[i4].key_of()@ == kv);
                assert(i4 == i3);
                assert(post.slot_of(kv) == pre.slot_of(kv)) by {
                    assert(post.occ(i3) && post.slots@[i3].key_of()@ == kv);
                }
            }
            assert forall|kv: K::V| pre.spec_contains(kv) implies post.spec_contains(kv)
                && kv != key@ by {
                let i2 = pre.slot_of(kv);
                assert(pre.occ(i2) && pre.slots@[i2].key_of()@ == kv);
                assert(pre.slots@[i2].key_of()@ != key@);
                assert(post.occ(i2) && post.slots@[i2].key_of()@ == kv);
            }
            // Old handles are untouched.
            assert forall|h2: Handle| #[trigger] pre.resolves(h2) && h2 != h implies
                post.resolves(h2) && post.key_at(h2) == pre.key_at(h2) && post.key_exec_at(h2)
                == pre.key_exec_at(h2) && post.value_at(h2) == pre.value_at(h2) by {
                assert(h2.index as int != i);
            }
            assert forall|h2: Handle| #[trigger] post.resolves(h2) && h2 != h implies pre.resolves(
                h2,
            ) by {
                if h2.index as int == i {
                    assert(h2.generation == h.generation);
                    assert(h2 == h);
                }
            }
            assert forall|h2: Handle| #[trigger] pre.retired(h2) implies post.retired(h2) by {
                if h2.index as int == i {
                    assert(i < pre.slots@.len());
                    assert(pre.slots@[i].gen_of() < h.generation);
                }
            }
            assert(pre.handles_stable(post)) by {
                assert forall|kv: K::V|
                    pre.spec_contains(kv) && post.spec_contains(kv) implies #[trigger] post.handle_of(
                    kv,
                ) == pre.handle_of(kv) by {
                    assert(kv != key@);
                    assert(post.slot_of(kv) == pre.slot_of(kv));
                    assert(post.slots@[pre.slot_of(kv)] == pre.slots@[pre.slot_of(kv)]);
                }
            }
            // The model map gains exactly this binding.
            assert forall|kv: K::V|
                post.as_map().dom().contains(kv) implies #[trigger] pre.as_map().insert(
                key@,
                value,
            ).dom().contains(kv) && post.as_map()[kv] == pre.as_map().insert(key@, value)[kv] by {
                if kv != key@ {
                    assert(pre.spec_contains(kv));
                    assert(post.slot_of(kv) == pre.slot_of(kv));
                    assert(post.slots@[pre.slot_of(kv)] == pre.slots@[pre.slot_of(kv)]);
                }
            }
            assert forall|kv: K::V|
                pre.as_map().insert(key@, value).dom().contains(kv) implies post.as_map().dom().contains(
                kv,
            ) by {
                if kv != key@ {
                    assert(pre.spec_contains(kv));
                    assert(post.spec_contains(kv));
                }
            }
            assert(post.as_map() =~= pre.as_map().insert(key@, value));
        }
        Ok(h)
    }

    /// Insert with a value built only on success: on a duplicate key the
    /// constructor is never run and the map is unchanged. The laziness is
    /// visible to callers whose constructor has effects.
    pub fn insert_with<F: FnOnce() -> V>(&mut self, key: K, f: F) -> (r: Result<
        Handle,
        InsertError,
    >)
        requires
            old(self).wf(),
            old(self).spec_len() < usize::MAX,
            call_requires(f, ()),
        ensures
            final(self).wf(),
            match r {
                Ok(h) => {
                    &&& !old(self).spec_contains(key@)
                    &&& !old(self).resolves(h)
                    &&& final(self).resolves(h)
                    &&& final(self).spec_contains(key@)
                    &&& final(self).handle_of(key@) == h
                    &&& final(self).key_at(h) == key@
                    &&& final(self).key_exec_at(h) == key
                    &&& call_ensures(f, (), final(self).value_at(h))
                    &&& old(self).entries_preserved_except(*final(self), h)
                    &&& old(self).no_new_handles_except(*final(self), h)
                    &&& old(self).handles_stable(*final(self))
                    &&& old(self).retired_preserved(*final(self))
                    &&& final(self).as_map() == old(self).as_map().insert(
                        key@,
                        final(self).value_at(h),
                    )
                    &&& final(self).spec_len() == old(self).spec_len() + 1
                },
                Err(e) => {
                    &&& e == InsertError::DuplicateKey
                    &&& old(self).spec_contains(key@)
                    &&& *final(self) == *old(self)
                },
            },
    {
        if self.find(&key).is_some() {
            return Err(InsertError::DuplicateKey);
        }
        let value = f();
        let r = self.insert(key, value);
        match r {
            Ok(h) => Ok(h),
            Err(e) => {
                proof {
                    assert(false);
                }
                Err(e)
            }
        }
    }

    // ------------------------------------------------------------------
    // Removal.
    // ------------------------------------------------------------------
    /// Remove the entry that `handle` resolves to, returning its key and
    /// value; `None` (and no change) if `handle` is stale. The index entry
    /// is unlinked before the slot is vacated, so when the caller receives
    /// the key and value — and possibly runs arbitrary code while dropping
    /// them — the map is already consistent again.
    pub fn remove(&mut self, handle: Handle) -> (r: Option<(K, V)>)
        requires
            old(self).wf(),
        ensures
            final(self).wf(),
            match r {
                Some(pair) => {
                    &&& old(self).resolves(handle)
                    &&& pair.0 == old(self).key_exec_at(handle)
                    &&& pair.0@ == old(self).key_at(handle)
                    &&& pair.1 == old(self).value_at(handle)
                    &&& !final(self).resolves(handle)
                    &&& final(self).retired(handle)
                    &&& !final(self).spec_contains(old(self).key_at(handle))
                    &&& old(self).entries_preserved_except(*final(self), handle)
                    &&& old(self).no_new_handles_except(*final(self), handle)
                    &&& old(self).handles_stable(*final(self))
                    &&& old(self).retired_preserved(*final(self))
                    &&& final(self).as_map() == old(self).as_map().remove(old(self).key_at(handle))
                    &&& final(self).spec_len() == old(self).spec_len() - 1
                },
                None => !old(self).resolves(handle) && *final(self) == *old(self),
            },
    {
        proof {
            old(self).lemma_len_bounds();
        }
        if handle.index >= self.slots.len() {
            return None;
        }
        let (live, hash) = match &self.slots[handle.index] {
            Slot::Occupied { generation, hash, .. } => (*generation == handle.generation, *hash),
            Slot::Vacant { .. } => (false, 0u64),
        };
        if !live {
            return None;
        }
        let ghost pre = *old(self);
        let ghost i = handle.index as int;
        proof {
            assert(pre.occ(i));
            assert(pre.slots@[i].hash_of_slot() == hash);
        }
        // Unlink the index entry first.
        let nb = self.buckets.len();
        let b = (hash % (nb as u64)) as usize;
        proof {
            assert(hash % (nb as u64) < (nb as u64));
            assert(b as int == pre.bucket_index(hash));
            assert(pre.buckets@[b as int]@.contains(handle.index));
        }
        let p = self.bucket_position(b, handle.index);
        let mut bv = self.buckets[b].clone();
        proof {
            assert forall|k: int| 0 <= k < bv@.len() implies bv@[k] == pre.buckets@[b as int]@[k] by {}
            assert(bv@ =~= pre.buckets@[b as int]@);
        }
        let _ = bv.swap_remove(p);
        self.buckets[b] = bv;
        // Now vacate the slot; the index no longer points at it.
        self.slots.push(Slot::Vacant { generation: 0 });
        let taken = self.slots.swap_remove(handle.index);
        proof {
            assert(taken == pre.slots@[i]);
        }
        match taken {
            Slot::Occupied { generation, key, value, .. } => {
                self.slots[handle.index] = Slot::Vacant { generation };
                proof {
                    assert(self.slots@ =~= pre.slots@.update(i, Slot::Vacant { generation }));
                    lemma_occ_count_update(pre.slots@, i, Slot::Vacant { generation });
                    assert(self.count == occ_count(pre.slots@));
                    assert(occ_count(self.slots@) == occ_count(pre.slots@) - 1);
                }
                self.count = self.count - 1;
                self.free.push(handle.index);
                proof {
                    let post = *self;
                    let k0 = pre.key_at(handle);
                    pre.lemma_resolves_contains(handle);
                    let bold = pre.buckets@[b as int]@;
                    let bnew = post.buckets@[b as int]@;
                    assert(bnew =~= bold.update(p as int, bold.last()).drop_last());
                    // Each surviving index entry is an old one, other than i.
                    assert forall|j2: int| #![trigger bnew[j2]] 0 <= j2 < bnew.len() implies exists|j3: int|
                        0 <= j3 < bold.len() && (#[trigger] bold[j3]) == bnew[j2] && bold[j3]
                            != handle.index by {
                        if j2 == p as int {
                            assert(bold[bold.len() - 1] == bnew[j2]);
                            assert(bold.len() - 1 != p as int ==> bold[bold.len() - 1]
                                != handle.index);
                        } else {
                            assert(bold[j2] == bnew[j2]);
                            assert(bold[j2] != handle.index);
                        }
                    }
                    // Soundness of the index.
                    assert forall|b2: int, j2: int|
                        #![trigger post.buckets@[b2]@[j2]]
                        0 <= b2 < post.buckets@.len() && 0 <= j2 < post.buckets@[b2]@.len() implies {
                        let s = post.buckets@[b2]@[j2];
                        &&& s < post.slots@.len()
                        &&& post.slots@[s as int].is_occ()
                        &&& post.bucket_index(post.slots@[s as int].hash_of_slot()) == b2
                    } by {
                        if b2 == b as int {
                            let j3 = choose|j3: int|
                                0 <= j3 < bold.len() && bold[j3] == post.buckets@[b2]@[j2]
                                    && bold[j3] != handle.index;
                            assert(pre.buckets@[b2]@[j3] == post.buckets@[b2]@[j2]);
                        } else {
                            assert(pre.buckets@[b2]@[j2] == post.buckets@[b2]@[j2]);
                        }
                    }
                    assert(post.inv_index_sound());
                    // Completeness: every remaining live slot is still indexed.
                    assert forall|i2: int| #[trigger] post.occ(i2) implies post.buckets@[post.bucket_index(
                        post.slots@[i2].hash_of_slot(),
                    )]@.contains(i2 as usize) by {
                        assert(i2 != i);
                        assert(pre.occ(i2));
                        let b2 = pre.bucket_index(pre.slots@[i2].hash_of_slot());
                        assert(pre.buckets@[b2]@.contains(i2 as usize));
                        if b2 == b as int {
                            let j3 = choose|j3: int|
                                0 <= j3 < bold.len() && bold[j3] == i2 as usize;
                            assert(j3 != p as int);
                            if j3 == bold.len() - 1 {
                                assert(p as int != bold.len() - 1);
                                assert(bnew[p as int] == i2 as usize);
                            } else {
                                assert(bnew[j3] == i2 as usize);
                            }
                        }
                    }
                    assert(post.inv_index_complete());
                    // No duplicates in the shrunk bucket.
                    assert forall|b2: int, j1: int, j2: int|
                        #![trigger post.buckets@[b2]@[j1], post.buckets@[b2]@[j2]]
                        0 <= b2 < post.buckets@.len() && 0 <= j1 < post.buckets@[b2]@.len() && 0
                            <= j2 < post.buckets@[b2]@.len() && j1 != j2 implies post.buckets@[b2]@[j1]
                        != post.buckets@[b2]@[j2] by {
                        if b2 == b as int {
                            let m1 = if j1 == p as int {
                                bold.len() - 1
                            } else {
                                j1
                            };
                            let m2 = if j2 == p as int {
                                bold.len() - 1
                            } else {
                                j2
                            };
                            assert(bnew[j1] == bold[m1] && bnew[j2] == bold[m2]);
                            assert(m1 != m2);
                        }
                    }
                    assert(post.inv_index_nodup());
                    assert forall|i2: int, j2: int|
                        #![trigger post.occ(i2), post.occ(j2)]
                        post.occ(i2) && post.occ(j2) && i2 != j2 implies post.slots@[i2].key_of()@
                        != post.slots@[j2].key_of()@ by {
                        assert(pre.occ(i2) && pre.occ(j2));
                        assert(post.slots@[i2].key_of() == pre.slots@[i2].key_of());
                        assert(post.slots@[j2].key_of() == pre.slots@[j2].key_of());
                    }
                    assert(post.inv_keys_unique());
                    assert forall|i2: int| #[trigger] post.occ(i2) implies post.slots@[i2].hash_of_slot()
                        == K::hash_of(post.slots@[i2].key_of()@) by {
                        assert(pre.occ(i2));
                        assert(post.slots@[i2] == pre.slots@[i2]);
                    }
                    assert(post.inv_hash_stored());
                    // Free list: the vacated slot was occupied, so it was
                    // not listed before.
                    assert forall|j2: int|
                        0 <= j2 < post.free@.len() implies (#[trigger] post.free@[j2]
                            < post.slots@.len() && !post.slots@[post.free@[j2] as int].is_occ()) by {
                        if j2 < pre.free@.len() {
                            assert(pre.free@[j2] < pre.slots@.len());
                            assert(!pre.slots@[pre.free@[j2] as int].is_occ());
                        } else {
                            assert(post.free@[j2] == handle.index);
                        }
                    }
                    assert forall|j1: int, j2: int|
                        #![trigger post.free@[j1], post.free@[j2]]
                        0 <= j1 < post.free@.len() && 0 <= j2 < post.free@.len() && j1
                            != j2 implies post.free@[j1] != post.free@[j2] by {
                        if j1 == pre.free@.len() as int {
                            assert(!pre.slots@[pre.free@[j2] as int].is_occ());
                        } else if j2 == pre.free@.len() as int {
                            assert(!pre.slots@[pre.free@[j1] as int].is_occ());
                        }
                    }
                    assert(post.inv_free());
                    assert(post.wf());
                    // The model: the key is gone, everything else stays.
                    assert forall|kv: K::V| post.spec_contains(kv) implies pre.spec_contains(kv)
                        && kv != k0 by {
                        let i2 = choose|i2: int| post.occ(i2) && post.slots@[i2].key_of()@ == kv;
                        assert(i2 != i);
                        assert(pre.occ(i2) && pre.slots@[i2].key_of()@ == kv);
                        assert(pre.slot_of(kv) == i2) by {
                            let i3 = pre.slot_of(kv);
                            assert(pre.occ(i3) && pre.slots@[i3].key_of()@ == kv);
                        }
                        assert(kv != k0) by {
                            if kv == k0 {
                                assert(pre.occ(i) && pre.slots@[i].key_of()@ == k0);
                                assert(i2 == i);
                            }
                        }
                    }
                    assert forall|kv: K::V| pre.spec_contains(kv) && kv != k0 implies
                        post.spec_contains(kv) && post.slot_of(kv) == pre.slot_of(kv) by {
                        let i2 = pre.slot_of(kv);
                        assert(pre.occ(i2) && pre.slots@[i2].key_of()@ == kv);
                        assert(i2 != i) by {
                            if i2 == i {
                                assert(kv == k0);
                            }
                        }
                        assert(post.occ(i2) && post.slots@[i2].key_of()@ == kv);
                        let i3 = post.slot_of(kv);
                        assert(post.occ(i3) && post.slots@[i3].key_of()@ == kv);
                        assert(pre.occ(i3) && pre.slots@[i3].key_of()@ == kv);
                        assert(i3 == i2);
                    }
                    assert(!post.spec_contains(k0));
                    assert forall|h2: Handle| #[trigger] pre.resolves(h2) && h2 != handle implies
                        post.resolves(h2) && post.key_at(h2) == pre.key_at(h2)
                        && post.key_exec_at(h2) == pre.key_exec_at(h2) && post.value_at(h2)
                        == pre.value_at(h2) by {
                        if h2.index as int == i {
                            assert(h2.generation == generation);
                            assert(h2 == handle);
                        }
                    }
                    assert forall|h2: Handle| #[trigger] pre.retired(h2) implies post.retired(
                        h2,
                    ) by {
                        if h2.index as int == i {
                            assert(pre.slots@[i].gen_of() == generation);
                        }
                    }
                    assert forall|kv: K::V|
                        pre.as_map().remove(k0).dom().contains(kv) implies post.as_map().dom().contains(
                        kv,
                    ) && post.as_map()[kv] == pre.as_map().remove(k0)[kv] by {
                        assert(pre.spec_contains(kv) && kv != k0);
                        assert(post.spec_contains(kv));
                        assert(post.slot_of(kv) == pre.slot_of(kv));
                    }
                    assert forall|kv: K::V|
                        post.as_map().dom().contains(kv) implies pre.as_map().remove(
                        k0,
                    ).dom().contains(kv) by {
                        assert(pre.spec_contains(kv) && kv != k0);
                    }
                    assert(post.as_map() =~= pre.as_map().remove(k0));
                }
                Some((key, value))
            }
            Slot::Vacant { .. } => {
                proof {
                    assert(false);
                }
                None
            }
        }
    }

    /// Replace the value of the entry that `h` resolves to, returning the
    /// previous value; `None` if `h` is stale.
    pub fn set_value(&mut self, h: Handle, value: V) -> (r: Option<V>)
        requires
            old(self).wf(),
        ensures
            final(self).wf(),
            match r {
                Some(prev) => {
                    &&& old(self).resolves(h)
                    &&& prev == old(self).value_at(h)
                    &&& final(self).resolves(h)
                    &&& final(self).value_at(h) == value
                    &&& final(self).key_at(h) == old(self).key_at(h)
                    &&& final(self).key_exec_at(h) == old(self).key_exec_at(h)
                    &&& old(self).entries_preserved_except(*final(self), h)
                    &&& old(self).no_new_handles_except(*final(self), h)
                    &&& old(self).handles_stable(*final(self))
                    &&& old(self).retired_preserved(*final(self))
                    &&& final(self).as_map() == old(self).as_map().insert(
                        old(self).key_at(h),
                        value,
                    )
                    &&& final(self).spec_len() == old(self).spec_len()
                    &&& final(self).handle_seq() == old(self).handle_seq()
                },
                None => !old(self).resolves(h) && *final(self) == *old(self),
            },
    {
        let f = |prev: V| -> (out: (V, V))
            ensures
                out == (value, prev),
            { (value, prev) };
        self.map_value(h, f)
    }

    // ------------------------------------------------------------------
    // Iteration.
    // ------------------------------------------------------------------
    /// The handles of all live entries, each exactly once, in slot order:
    /// deterministic for an unchanged map.
    pub fn handles(&self) -> (r: Vec<Handle>)
        requires
            self.wf(),
        ensures
            r@ == self.handle_seq(),
            r@.len() == self.spec_len(),
            forall|j: int| 0 <= j < r@.len() ==> self.resolves(#[trigger] r@[j]),
            forall|j1: int, j2: int|
                #![trigger r@[j1], r@[j2]]
                0 <= j1 < r@.len() && 0 <= j2 < r@.len() && j1 != j2 ==> r@[j1] != r@[j2],
            forall|h: Handle| #[trigger] self.resolves(h) ==> r@.contains(h),
    {
        let n = self.slots.len();
        let mut r: Vec<Handle> = Vec::new();
        let mut i: usize = 0;
        while i < n
            invariant
                n == self.slots@.len(),
                0 <= i <= n,
                r@ == handles_of(self.slots@.take(i as int)),
            decreases n - i,
        {
            let ghost prefix = self.slots@.take(i as int);
            match &self.slots[i] {
                Slot::Occupied { generation, .. } => {
                    r.push(Handle { index: i, generation: *generation });
                }
                Slot::Vacant { .. } => {}
            }
            proof {
                let ext = self.slots@.take(i + 1);
                assert(ext.drop_last() =~= prefix);
                assert(ext.last() == self.slots@[i as int]);
            }
            i = i + 1;
        }
        proof {
            assert(self.slots@.take(n as int) =~= self.slots@);
            self.lemma_len_bounds();
            lemma_handles_of_props(self.slots@);
            assert forall|h: Handle| #[trigger] self.resolves(h) implies r@.contains(h) by {
                assert(self.slots@[h.index as int].is_occ());
                assert(r@.contains(
                    Handle {
                        index: h.index as usize,
                        generation: self.slots@[h.index as int].gen_of(),
                    },
                ));
            }
            assert forall|j1: int, j2: int|
                #![trigger r@[j1], r@[j2]]
                0 <= j1 < r@.len() && 0 <= j2 < r@.len() && j1 != j2 implies r@[j1] != r@[j2] by {
                if j1 < j2 {
                    assert(r@[j1].index < r@[j2].index);
                } else {
                    assert(r@[j2].index < r@[j1].index);
                }
            }
        }
        r
    }

    /// Borrow the value that `h` resolves to; `None` if `h` is stale.
    pub fn value<'a>(&'a self, h: Handle) -> (r: Option<&'a V>)
        requires
            self.wf(),
        ensures
            match r {
                Some(v) => self.resolves(h) && *v == self.value_at(h),
                None => !self.resolves(h),
            },
    {
        if h.index < self.slots.len() {
            match &self.slots[h.index] {
                Slot::Occupied { generation, value, .. } => {
                    if *generation == h.generation {
                        Some(value)
                    } else {
                        None
                    }
                }
                Slot::Vacant { .. } => None,
            }
        } else {
            None
        }
    }
}

impl<K: MapKey, V> Default for HandleHashMap<K, V> {
    fn default() -> (r: Self)
        ensures
            r.wf(),
            r.spec_len() == 0,
            r.as_map() == Map::<K::V, V>::empty(),
    {
        HandleHashMap::new()
    }
}

} // verus!
