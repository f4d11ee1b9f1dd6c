//! The laws the public map keeps, stated and proved once over its model.
//!
//! Each operation's contract already pins its own step; the proofs here
//! state what holds across steps and between the different views of the
//! state: presence, counts, handles, length and iteration.

use crate::handle_hash_map::Handle;
use crate::keys::MapKey;
use crate::rc_hash_map::RcHashMap;
use vstd::prelude::*;

verus! {

/// Liveness, one direction: a key the map contains has a resolving handle
/// and at least one outstanding reference accounting for it.
pub proof fn law_liveness<K: MapKey, V>(m: RcHashMap<K, V>, kv: K::V)
    requires
        m.wf(),
        m.spec_contains(kv),
    ensures
        m.resolves(m.handle_of(kv)),
        m.count_at(m.handle_of(kv)) >= 1,
{
    m.lemma_contains_resolves(kv);
    m.lemma_live_entries_counted(m.handle_of(kv));
}

/// Liveness, the other direction: every resolving handle stands for a key
/// the map contains, with at least one outstanding reference. Together
/// with `law_liveness`: an entry exists exactly while it is referenced.
pub proof fn law_liveness_converse<K: MapKey, V>(m: RcHashMap<K, V>, h: Handle)
    requires
        m.wf(),
        m.resolves(h),
    ensures
        m.spec_contains(m.key_at(h)),
        m.handle_of(m.key_at(h)) == h,
        m.count_at(h) >= 1,
{
    m.lemma_resolves_contains(h);
    m.lemma_live_entries_counted(h);
}

/// Length: `len` is the number of distinct live keys — the size of the
/// model map's domain.
pub proof fn law_length<K: MapKey, V>(m: RcHashMap<K, V>)
    requires
        m.wf(),
    ensures
        m.as_map().dom().finite(),
        m.as_map().dom().len() == m.spec_len(),
{
    m.lemma_len_is_key_count();
}

/// Handle stability: across any chain of operations each of which keeps a
/// key's handle stable — every operation of the map promises
/// `handles_stable` — a key that stays present keeps one handle, so two
/// lookups with no removal of the key in between return the same handle.
pub proof fn law_handle_stability<K: MapKey, V>(
    m1: RcHashMap<K, V>,
    m2: RcHashMap<K, V>,
    m3: RcHashMap<K, V>,
    kv: K::V,
)
    requires
        m1.handles_stable(m2),
        m2.handles_stable(m3),
        m1.spec_contains(kv),
        m2.spec_contains(kv),
        m3.spec_contains(kv),
    ensures
        m2.handle_of(kv) == m1.handle_of(kv),
        m3.handle_of(kv) == m1.handle_of(kv),
{
}

/// Stale handles: a retired handle stays retired across any operation —
/// every operation of the map promises `retired_preserved` — and a
/// retired handle never resolves again. Removal retires the removed
/// entry's handle, so once an entry is gone, every handle that was minted
/// for it resolves to absent forever.
pub proof fn law_stale_handles<K: MapKey, V>(m1: RcHashMap<K, V>, m2: RcHashMap<K, V>, h: Handle)
    requires
        m1.retired(h),
        m1.retired_preserved(m2),
    ensures
        m2.retired(h),
        !m2.resolves(h),
{
    m2.lemma_retired_not_resolves(h);
}

/// Clone then drop is a no-op: minting one more reference for a live
/// entry and then returning one leaves every observation of the map —
/// which entries resolve, their keys, values and counts, and the whole
/// model map — exactly as it was. The hypotheses are what `clone_ref`
/// and a `Live` result of `drop_ref` promise.
pub proof fn law_clone_drop_noop<K: MapKey, V>(
    m0: RcHashMap<K, V>,
    m1: RcHashMap<K, V>,
    m2: RcHashMap<K, V>,
    h: Handle,
)
    requires
        m0.resolves(h),
        m1.resolves(h),
        m1.count_at(h) == m0.count_at(h) + 1,
        m1.key_at(h) == m0.key_at(h),
        m1.key_exec_at(h) == m0.key_exec_at(h),
        m1.value_at(h) == m0.value_at(h),
        m0.entries_preserved_except(m1, h),
        m0.no_new_handles_except(m1, h),
        m1.as_map() == m0.as_map(),
        m2.resolves(h),
        m2.count_at(h) == m1.count_at(h) - 1,
        m2.key_at(h) == m1.key_at(h),
        m2.key_exec_at(h) == m1.key_exec_at(h),
        m2.value_at(h) == m1.value_at(h),
        m1.entries_preserved_except(m2, h),
        m1.no_new_handles_except(m2, h),
        m2.as_map() == m1.as_map(),
    ensures
        forall|h2: Handle| m2.resolves(h2) == m0.resolves(h2),
        forall|h2: Handle|
            #[trigger] m0.resolves(h2) ==> m2.key_at(h2) == m0.key_at(h2) && m2.key_exec_at(h2)
                == m0.key_exec_at(h2) && m2.value_at(h2) == m0.value_at(h2) && m2.count_at(h2)
                == m0.count_at(h2),
        m2.as_map() == m0.as_map(),
{
    assert forall|h2: Handle| m2.resolves(h2) == m0.resolves(h2) by {
        if h2 != h {
            if m0.resolves(h2) {
                assert(m1.resolves(h2));
            }
            if m2.resolves(h2) {
                assert(m1.resolves(h2));
            }
        }
    }
    assert forall|h2: Handle| #[trigger] m0.resolves(h2) implies m2.key_at(h2) == m0.key_at(h2)
        && m2.key_exec_at(h2) == m0.key_exec_at(h2) && m2.value_at(h2) == m0.value_at(h2)
        && m2.count_at(h2) == m0.count_at(h2) by {
        if h2 != h {
            assert(m1.resolves(h2));
        }
    }
}

/// Iteration: the handle sequence that `handles` and `iter_refs` walk
/// lists each live entry exactly once, in an order that is a function of
/// the map's contents alone.
pub proof fn law_iteration_exact<K: MapKey, V>(m: RcHashMap<K, V>)
    requires
        m.wf(),
    ensures
        m.handle_seq().len() == m.spec_len(),
        forall|j: int| 0 <= j < m.handle_seq().len() ==> m.resolves(#[trigger] m.handle_seq()[j]),
        forall|j1: int, j2: int|
            #![trigger m.handle_seq()[j1], m.handle_seq()[j2]]
            0 <= j1 < m.handle_seq().len() && 0 <= j2 < m.handle_seq().len() && j1 != j2
                ==> m.handle_seq()[j1] != m.handle_seq()[j2],
        forall|h: Handle| #[trigger] m.resolves(h) ==> m.handle_seq().contains(h),
{
    m.lemma_handle_seq_props();
}

} // verus!
