// Public-map test suite. The core behaviors exercised:
// - Liveness: an entry is present iff at least one Ref accounts for it.
// - Uniqueness: duplicate insert is rejected without minting a Ref.
// - Owner identity: accessors refuse a Ref minted by another map.
// - Iteration: iter_refs yields one Ref per entry; unrelated entries can
//   be removed while walking the result.
// - Cascades: removal hands keys and values back to the caller, who
//   returns the Refs held inside them, removing further entries in turn.
use rc_hashmap::counted_hash_map::PutResult;
use rc_hashmap::rc_hash_map::HoldingKey;
use rc_hashmap::InsertError;
use rc_hashmap::RcHashMap;
use rc_hashmap::Ref;
use std::collections::hash_map::DefaultHasher;
use std::hash::Hash;
use std::hash::Hasher;

#[test]
fn rc_hash_map_insert_get_clone_drop_removes() {
    let mut m = RcHashMap::new(0);
    let r = m.insert("k1".to_string(), 42).expect("insert ok");
    assert_eq!(m.len(), 1);
    assert!(m.contains_key(&"k1".to_string()));

    // find mints a new Ref, incrementing the count.
    let g = m.find(&"k1".to_string()).expect("found");
    assert_eq!(*g.value(&m).expect("value borrow"), 42);

    // A clone keeps the entry alive.
    let g2 = m.clone_ref(&g);
    assert!(matches!(m.drop_ref(g), PutResult::Live));
    assert!(m.contains_key(&"k1".to_string()));

    assert!(matches!(m.drop_ref(g2), PutResult::Live));
    assert_eq!(m.len(), 1);
    assert!(m.contains_key(&"k1".to_string()));

    // Returning the original, last Ref removes the entry.
    assert!(matches!(m.drop_ref(r), PutResult::Removed { .. }));
    assert_eq!(m.len(), 0);
    assert!(!m.contains_key(&"k1".to_string()));
}

#[test]
fn rc_hash_map_duplicate_insert_rejected() {
    let mut m = RcHashMap::new(0);
    let r = m.insert("dup".to_string(), 1).unwrap();
    let e = m.insert("dup".to_string(), 2);
    match e {
        Err(InsertError::DuplicateKey) => {}
        Ok(_) => panic!("expected duplicate insert to error"),
    }
    let _ = m.drop_ref(r);
}

#[test]
fn rc_hash_map_ref_equality_and_hash() {
    let mut m = RcHashMap::new(0);
    let r1 = m.insert("a".to_string(), 10).unwrap();
    let r1b = m.clone_ref(&r1);
    assert!(r1 == r1b);

    let mut h1 = DefaultHasher::new();
    r1.handle().hash(&mut h1);
    let mut h2 = DefaultHasher::new();
    r1b.handle().hash(&mut h2);
    assert_eq!(h1.finish(), h2.finish());

    let r2 = m.insert("b".to_string(), 20).unwrap();
    assert!(r1 != r2);

    let _ = m.drop_ref(r1b);
    let _ = m.drop_ref(r1);
    let _ = m.drop_ref(r2);
}

#[test]
fn rc_hash_map_wrong_map_accessors_reject() {
    let mut m1 = RcHashMap::new(1);
    let m2: RcHashMap<String, i32> = RcHashMap::new(2);
    let r = m1.insert("a".to_string(), 11).unwrap();
    assert_eq!(r.owner(), 1);

    // Owner-checked accessors.
    assert!(r.value(&m1).is_ok());
    assert!(r.key(&m1).is_ok());
    assert!(r.set_value(&mut m1, 11).is_ok());

    // The wrong map is refused.
    assert!(r.value(&m2).is_err());
    assert!(r.key(&m2).is_err());

    let _ = m1.drop_ref(r);
}

#[test]
fn rc_hash_map_iter_returns_refs() {
    let mut m = RcHashMap::new(0);
    let r1 = m.insert("k1".to_string(), 1).unwrap();
    let r2 = m.insert("k2".to_string(), 2).unwrap();
    let r3 = m.insert("k3".to_string(), 3).unwrap();

    let refs = m.iter_refs();
    assert_eq!(refs.len(), m.len());

    // Every value is reachable through the yielded Refs.
    for r in refs.iter() {
        let v = *r.value(&m).expect("value borrow");
        assert!(v == 1 || v == 2 || v == 3);
    }

    for r in refs {
        let _ = m.drop_ref(r);
    }
    for r in [r1, r2, r3] {
        let _ = m.drop_ref(r);
    }
}

#[test]
fn rc_hash_map_iter_mut_updates_and_allows_cloning_ref() {
    let mut m = RcHashMap::new(0);
    let r1 = m.insert("k1".to_string(), 1).unwrap();
    let r2 = m.insert("k2".to_string(), 2).unwrap();

    // Walk the entries, bump each value in place and keep a clone alive
    // past the walk.
    let mut held = Vec::new();
    let refs = m.iter_refs();
    for it in refs.iter() {
        let old = *it.value(&m).unwrap();
        it.set_value(&mut m, old + 10).unwrap();
        held.push(m.clone_ref(it));
    }
    for r in refs {
        let _ = m.drop_ref(r);
    }
    assert_eq!(m.len(), 2);

    assert_eq!(*r1.value(&m).unwrap(), 11);
    assert_eq!(*r2.value(&m).unwrap(), 12);

    for r in held {
        let _ = m.drop_ref(r);
    }
    let _ = m.drop_ref(r1);
    let _ = m.drop_ref(r2);
}

// ---- Cascades: values and keys holding Refs ----

// A value that holds Refs to other entries of the same map: edges of an
// acyclic reference graph.
struct Node {
    name: String,
    children: Vec<Ref>,
}

// When removal hands a key or value back, return every Ref it held; each
// return may remove another entry and hand back more.
fn cascade(m: &mut RcHashMap<u64, Node>, first: PutResult<u64, Node>) {
    let mut pending = vec![first];
    while let Some(res) = pending.pop() {
        if let PutResult::Removed { key: _, value } = res {
            for child in value.children {
                pending.push(m.drop_ref(child));
            }
        }
    }
}

#[test]
fn value_dag_cascade_drop() {
    // Build: B.value -> C; drop the external C (it stays, held by B);
    // drop B; removing B hands its value back, whose child Ref removes C.
    let mut m: RcHashMap<u64, Node> = RcHashMap::new(0);

    let r_a = m.insert(1, Node { name: "A".into(), children: vec![] }).unwrap();
    let r_b = m.insert(2, Node { name: "B".into(), children: vec![] }).unwrap();
    let r_c = m.insert(3, Node { name: "C".into(), children: vec![] }).unwrap();

    // B -> C
    let c_edge = m.clone_ref(&r_c);
    let old = r_b.set_value(&mut m, Node { name: "B".into(), children: vec![c_edge] }).unwrap();
    assert_eq!(old.children.len(), 0);

    // Drop the external C; it remains through B's child edge.
    assert!(matches!(m.drop_ref(r_c), PutResult::Live));
    assert!(m.contains_key(&3));

    // Drop B: B is removed, and returning its child edge removes C.
    let res = m.drop_ref(r_b);
    cascade(&mut m, res);
    assert!(!m.contains_key(&2));
    assert!(!m.contains_key(&3));

    // A remains.
    assert!(m.contains_key(&1));
    let res = m.drop_ref(r_a);
    cascade(&mut m, res);
}

#[test]
fn key_holds_ref_cascade() {
    // Y's key holds a Ref to X. Dropping the external X leaves X alive;
    // dropping Y removes Y and hands its key back, whose held Ref then
    // removes X.
    let mut m: RcHashMap<HoldingKey, i32> = RcHashMap::new(0);

    let r_x = m.insert(HoldingKey { id: 10, held: None }, 1).unwrap();
    let x_edge = m.clone_ref(&r_x);
    let r_y = m.insert(HoldingKey { id: 20, held: Some(x_edge) }, 2).unwrap();

    // After dropping the external X it survives thanks to Y's key.
    assert!(matches!(m.drop_ref(r_x), PutResult::Live));
    assert!(m.contains_key(&HoldingKey { id: 10, held: None }));

    // Drop Y; its key's Ref cascades the removal of X.
    match m.drop_ref(r_y) {
        PutResult::Removed { key, value: _ } => {
            let held = key.held.expect("key held a Ref");
            assert!(matches!(m.drop_ref(held), PutResult::Removed { .. }));
        }
        PutResult::Live => panic!("Y had one Ref"),
    }
    assert!(!m.contains_key(&HoldingKey { id: 20, held: None }));
    assert!(!m.contains_key(&HoldingKey { id: 10, held: None }));
}

#[test]
fn deep_key_chain_drop_cascades() {
    // Z.key -> Y, Y.key -> X: dropping Z then Y cascades down to X.
    let mut m: RcHashMap<HoldingKey, i32> = RcHashMap::new(0);

    let r_x = m.insert(HoldingKey { id: 1, held: None }, 0).unwrap();
    let x_edge = m.clone_ref(&r_x);
    let r_y = m.insert(HoldingKey { id: 2, held: Some(x_edge) }, 0).unwrap();
    let y_edge = m.clone_ref(&r_y);
    let r_z = m.insert(HoldingKey { id: 3, held: Some(y_edge) }, 0).unwrap();

    // Drop the external Z: Z is removed; its key's Ref to Y is returned,
    // but Y still has an external Ref, so Y stays.
    match m.drop_ref(r_z) {
        PutResult::Removed { key, .. } => {
            assert!(matches!(m.drop_ref(key.held.unwrap()), PutResult::Live));
        }
        PutResult::Live => panic!("Z had one Ref"),
    }
    assert!(!m.contains_key(&HoldingKey { id: 3, held: None }));
    assert!(m.contains_key(&HoldingKey { id: 2, held: None }));
    assert!(m.contains_key(&HoldingKey { id: 1, held: None }));

    // Drop the external Y: Y is removed; its key's Ref to X is returned,
    // and X keeps its external Ref.
    match m.drop_ref(r_y) {
        PutResult::Removed { key, .. } => {
            assert!(matches!(m.drop_ref(key.held.unwrap()), PutResult::Live));
        }
        PutResult::Live => panic!("Y had one Ref left"),
    }
    assert!(!m.contains_key(&HoldingKey { id: 2, held: None }));
    assert!(m.contains_key(&HoldingKey { id: 1, held: None }));

    // Finally drop the external X.
    assert!(matches!(m.drop_ref(r_x), PutResult::Removed { .. }));
    assert!(!m.contains_key(&HoldingKey { id: 1, held: None }));
}

// ---- Removals of other entries while iterating ----

#[test]
fn drop_other_refs_during_iter() {
    let mut m: RcHashMap<String, i32> = RcHashMap::new(0);
    let r1 = m.insert("a".into(), 1).unwrap();
    let r2 = m.insert("b".into(), 2).unwrap();
    let r3 = m.insert("c".into(), 3).unwrap();

    let mut keep = vec![m.clone_ref(&r1), m.clone_ref(&r2), m.clone_ref(&r3)];
    let _ = m.drop_ref(r1);
    let _ = m.drop_ref(r2);
    let _ = m.drop_ref(r3);

    let mut seen = 0;
    let refs = m.iter_refs();
    for r in refs.iter() {
        if let Some(x) = keep.pop() {
            let _ = m.drop_ref(x);
        }
        // The iteration's own Ref keeps the current entry readable.
        let _ = r.value(&m).unwrap();
        seen += 1;
    }
    assert_eq!(seen, 3);
    for r in refs {
        let _ = m.drop_ref(r);
    }
}

#[test]
fn drop_refs_during_iter_mut_and_update() {
    let mut m: RcHashMap<String, i32> = RcHashMap::new(0);
    let r1 = m.insert("x".into(), 10).unwrap();
    let r2 = m.insert("y".into(), 20).unwrap();
    let extra1 = m.clone_ref(&r1);
    let extra2 = m.clone_ref(&r2);

    let refs = m.iter_refs();
    for item in refs.iter() {
        let old = *item.value(&m).unwrap();
        item.set_value(&mut m, old + 1).unwrap();
        if item.key(&m).unwrap().as_str() == "x" {
            let c = m.clone_ref(&extra2);
            let _ = m.drop_ref(c);
        } else {
            let c = m.clone_ref(&extra1);
            let _ = m.drop_ref(c);
        }
    }
    for r in refs {
        let _ = m.drop_ref(r);
    }

    if let Some(rx) = m.find(&"x".to_string()) {
        assert_eq!(*rx.value(&m).unwrap(), 11);
        let _ = m.drop_ref(rx);
    }
    if let Some(ry) = m.find(&"y".to_string()) {
        assert_eq!(*ry.value(&m).unwrap(), 21);
        let _ = m.drop_ref(ry);
    }

    for r in [r1, r2, extra1, extra2] {
        let _ = m.drop_ref(r);
    }
}

#[test]
fn hold_shared_value_and_drop_others() {
    let mut m: RcHashMap<String, i32> = RcHashMap::new(0);
    let ra = m.insert("a".into(), 1).unwrap();
    let rb = m.insert("b".into(), 2).unwrap();

    {
        let va = *ra.value(&m).unwrap();
        assert_eq!(va, 1);
        let _ = m.drop_ref(rb);
    }

    assert!(m.contains_key(&"a".to_string()));
    assert!(!m.contains_key(&"b".to_string()));

    let _ = m.drop_ref(ra);
}

#[test]
fn hold_mut_value_and_drop_others() {
    let mut m: RcHashMap<String, i32> = RcHashMap::new(0);
    let ra = m.insert("a".into(), 10).unwrap();
    let rb = m.insert("b".into(), 20).unwrap();

    {
        let va = *ra.value(&m).unwrap();
        ra.set_value(&mut m, va + 5).unwrap();
        let _ = m.drop_ref(rb);
    }

    let ra2 = m.find(&"a".to_string()).unwrap();
    assert_eq!(*ra2.value(&m).unwrap(), 15);
    assert!(!m.contains_key(&"b".to_string()));

    let _ = m.drop_ref(ra);
    let _ = m.drop_ref(ra2);
}
