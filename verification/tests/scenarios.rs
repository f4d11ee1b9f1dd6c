// End-to-end scenarios over the public map, and concrete checks of the
// proved laws: liveness, length, handle stability, stale handles, the
// clone-then-drop no-op, iteration exactness, and behavior under total
// hash collisions.
use rc_hashmap::counted_hash_map::PutResult;
use rc_hashmap::keys::MapKey;
use rc_hashmap::keys::ZeroHashKey;
use rc_hashmap::InsertError;
use rc_hashmap::RcHashMap;

#[test]
fn insert_find_clone_drop_to_empty() {
    let mut m = RcHashMap::new(0);
    let r = m.insert("k".to_string(), 42).unwrap();
    let g = m.find(&"k".to_string()).unwrap();
    let g2 = m.clone_ref(&g);
    let _ = m.drop_ref(g);
    assert!(m.contains_key(&"k".to_string()));
    let _ = m.drop_ref(g2);
    assert!(m.contains_key(&"k".to_string()));
    let _ = m.drop_ref(r);
    assert_eq!(m.len(), 0);
    assert!(!m.contains_key(&"k".to_string()));
}

#[test]
fn duplicate_rejected_no_side_effect() {
    let mut m = RcHashMap::new(0);
    let r = m.insert("k".to_string(), 1).unwrap();
    assert!(matches!(m.insert("k".to_string(), 2), Err(InsertError::DuplicateKey)));
    assert_eq!(*r.value(&m).unwrap(), 1);
    let _ = m.drop_ref(r);
    assert_eq!(m.len(), 0);
}

#[test]
fn iterate_while_removing_others() {
    let mut m: RcHashMap<String, i32> = RcHashMap::new(0);
    let ra = m.insert("a".to_string(), 1).unwrap();
    let rb = m.insert("b".to_string(), 2).unwrap();
    let rc = m.insert("c".to_string(), 3).unwrap();

    // Iteration yields exactly three items.
    let mut refs = m.iter_refs();
    assert_eq!(refs.len(), 3);

    // While holding the iteration's Ref for c, return the other entries'
    // Refs: a and b go away, c stays.
    let mut c_iter_ref = None;
    while let Some(r) = refs.pop() {
        if r.key(&m).unwrap().as_str() == "c" {
            c_iter_ref = Some(r);
        } else {
            let _ = m.drop_ref(r);
        }
    }
    let _ = m.drop_ref(ra);
    let _ = m.drop_ref(rb);
    let _ = m.drop_ref(rc);

    assert!(!m.contains_key(&"a".to_string()));
    assert!(!m.contains_key(&"b".to_string()));
    assert!(m.contains_key(&"c".to_string()));

    // c stays exactly until its last Ref is returned.
    assert!(matches!(m.drop_ref(c_iter_ref.unwrap()), PutResult::Removed { .. }));
    assert!(!m.contains_key(&"c".to_string()));
}

#[test]
fn zero_hash_collisions_keep_all_behaviors() {
    // With a constant-zero hash every entry shares a bucket; insert,
    // find, duplicate rejection and removal behave exactly the same.
    let mut m: RcHashMap<ZeroHashKey, i32> = RcHashMap::new(0);
    let keys: Vec<ZeroHashKey> =
        ["a", "b", "c", "d"].iter().map(|s| ZeroHashKey { text: (*s).to_string() }).collect();

    let mut refs = Vec::new();
    for (i, k) in keys.iter().enumerate() {
        refs.push(m.insert(ZeroHashKey { text: k.text.clone() }, i as i32).unwrap());
    }
    assert_eq!(m.len(), 4);
    assert!(matches!(
        m.insert(ZeroHashKey { text: "b".to_string() }, 99),
        Err(InsertError::DuplicateKey)
    ));

    for (i, k) in keys.iter().enumerate() {
        let r = m.find(&ZeroHashKey { text: k.text.clone() }).unwrap();
        assert_eq!(*r.value(&m).unwrap(), i as i32);
        let _ = m.drop_ref(r);
    }

    // Remove "b" alone; the rest stay reachable.
    let rb = refs.remove(1);
    assert!(matches!(m.drop_ref(rb), PutResult::Removed { .. }));
    assert!(!m.contains_key(&ZeroHashKey { text: "b".to_string() }));
    assert!(m.contains_key(&ZeroHashKey { text: "a".to_string() }));
    assert!(m.contains_key(&ZeroHashKey { text: "c".to_string() }));
    assert!(m.contains_key(&ZeroHashKey { text: "d".to_string() }));

    for r in refs {
        let _ = m.drop_ref(r);
    }
    assert_eq!(m.len(), 0);
}

#[test]
fn string_hash_known_values() {
    // FNV-1a, 64-bit, folded over the characters.
    assert_eq!("".to_string().key_hash(), 0xcbf29ce484222325);
    assert_eq!("a".to_string().key_hash(), 0xaf63dc4c8601ec8c);
    // Equal strings hash equal; the stored hash never sees the copies.
    assert_eq!("same".to_string().key_hash(), "same".to_string().key_hash());
}

#[test]
fn liveness_matches_outstanding_refs() {
    let mut m: RcHashMap<String, i32> = RcHashMap::new(0);
    assert!(!m.contains_key(&"k".to_string()));
    let r = m.insert("k".to_string(), 5).unwrap();
    assert!(m.contains_key(&"k".to_string()));
    let r2 = m.clone_ref(&r);
    let _ = m.drop_ref(r);
    assert!(m.contains_key(&"k".to_string()));
    let _ = m.drop_ref(r2);
    assert!(!m.contains_key(&"k".to_string()));
}

#[test]
fn length_counts_live_keys() {
    let mut m: RcHashMap<String, i32> = RcHashMap::new(0);
    assert_eq!(m.len(), 0);
    assert!(m.is_empty());
    let r1 = m.insert("a".to_string(), 1).unwrap();
    let r2 = m.insert("b".to_string(), 2).unwrap();
    assert_eq!(m.len(), 2);
    // More references to one entry do not change the length.
    let extra = m.clone_ref(&r1);
    assert_eq!(m.len(), 2);
    let _ = m.drop_ref(extra);
    let _ = m.drop_ref(r1);
    assert_eq!(m.len(), 1);
    let _ = m.drop_ref(r2);
    assert_eq!(m.len(), 0);
}

#[test]
fn handle_stability_between_lookups() {
    let mut m: RcHashMap<String, i32> = RcHashMap::new(0);
    let r = m.insert("k".to_string(), 1).unwrap();
    let f1 = m.find(&"k".to_string()).unwrap();
    // Unrelated churn in between.
    let other = m.insert("other".to_string(), 2).unwrap();
    let _ = m.drop_ref(other);
    let f2 = m.find(&"k".to_string()).unwrap();
    assert_eq!(f1.handle(), f2.handle());
    for x in [r, f1, f2] {
        let _ = m.drop_ref(x);
    }
}

#[test]
fn stale_handles_stay_stale() {
    let mut m: RcHashMap<String, i32> = RcHashMap::new(0);
    let r = m.insert("gone".to_string(), 1).unwrap();
    let stale = r.handle();
    assert!(matches!(m.drop_ref(r), PutResult::Removed { .. }));

    // Churn that reuses the slot.
    let mut held = Vec::new();
    for i in 0..8 {
        held.push(m.insert(format!("k{}", i), i).unwrap());
    }
    for h in held.iter() {
        assert_ne!(h.handle(), stale, "a stale handle never aliases a new entry");
    }
    for h in held {
        let _ = m.drop_ref(h);
    }
}

#[test]
fn clone_then_drop_is_a_no_op() {
    let mut m: RcHashMap<String, i32> = RcHashMap::new(0);
    let r = m.insert("k".to_string(), 7).unwrap();
    let before_len = m.len();
    let before_contains = m.contains_key(&"k".to_string());
    let before_value = *r.value(&m).unwrap();

    let c = m.clone_ref(&r);
    assert!(matches!(m.drop_ref(c), PutResult::Live));

    assert_eq!(m.len(), before_len);
    assert_eq!(m.contains_key(&"k".to_string()), before_contains);
    assert_eq!(*r.value(&m).unwrap(), before_value);
    let _ = m.drop_ref(r);
}

#[test]
fn iteration_yields_each_entry_exactly_once() {
    let mut m: RcHashMap<String, i32> = RcHashMap::new(0);
    let mut keep = Vec::new();
    for i in 0..5 {
        keep.push(m.insert(format!("k{}", i), i).unwrap());
    }
    let hs1 = m.handles();
    let hs2 = m.handles();
    // Deterministic for an unchanged map.
    assert_eq!(hs1, hs2);
    assert_eq!(hs1.len(), m.len());
    // No handle twice.
    for i in 0..hs1.len() {
        for j in 0..hs1.len() {
            if i != j {
                assert_ne!(hs1[i], hs1[j]);
            }
        }
    }
    for r in keep {
        let _ = m.drop_ref(r);
    }
}

#[test]
fn parity_with_plain_map_model() {
    // Drive the counted lifecycle through a scripted op sequence and hold
    // the key set and value map against a plain model map at every step.
    let mut m: RcHashMap<String, i32> = RcHashMap::new(0);
    let mut model: std::collections::HashMap<String, i32> = std::collections::HashMap::new();
    let mut live: std::collections::HashMap<String, Vec<rc_hashmap::Ref>> =
        std::collections::HashMap::new();

    // op, key index, value: 0 insert, 1 find, 2 clone, 3 drop one, 4 set value
    let script: [(u8, usize, i32); 18] = [
        (0, 0, 10),
        (0, 1, 11),
        (1, 0, 0),
        (2, 1, 0),
        (0, 0, 99),
        (3, 0, 0),
        (4, 1, 42),
        (3, 1, 0),
        (0, 2, 12),
        (3, 0, 0),
        (3, 0, 0),
        (1, 0, 0),
        (3, 1, 0),
        (3, 1, 0),
        (4, 2, 7),
        (3, 2, 0),
        (0, 1, 13),
        (3, 1, 0),
    ];
    for (op, ki, v) in script {
        let key = format!("k{}", ki);
        match op {
            0 => {
                let r = m.insert(key.clone(), v);
                if model.contains_key(&key) {
                    assert!(r.is_err(), "model says duplicate");
                } else {
                    model.insert(key.clone(), v);
                    live.entry(key.clone()).or_default().push(r.unwrap());
                }
            }
            1 => {
                let r = m.find(&key);
                assert_eq!(r.is_some(), model.contains_key(&key));
                if let Some(r) = r {
                    live.entry(key.clone()).or_default().push(r);
                }
            }
            2 => {
                let held = live.entry(key.clone()).or_default();
                if let Some(last) = held.pop() {
                    let c = m.clone_ref(&last);
                    held.push(last);
                    held.push(c);
                }
            }
            3 => {
                let held = live.entry(key.clone()).or_default();
                if let Some(r) = held.pop() {
                    let removed = matches!(m.drop_ref(r), PutResult::Removed { .. });
                    assert_eq!(removed, held.is_empty(), "removal exactly at the last ref");
                    if removed {
                        model.remove(&key);
                    }
                }
            }
            _ => {
                let held = live.entry(key.clone()).or_default();
                if let Some(last) = held.pop() {
                    last.set_value(&mut m, v).unwrap();
                    held.push(last);
                    model.insert(key.clone(), v);
                }
            }
        }
        // The observable state agrees with the model after every step.
        assert_eq!(m.len(), model.len());
        for k in ["k0", "k1", "k2"] {
            let key = k.to_string();
            assert_eq!(m.contains_key(&key), model.contains_key(&key));
            if let Some(r) = m.find(&key) {
                assert_eq!(*r.value(&m).unwrap(), model[&key]);
                let _ = m.drop_ref(r);
            }
        }
    }
    for (k, refs) in live {
        for r in refs {
            let removed = matches!(m.drop_ref(r), PutResult::Removed { .. });
            if removed {
                model.remove(&k);
            }
        }
    }
    assert!(m.is_empty());
    assert!(model.is_empty());
}

#[test]
fn growth_keeps_all_entries_reachable() {
    // Enough inserts to outgrow the index repeatedly; the rebuilds read
    // only the stored hashes, and nothing observable changes.
    let mut m: RcHashMap<String, i32> = RcHashMap::new(0);
    let mut refs = Vec::new();
    for i in 0..200 {
        refs.push(m.insert(format!("key{}", i), i).unwrap());
    }
    assert_eq!(m.len(), 200);
    for i in 0..200 {
        let r = m.find(&format!("key{}", i)).unwrap();
        assert_eq!(*r.value(&m).unwrap(), i);
        let _ = m.drop_ref(r);
    }
    assert!(!m.contains_key(&"key200".to_string()));
    // Handles stay stable across growth-triggering inserts.
    for (i, r) in refs.iter().enumerate() {
        let again = m.find(&format!("key{}", i)).unwrap();
        assert_eq!(again.handle(), r.handle());
        let _ = m.drop_ref(again);
    }
    for r in refs {
        let _ = m.drop_ref(r);
    }
    assert!(m.is_empty());
}

#[test]
fn wrong_map_error_on_every_accessor() {
    let mut m1: RcHashMap<String, i32> = RcHashMap::new(7);
    let mut m2: RcHashMap<String, i32> = RcHashMap::new(8);
    let r = m1.insert("k".to_string(), 1).unwrap();
    assert!(r.key(&m2).is_err());
    assert!(r.value(&m2).is_err());
    assert!(r.set_value(&mut m2, 9).is_err());
    // The wrong-map attempt changed nothing.
    assert_eq!(*r.value(&m1).unwrap(), 1);
    let _ = m1.drop_ref(r);
}
