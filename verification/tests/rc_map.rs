use rc_hashmap::counted_hash_map::PutResult;
use rc_hashmap::InsertError;
use rc_hashmap::RcHashMap;
use std::collections::hash_map::DefaultHasher;
use std::hash::Hash;
use std::hash::Hasher;

#[test]
fn rc_map_insert_get_clone_drop_removes() {
    let mut m = RcHashMap::new(0);
    let r = m.insert("k1".to_string(), 42).expect("insert ok");
    assert_eq!(m.len(), 1);
    assert!(m.contains_key(&"k1".to_string()));

    let g = m.find(&"k1".to_string()).expect("found");
    assert_eq!(*g.value(&m).expect("value borrow"), 42);

    let g2 = m.clone_ref(&g);
    assert!(matches!(m.drop_ref(g), PutResult::Live));
    assert!(m.contains_key(&"k1".to_string()));

    assert!(matches!(m.drop_ref(g2), PutResult::Live));
    assert_eq!(m.len(), 1);
    assert!(m.contains_key(&"k1".to_string()));

    assert!(matches!(m.drop_ref(r), PutResult::Removed { .. }));
    assert_eq!(m.len(), 0);
    assert!(!m.contains_key(&"k1".to_string()));
}

#[test]
fn rc_map_duplicate_insert_rejected() {
    let mut m = RcHashMap::new(0);
    let r = m.insert("dup".to_string(), 1).unwrap();
    match m.insert("dup".to_string(), 2) {
        Err(InsertError::DuplicateKey) => {}
        Ok(_) => panic!("expected duplicate insert to error"),
    }
    let _ = m.drop_ref(r);
}

#[test]
fn rc_map_ref_equality_and_hash() {
    let mut m = RcHashMap::new(0);
    let r1 = m.insert("a".to_string(), 10).unwrap();
    let r1b = m.clone_ref(&r1);
    assert!(r1 == r1b);

    let mut h1 = DefaultHasher::new();
    r1.handle().hash(&mut h1);
    let mut h2 = DefaultHasher::new();
    r1b.handle().hash(&mut h2);
    assert_eq!(h1.finish(), h2.finish());

    let r2 = m.insert("b".to_string(), 20).unwrap();
    assert!(r1 != r2);

    for r in [r1, r1b, r2] {
        let _ = m.drop_ref(r);
    }
}

#[test]
fn rc_map_wrong_map_accessors_reject() {
    let mut m1 = RcHashMap::new(1);
    let m2: RcHashMap<String, i32> = RcHashMap::new(2);
    let r = m1.insert("a".to_string(), 11).unwrap();

    assert!(r.value(&m1).is_ok());
    assert!(r.key(&m1).is_ok());
    assert!(r.set_value(&mut m1, 11).is_ok());

    assert!(r.value(&m2).is_err());
    assert!(r.key(&m2).is_err());

    let _ = m1.drop_ref(r);
}

#[test]
fn rc_map_iter_returns_refs() {
    let mut m = RcHashMap::new(0);
    let keep = [
        m.insert("k1".to_string(), 1).unwrap(),
        m.insert("k2".to_string(), 2).unwrap(),
        m.insert("k3".to_string(), 3).unwrap(),
    ];

    let refs = m.iter_refs();
    assert_eq!(refs.len(), m.len());

    for r in refs.iter() {
        let v = *r.value(&m).expect("value borrow");
        assert!(v == 1 || v == 2 || v == 3);
    }

    for r in refs {
        let _ = m.drop_ref(r);
    }
    for r in keep {
        let _ = m.drop_ref(r);
    }
}

#[test]
fn rc_map_iter_mut_updates_and_allows_cloning_ref() {
    let mut m = RcHashMap::new(0);
    let r1 = m.insert("k1".to_string(), 1).unwrap();
    let r2 = m.insert("k2".to_string(), 2).unwrap();

    let mut held = Vec::new();
    let refs = m.iter_refs();
    for it in refs.iter() {
        let old = *it.value(&m).unwrap();
        it.set_value(&mut m, old + 10).unwrap();
        held.push(m.clone_ref(it));
    }
    for r in refs {
        let _ = m.drop_ref(r);
    }
    assert_eq!(m.len(), 2);

    assert_eq!(*r1.value(&m).unwrap(), 11);
    assert_eq!(*r2.value(&m).unwrap(), 12);

    for r in held {
        let _ = m.drop_ref(r);
    }
    for r in [r1, r2] {
        let _ = m.drop_ref(r);
    }
}
