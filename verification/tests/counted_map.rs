use rc_hashmap::counted_hash_map::CountedHashMap;
use rc_hashmap::counted_hash_map::PutResult;
use rc_hashmap::handle_hash_map::InsertError;
use rc_hashmap::tokens::Count;
use rc_hashmap::tokens::UsizeCount;
use std::cell::Cell;
use std::collections::BTreeSet;

#[test]
fn insert_with_is_lazy_and_mints_token() {
    let mut m: CountedHashMap<String, i32> = CountedHashMap::new();
    let calls = Cell::new(0);

    let ch = m
        .insert_with("k".to_string(), || {
            calls.set(calls.get() + 1);
            7
        })
        .unwrap();
    assert_eq!(calls.get(), 1);
    assert_eq!(ch.value_ref(&m), Some(&7));

    // A duplicate must not call the constructor and must not mint a token.
    {
        let dup = m.insert_with("k".to_string(), || {
            calls.set(calls.get() + 1);
            99
        });
        match dup {
            Err(InsertError::DuplicateKey) => {}
            _ => panic!("unexpected result"),
        }
    }
    assert_eq!(calls.get(), 1);

    // `ch` is the only outstanding token, so returning it removes the entry.
    match m.put(ch) {
        PutResult::Removed { key, value } => {
            assert_eq!(key, "k".to_string());
            assert_eq!(value, 7);
        }
        _ => panic!("expected removal"),
    }
    assert!(!m.contains_key(&"k".to_string()));
}

#[test]
fn insert_with_then_mutate_value() {
    let mut m: CountedHashMap<String, i32> = CountedHashMap::new();
    let ch = m.insert_with("k".to_string(), || 10).unwrap();
    let old = *ch.value_ref(&m).unwrap();
    m.set_value(&ch, old + 5);
    assert_eq!(ch.value_ref(&m), Some(&15));
    let _ = m.put(ch);
}

#[test]
fn get_mints_new_token_and_put_removes_at_zero() {
    let mut m: CountedHashMap<String, i32> = CountedHashMap::new();
    let h1 = m.insert("a".to_string(), 1).unwrap();
    let h2 = m.get(&h1);

    // Returning one of them leaves the entry live.
    match m.put(h1) {
        PutResult::Live => {}
        _ => panic!("expected Live when one handle remains"),
    }
    assert!(m.contains_key(&"a".to_string()));

    // Returning the last one removes the entry.
    match m.put(h2) {
        PutResult::Removed { key, value } => {
            assert_eq!(key, "a".to_string());
            assert_eq!(value, 1);
        }
        _ => panic!("expected Removed at zero"),
    }
    assert!(!m.contains_key(&"a".to_string()));
}

#[test]
fn key_ref_value_ref_and_mutation_persist() {
    let mut m: CountedHashMap<String, i32> = CountedHashMap::new();
    let h = m.insert("k1".to_string(), 10).unwrap();
    assert_eq!(h.key_ref(&m), Some(&"k1".to_string()));
    assert_eq!(h.value_ref(&m), Some(&10));
    let old = *h.value_ref(&m).unwrap();
    m.set_value(&h, old + 7);
    assert_eq!(h.value_ref(&m), Some(&17));
    let _ = m.put(h);
}

#[test]
fn iter_yields_all_entries_once_and_iter_mut_updates_values() {
    let mut m: CountedHashMap<String, i32> = CountedHashMap::new();
    let keys = ["k1", "k2", "k3", "k4"];
    let mut handles = Vec::new();
    for (i, k) in keys.iter().enumerate() {
        handles.push(m.insert((*k).to_string(), i as i32).unwrap());
    }

    // Iteration yields each live entry exactly once.
    let seen: BTreeSet<String> =
        m.handles().iter().map(|h| m.key(*h).unwrap().clone()).collect();
    let expected: BTreeSet<String> = keys.iter().map(|s| (*s).to_string()).collect();
    assert_eq!(seen, expected);

    // Updates through the handles are visible in subsequent reads.
    for (i, ch) in handles.iter().enumerate() {
        let old = *ch.value_ref(&m).unwrap();
        assert_eq!(old, i as i32);
        m.set_value(ch, old + 100);
    }
    for (i, ch) in handles.iter().enumerate() {
        let hv = ch.value_ref(&m).copied();
        assert_eq!(hv, Some((i as i32) + 100));
    }

    for h in handles {
        let _ = m.put(h);
    }
}

#[test]
fn iter_raw_requires_put_and_keeps_entries_live() {
    let mut m: CountedHashMap<String, i32> = CountedHashMap::new();
    let h1 = m.insert("a".to_string(), 1).unwrap();
    let h2 = m.insert("b".to_string(), 2).unwrap();
    let h3 = m.insert("c".to_string(), 3).unwrap();

    // Mint one extra handle per entry.
    let mut raw = m.iter_counted();

    // Return the original handles; the raw handles keep every entry live.
    match m.put(h1) {
        PutResult::Live => {}
        _ => panic!("expected Live"),
    }
    match m.put(h2) {
        PutResult::Live => {}
        _ => panic!("expected Live"),
    }
    match m.put(h3) {
        PutResult::Live => {}
        _ => panic!("expected Live"),
    }
    assert!(m.contains_key(&"a".to_string()));
    assert!(m.contains_key(&"b".to_string()));
    assert!(m.contains_key(&"c".to_string()));

    // Return the raw handles; each removal hands the entry back.
    let mut removed: BTreeSet<String> = BTreeSet::new();
    while let Some(ch) = raw.pop() {
        match m.put(ch) {
            PutResult::Removed { key, value } => {
                removed.insert(key.clone());
                match key.as_str() {
                    "a" => assert_eq!(value, 1),
                    "b" => assert_eq!(value, 2),
                    "c" => assert_eq!(value, 3),
                    _ => unreachable!(),
                }
            }
            PutResult::Live => {}
        }
    }
    assert_eq!(
        removed,
        ["a", "b", "c"].into_iter().map(|s| s.to_string()).collect()
    );
    assert!(!m.contains_key(&"a".to_string()));
    assert!(!m.contains_key(&"b".to_string()));
    assert!(!m.contains_key(&"c".to_string()));
}

#[test]
fn iter_mut_raw_requires_put_and_keeps_entries_live() {
    let mut m: CountedHashMap<String, i32> = CountedHashMap::new();
    let h1 = m.insert("x".to_string(), 10).unwrap();
    let h2 = m.insert("y".to_string(), 20).unwrap();

    // Mint one extra handle per entry and bump every value through them.
    let mut raw = m.iter_counted();
    for ch in raw.iter() {
        let old = *ch.value_ref(&m).unwrap();
        m.set_value(ch, old + 1);
    }

    // Return the original handles; entries stay live through the raw ones.
    assert!(matches!(m.put(h1), PutResult::Live));
    assert!(matches!(m.put(h2), PutResult::Live));
    assert!(m.contains_key(&"x".to_string()));
    assert!(m.contains_key(&"y".to_string()));

    // The mutations persisted.
    let xr = m.find(&"x".to_string()).unwrap();
    let yr = m.find(&"y".to_string()).unwrap();
    assert_eq!(xr.value_ref(&m), Some(&11));
    assert_eq!(yr.value_ref(&m), Some(&21));
    let _ = m.put(xr);
    let _ = m.put(yr);

    // Return the raw handles; both entries are removed.
    let mut removed = 0;
    while let Some(ch) = raw.pop() {
        match m.put(ch) {
            PutResult::Removed { key, value } => {
                removed += 1;
                match key.as_str() {
                    "x" => assert_eq!(value, 11),
                    "y" => assert_eq!(value, 21),
                    _ => unreachable!(),
                }
            }
            PutResult::Live => {}
        }
    }
    assert_eq!(removed, 2);
    assert!(!m.contains_key(&"x".to_string()));
    assert!(!m.contains_key(&"y".to_string()));
}

#[test]
fn usizecount_balance_and_zero() {
    let mut c = UsizeCount::new(0);
    let t1 = c.get();
    let t2 = c.get();
    assert!(!c.is_zero());
    assert!(!c.put(t1));
    assert!(c.put(t2));
    assert!(c.is_zero());
}
