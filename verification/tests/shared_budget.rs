//! Scenarios that drive the coordinator together with per-cache stores,
//! playing the part the concurrency shell takes in a real process: claims
//! are routed through `InnerShared`, and each evicted id is handed back to
//! the store named by its registered holder tag.

use shared_lru::{EntryId, EntryMap, InnerShared, MemorySize};

const FRUITS: u8 = 1;
const VEGGIES: u8 = 2;

fn cost_of(key: &&'static str, value: &Vec<u8>) -> usize {
    MemorySize::bytes(key) + MemorySize::bytes(value)
}

fn insert(
    inner: &mut InnerShared<u8>,
    store: &mut EntryMap<&'static str, Vec<u8>>,
    tag: u8,
    other: &mut EntryMap<&'static str, Vec<u8>>,
    other_tag: u8,
    key: &'static str,
    value: Vec<u8>,
) -> Vec<(EntryId, u8)> {
    let cost = cost_of(&key, &value);
    let (granted, evicted) = inner.claim(cost, tag);
    for (id, owner) in &evicted {
        if *owner == tag {
            store.remove(*id);
        } else if *owner == other_tag {
            other.remove(*id);
        }
    }
    if let Some(id) = granted {
        store.insert(id, key, value);
    }
    evicted
}

fn get<'s>(
    inner: &mut InnerShared<u8>,
    store: &'s EntryMap<&'static str, Vec<u8>>,
    key: &&'static str,
) -> Option<&'s Vec<u8>> {
    let id = store.get_id(key)?;
    inner.touch(id);
    store.get(key)
}

#[test]
fn round_trip_insert_then_get() {
    let mut inner: InnerShared<u8> = InnerShared::new(1 << 20);
    let mut fruits: EntryMap<&'static str, Vec<u8>> = EntryMap::default();
    let mut unused: EntryMap<&'static str, Vec<u8>> = EntryMap::default();

    insert(&mut inner, &mut fruits, FRUITS, &mut unused, VEGGIES, "apple", vec![7u8; 16]);
    assert_eq!(get(&mut inner, &fruits, &"apple"), Some(&vec![7u8; 16]));
}

#[test]
fn shared_budget_scenario_across_two_caches() {
    let mut inner: InnerShared<u8> = InnerShared::new(2560);
    let mut fruits: EntryMap<&'static str, Vec<u8>> = EntryMap::default();
    let mut veggies: EntryMap<&'static str, Vec<u8>> = EntryMap::default();

    let cost = cost_of(&"apple", &vec![0u8; 1024]);
    assert!(2 * cost <= 2560, "two entries must fit the budget");
    assert!(3 * cost > 2560, "a third entry must overflow the budget");

    let evicted = insert(
        &mut inner, &mut fruits, FRUITS, &mut veggies, VEGGIES, "apple", vec![0u8; 1024],
    );
    assert!(evicted.is_empty());
    let evicted = insert(
        &mut inner, &mut fruits, FRUITS, &mut veggies, VEGGIES, "banana", vec![0u8; 1024],
    );
    assert!(evicted.is_empty());
    assert_eq!(inner.used_bytes(), 2 * cost);

    // Touch "apple" so "banana" is the globally oldest entry.
    assert!(get(&mut inner, &fruits, &"apple").is_some());

    // A third entry in another cache sharing the budget evicts "banana".
    let banana_id = fruits.get_id(&"banana").unwrap();
    let evicted = insert(
        &mut inner, &mut veggies, VEGGIES, &mut fruits, FRUITS, "brocolli", vec![0u8; 1024],
    );
    assert_eq!(evicted.len(), 1);
    assert_eq!(evicted[0], (banana_id, FRUITS));

    assert!(get(&mut inner, &fruits, &"apple").is_some());
    assert!(get(&mut inner, &fruits, &"banana").is_none());
    assert!(get(&mut inner, &veggies, &"brocolli").is_some());

    // The evicted entry's bytes were given back: the budget holds two costs.
    assert_eq!(inner.used_bytes(), 2 * cost);
}

#[test]
fn oversized_insert_is_a_no_op() {
    let mut inner: InnerShared<u8> = InnerShared::new(100);
    let mut fruits: EntryMap<&'static str, Vec<u8>> = EntryMap::default();
    let mut unused: EntryMap<&'static str, Vec<u8>> = EntryMap::default();

    let value = vec![0u8; 200];
    assert!(cost_of(&"huge", &value) > 100);
    let evicted = insert(&mut inner, &mut fruits, FRUITS, &mut unused, VEGGIES, "huge", value);

    assert!(evicted.is_empty());
    assert_eq!(inner.used_bytes(), 0);
    assert!(get(&mut inner, &fruits, &"huge").is_none());
}

#[test]
fn reinserting_a_key_keeps_exactly_one_value() {
    let mut inner: InnerShared<u8> = InnerShared::new(1 << 20);
    let mut fruits: EntryMap<&'static str, Vec<u8>> = EntryMap::default();
    let mut unused: EntryMap<&'static str, Vec<u8>> = EntryMap::default();

    insert(&mut inner, &mut fruits, FRUITS, &mut unused, VEGGIES, "apple", vec![1u8; 8]);
    let stale_id = fruits.get_id(&"apple").unwrap();

    insert(&mut inner, &mut fruits, FRUITS, &mut unused, VEGGIES, "apple", vec![2u8; 8]);
    let live_id = fruits.get_id(&"apple").unwrap();

    assert_ne!(stale_id, live_id);
    assert_eq!(get(&mut inner, &fruits, &"apple"), Some(&vec![2u8; 8]));

    // The stale id no longer holds a value in the store: a late eviction
    // of it is a silent no-op and cannot disturb the live entry.
    assert_eq!(fruits.remove(stale_id), None);
    assert_eq!(get(&mut inner, &fruits, &"apple"), Some(&vec![2u8; 8]));
}

#[test]
fn eviction_for_a_dropped_cache_is_skipped() {
    let mut inner: InnerShared<u8> = InnerShared::new(2560);
    let mut fruits: EntryMap<&'static str, Vec<u8>> = EntryMap::default();
    let mut veggies: EntryMap<&'static str, Vec<u8>> = EntryMap::default();

    insert(&mut inner, &mut fruits, FRUITS, &mut veggies, VEGGIES, "apple", vec![0u8; 1024]);
    insert(&mut inner, &mut veggies, VEGGIES, &mut fruits, FRUITS, "beet", vec![0u8; 1024]);

    // Drop the fruits cache while the coordinator still tracks its entry.
    drop(fruits);

    // The next claim names the fruits entry as victim; with its owner gone
    // there is nothing to evict, and the other cache works on undisturbed.
    let (granted, evicted) = inner.claim(cost_of(&"kale", &vec![0u8; 1024]), VEGGIES);
    assert_eq!(evicted.len(), 1);
    assert_eq!(evicted[0].1, FRUITS);
    for (id, owner) in &evicted {
        if *owner == VEGGIES {
            veggies.remove(*id);
        }
        // owners that no longer exist are skipped
        let _ = id;
    }
    veggies.insert(granted.unwrap(), "kale", vec![0u8; 1024]);

    assert!(get(&mut inner, &veggies, &"beet").is_some());
    assert!(get(&mut inner, &veggies, &"kale").is_some());
}
