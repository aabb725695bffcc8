use shared_lru::{AllocResult, Allocator, EntryId, EntryMap};

fn mint(a: &mut Allocator) -> EntryId {
    match a.try_alloc(1) {
        AllocResult::Success(id) => id,
        other => panic!("expected a successful allocation, got {:?}", other),
    }
}

#[test]
fn store_round_trip_and_removal() {
    let mut a = Allocator::new(1000);
    let mut store: EntryMap<String, u32> = EntryMap::default();

    let id = mint(&mut a);
    store.insert(id, String::from("k"), 5);
    assert_eq!(store.get(&String::from("k")), Some(&5));
    assert_eq!(store.get_id(&String::from("k")), Some(id));

    assert_eq!(store.remove(id), Some((String::from("k"), 5)));
    assert_eq!(store.get(&String::from("k")), None);
    assert_eq!(store.get_id(&String::from("k")), None);

    // Removing an id twice is a silent no-op.
    assert_eq!(store.remove(id), None);
}

#[test]
fn lookup_misses_are_none() {
    let store: EntryMap<String, u32> = EntryMap::default();
    assert_eq!(store.get(&String::from("missing")), None);
    assert_eq!(store.get_id(&String::from("missing")), None);
}
