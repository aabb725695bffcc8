use shared_lru::lru_map::LruMap;

#[test]
fn empty_pop_is_none() {
    let mut map: LruMap<u8, u8> = LruMap::new();
    assert_eq!(map.take_oldest(), None);
}

#[test]
fn empty() {
    let mut map: LruMap<u8, ()> = LruMap::new();
    assert_eq!(map.set_newest(42), None);
}

#[test]
fn one_item() {
    let mut map: LruMap<u8, ()> = LruMap::new();
    map.insert(42, ());

    assert_eq!(map.set_newest(42), Some(()));
}

#[test]
fn oldest_item() {
    let mut map: LruMap<u8, ()> = LruMap::new();
    map.insert(42, ());
    map.insert(43, ());

    assert_eq!(map.set_newest(42), Some(()));
    assert_eq!(map.take_oldest(), Some((43, ())));
}

#[test]
fn middle_item() {
    let mut map: LruMap<u8, ()> = LruMap::new();
    map.insert(42, ());
    map.insert(43, ());
    map.insert(44, ());

    map.set_newest(43);

    assert_eq!(map.take_oldest(), Some((42, ())));
    assert_eq!(map.take_oldest(), Some((44, ())));
    assert_eq!(map.take_oldest(), Some((43, ())));
}

#[test]
fn insert_order_is_recency_order() {
    let mut map: LruMap<u8, u8> = LruMap::new();
    map.insert(1, 10);
    map.insert(2, 20);
    map.insert(3, 30);

    assert!(map.contains_key(&2));
    assert_eq!(map.len(), 3);
    assert_eq!(map.take_oldest(), Some((1, 10)));
    assert_eq!(map.take_oldest(), Some((2, 20)));
    assert_eq!(map.take_oldest(), Some((3, 30)));
    assert_eq!(map.take_oldest(), None);
}

#[test]
fn unlink_and_relink() {
    let mut map: LruMap<u8, u8> = LruMap::new();
    map.insert(1, 10);
    map.insert(2, 20);

    assert_eq!(map.remove_entry(1), Some(()));
    assert!(map.contains_key(&1));
    assert_eq!(map.insert_newest(1), Some(()));
    assert_eq!(map.take_oldest(), Some((2, 20)));
    assert_eq!(map.take_oldest(), Some((1, 10)));
}
