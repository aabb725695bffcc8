use shared_lru::{AllocResult, Allocator, EntryId};

fn expect_success(r: AllocResult) -> EntryId {
    match r {
        AllocResult::Success(id) => id,
        other => panic!("expected a successful allocation, got {:?}", other),
    }
}

fn expect_evict(r: AllocResult) -> EntryId {
    match r {
        AllocResult::Evict(id) => id,
        other => panic!("expected an eviction, got {:?}", other),
    }
}

#[test]
fn rejects_requests_larger_than_the_budget() {
    let mut a = Allocator::new(100);
    assert!(matches!(a.try_alloc(101), AllocResult::TooLarge));
    assert_eq!(a.used_bytes(), 0);
    assert_eq!(a.capacity(), 100);
}

#[test]
fn charges_successful_allocations() {
    let mut a = Allocator::new(100);
    expect_success(a.try_alloc(60));
    assert_eq!(a.used_bytes(), 60);
    expect_success(a.try_alloc(40));
    assert_eq!(a.used_bytes(), 100);
}

#[test]
fn eviction_frees_exactly_the_victims_bytes() {
    let mut a = Allocator::new(100);
    let first = expect_success(a.try_alloc(60));
    assert_eq!(a.used_bytes(), 60);

    let victim = expect_evict(a.try_alloc(50));
    assert_eq!(victim, first);
    assert_eq!(a.used_bytes(), 0);

    expect_success(a.try_alloc(50));
    assert_eq!(a.used_bytes(), 50);
    assert!(a.used_bytes() <= a.capacity());
}

#[test]
fn evicts_the_oldest_allocation_first() {
    let mut a = Allocator::new(200);
    let first = expect_success(a.try_alloc(100));
    let second = expect_success(a.try_alloc(100));

    let victim = expect_evict(a.try_alloc(100));
    assert_eq!(victim, first);
    let third = expect_success(a.try_alloc(100));

    let victim = expect_evict(a.try_alloc(100));
    assert_eq!(victim, second);
    expect_success(a.try_alloc(100));
    let _ = third;
}

#[test]
fn touch_protects_an_entry_from_eviction() {
    let mut a = Allocator::new(200);
    let first = expect_success(a.try_alloc(100));
    let second = expect_success(a.try_alloc(100));

    a.set_newest(first);

    let victim = expect_evict(a.try_alloc(100));
    assert_eq!(victim, second);
}

#[test]
fn live_ids_are_unique_and_nonzero() {
    let mut a = Allocator::new(1000);
    let mut ids: Vec<EntryId> = Vec::new();
    for _ in 0..8 {
        ids.push(expect_success(a.try_alloc(100)));
    }
    for i in 0..ids.len() {
        for j in 0..ids.len() {
            if i != j {
                assert_ne!(ids[i], ids[j]);
            }
        }
    }
}

#[test]
fn zero_sized_allocations_are_tracked() {
    let mut a = Allocator::new(10);
    let first = expect_success(a.try_alloc(0));
    let second = expect_success(a.try_alloc(0));
    assert_ne!(first, second);
    assert_eq!(a.used_bytes(), 0);
}
