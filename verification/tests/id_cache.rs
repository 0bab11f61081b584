use idcache::IdCache;
use std::collections::HashSet;
use std::iter::FromIterator;

#[test]
fn test_id_cache() {
    let mut cache = IdCache::new();
    assert_eq!(cache.top_id(), 0);
    assert!(cache.free_ids().is_empty());

    let new_id = cache.acquire_id();
    assert_eq!(new_id, 0);
    assert_eq!(cache.top_id(), 1);
    assert!(cache.free_ids().is_empty());

    let new_id = cache.acquire_id();
    assert_eq!(new_id, 1);
    assert_eq!(cache.top_id(), 2);
    assert!(cache.free_ids().is_empty());

    let new_id = cache.acquire_id();
    assert_eq!(new_id, 2);
    assert_eq!(cache.top_id(), 3);
    assert!(cache.free_ids().is_empty());

    cache.release_id(2);
    assert_eq!(cache.top_id(), 3);
    assert_eq!(*cache.free_ids(), vec![2]);

    cache.release_id(1);
    assert_eq!(cache.top_id(), 3);
    assert_eq!(*cache.free_ids(), vec![2, 1]);

    let new_id = cache.acquire_id();
    assert_eq!(new_id, 1);
    assert_eq!(cache.top_id(), 3);
    assert_eq!(*cache.free_ids(), vec![2]);

    let new_id = cache.acquire_id();
    assert_eq!(new_id, 2);
    assert_eq!(cache.top_id(), 3);
    assert!(cache.free_ids().is_empty());

    let new_id = cache.acquire_id();
    assert_eq!(new_id, 3);
    assert_eq!(cache.top_id(), 4);
    assert!(cache.free_ids().is_empty());
}

#[test]
fn test_id_cache_remove_ids() {
    let mut cache = IdCache::new();

    let mut ids = vec![];

    ids.push(cache.acquire_id());

    ids.push(cache.acquire_id());

    ids.push(cache.acquire_id());

    ids.push(cache.acquire_id());

    ids.push(cache.acquire_id());

    cache.release_ids(ids.clone());

    let mut new_ids = vec![];
    for _ in 0..ids.len() {
        new_ids.push(cache.acquire_id())
    }

    let ids: HashSet<_> = HashSet::from_iter(ids);
    let new_ids = HashSet::from_iter(new_ids);

    assert_eq!(new_ids, ids);
}

#[test]
fn test_id_cache_with_capacity() {
    let capacity = 10;
    let mut cache = IdCache::with_capacity(capacity);
    assert_eq!(cache.top_id(), capacity);
    assert_eq!(*cache.free_ids(), vec![9, 8, 7, 6, 5, 4, 3, 2, 1, 0]);
    assert_eq!(cache.free_ids_num(), capacity);

    for i in 1..=capacity {
        cache.acquire_id();
        assert_eq!(*cache.free_ids(), (i..capacity).rev().collect::<Vec<_>>());
        assert_eq!(cache.free_ids_num(), capacity - i);
    }

    assert_eq!(cache.top_id(), capacity);
    assert_eq!(*cache.free_ids(), vec![]);
    assert_eq!(cache.free_ids_num(), 0);

    let new_id = cache.acquire_id();
    assert_eq!(new_id, capacity);
    assert_eq!(cache.top_id(), capacity + 1);
    assert_eq!(cache.free_ids_num(), 0);

    cache.release_id(9);
    assert_eq!(cache.top_id(), capacity + 1);
    assert_eq!(*cache.free_ids(), vec![9]);
    assert_eq!(cache.free_ids_num(), 1);
}

#[test]
fn test_try_acquire_id() {
    let mut cache = IdCache::new();

    assert!(cache.try_acquire_id().is_none());

    let src_id = cache.acquire_id();
    cache.release_id(src_id);
    let freed_id = cache.try_acquire_id();
    assert!(freed_id.is_some());
    assert_eq!(freed_id.unwrap(), src_id);
}

#[test]
fn test_no_duplicate_outstanding_ids() {
    // a long mixed acquire/release workload, checked against a reference
    // set of outstanding ids: no id is ever issued while still held
    let mut cache = IdCache::new();
    let mut outstanding: HashSet<usize> = HashSet::new();

    for round in 0..50usize {
        for _ in 0..(round % 7 + 1) {
            let id = cache.acquire_id();
            assert!(
                outstanding.insert(id),
                "id issued twice while outstanding"
            );
        }
        // release a deterministic subset
        let held: Vec<usize> = outstanding.iter().cloned().collect();
        for id in held {
            if (id + round) % 3 == 0 {
                cache.release_id(id);
                outstanding.remove(&id);
            }
        }
    }

    // drain: every remaining free id must come back exactly once
    let free_count = cache.free_ids_num();
    for _ in 0..free_count {
        let id = cache.acquire_id();
        assert!(outstanding.insert(id));
    }
    assert_eq!(cache.free_ids_num(), 0);
}

#[test]
fn test_reset() {
    let mut cache = IdCache::with_capacity(4);
    assert_eq!(cache.acquire_id(), 0);
    assert_eq!(cache.acquire_id(), 1);
    cache.release_id(0);

    cache.reset();
    assert_eq!(cache.top_id(), 0);
    assert_eq!(cache.free_ids_num(), 0);

    // after a reset the allocator starts over from 0
    assert_eq!(cache.acquire_id(), 0);
    assert_eq!(cache.acquire_id(), 1);
}
