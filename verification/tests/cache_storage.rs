use idcache::CacheStorage;

fn collect_data<T: Clone>(storage: &CacheStorage<T>) -> Vec<(usize, T)> {
    storage
        .iter()
        .into_iter()
        .map(|(id, data)| (id, data.clone()))
        .collect()
}

#[test]
fn test_cache_storage() {
    let mut storage: CacheStorage<usize> = CacheStorage::new();

    assert_eq!(storage.len(), 0);
    assert_eq!(collect_data(&storage), vec![]);

    let first_id = storage.insert(42);
    assert_eq!(first_id, 0);
    assert_eq!(storage.len(), 1);
    assert_eq!(*storage.get(first_id), 42);
    *storage.get_mut(first_id) *= 2;
    assert_eq!(*storage.get(first_id), 42 * 2);
    assert_eq!(collect_data(&storage), vec![(first_id, 42 * 2)]);

    let second_id = storage.insert(111);
    assert_eq!(second_id, 1);
    assert_eq!(storage.len(), 2);
    assert_eq!(*storage.get(second_id), 111);
    *storage.get_mut(second_id) *= 2;
    assert_eq!(*storage.get(second_id), 111 * 2);
    assert_eq!(
        collect_data(&storage),
        vec![(first_id, 42 * 2), (second_id, 111 * 2)]
    );

    storage.remove(first_id);
    assert_eq!(storage.len(), 2);
    assert_eq!(
        collect_data(&storage),
        vec![(first_id, 42 * 2), (second_id, 111 * 2)]
    );

    let first_id = storage.insert(10);
    assert_eq!(first_id, 0);
    assert_eq!(storage.len(), 2);
    assert_eq!(*storage.get(first_id), 10);
    *storage.get_mut(first_id) *= 2;
    assert_eq!(*storage.get(first_id), 10 * 2);
    assert_eq!(
        collect_data(&storage),
        vec![(first_id, 10 * 2), (second_id, 111 * 2)]
    );

    let storage = CacheStorage::<i32>::with_capacity(10);
    assert_eq!(storage.len(), 0);
    assert_eq!(collect_data(&storage), vec![]);
}

#[test]
fn test_cache_storage_try_insert() {
    let mut storage = CacheStorage::with_capacity(3);
    let id = storage.try_insert(0);
    assert!(id.is_some());
    assert_eq!(*storage.get(id.unwrap()), 0);

    let id = storage.try_insert(1);
    assert!(id.is_some());
    assert_eq!(*storage.get(id.unwrap()), 1);

    let id = storage.try_insert(2);
    assert!(id.is_some());
    assert_eq!(*storage.get(id.unwrap()), 2);
    let last_id = id.unwrap();

    let id = storage.try_insert(3);
    assert!(id.is_none());

    storage.remove(last_id);

    let id = storage.try_insert(3);
    assert!(id.is_some());
    assert_eq!(*storage.get(id.unwrap()), 3);
}

#[test]
fn test_cache_storage_into_vec() {
    let mut storage = CacheStorage::new();
    let range = 0..5;
    let expected = range.clone().collect::<Vec<_>>();

    for i in range {
        storage.insert(i);
    }

    let stored = storage.into_vec();

    assert_eq!(stored, expected);
}

#[test]
fn test_cache_storage_extend() {
    let mut storage = CacheStorage::with_capacity(5);
    storage.extend(vec![1, 2, 3]);

    let values: Vec<i32> = storage.iter().into_iter().map(|(_, v)| *v).collect();
    assert_eq!(values, vec![1, 2, 3]);
    assert_eq!(*storage.free_ids(), vec![4, 3]);

    storage.extend(vec![4, 5, 6]);
    let values: Vec<i32> = storage.iter().into_iter().map(|(_, v)| *v).collect();
    assert_eq!(values, vec![1, 2, 3, 4, 5, 6]);
    assert_eq!(*storage.free_ids(), vec![]);
}

#[test]
fn test_extend_matches_repeated_inserts() {
    // extending is repeated single insertion in iteration order: same ids,
    // same final contents
    let values = vec![7, 8, 9, 10];

    let mut extended = CacheStorage::with_capacity(2);
    let seed = extended.insert(0);
    extended.remove(seed);
    extended.extend(values.clone());

    let mut inserted = CacheStorage::with_capacity(2);
    let seed = inserted.insert(0);
    inserted.remove(seed);
    let mut ids = vec![];
    for v in values {
        ids.push(inserted.insert(v));
    }

    assert_eq!(collect_data(&extended), collect_data(&inserted));
    assert_eq!(ids, vec![0, 1, 2, 3]);
}

#[test]
fn test_insert_remove_roundtrip() {
    // inserting a value and reading it back through the returned id yields
    // the value; after removal the id is reused by the very next insert,
    // which overwrites the stale slot
    let mut storage = CacheStorage::new();
    let id = storage.insert("alpha");
    assert_eq!(*storage.get(id), "alpha");

    storage.remove(id);
    let reused = storage.insert("beta");
    assert_eq!(reused, id);
    assert_eq!(*storage.get(id), "beta");
    assert_eq!(storage.len(), 1);
}

#[test]
fn test_insert_with_id_bulk_load() {
    // sequential direct writes fill a pre-seeded storage without touching
    // the allocator
    let mut storage = CacheStorage::with_capacity(3);
    storage.insert_with_id(0, 'a');
    storage.insert_with_id(1, 'b');
    storage.insert_with_id(2, 'c');
    assert_eq!(storage.len(), 3);
    assert_eq!(*storage.get(0), 'a');
    assert_eq!(*storage.get(1), 'b');
    assert_eq!(*storage.get(2), 'c');

    // overwrite an existing slot in place
    storage.insert_with_id(1, 'z');
    assert_eq!(*storage.get(1), 'z');
    assert_eq!(storage.len(), 3);
}

#[test]
fn test_remove_chunk() {
    let mut storage = CacheStorage::new();
    let ids: Vec<usize> = (0..5).map(|i| storage.insert(i * 100)).collect();
    assert_eq!(ids, vec![0, 1, 2, 3, 4]);

    storage.remove_chunk(vec![1, 3]);
    assert_eq!(*storage.free_ids(), vec![1, 3]);
    assert_eq!(storage.len(), 5);

    // the freed ids come back in stack order
    assert_eq!(storage.insert(777), 3);
    assert_eq!(storage.insert(888), 1);
    assert_eq!(*storage.get(3), 777);
    assert_eq!(*storage.get(1), 888);
}
