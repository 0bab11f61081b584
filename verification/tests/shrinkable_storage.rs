use idcache::ShrinkableStorage;
use std::collections::HashSet;
use std::iter::once;

#[test]
fn test_shrinkable_storage() {
    let src_data: HashSet<i32> = [1, 2, 3, 4, 5, 6, 7, 8, 9].iter().cloned().collect();
    let new_data: HashSet<i32> = [1, 2, 4, 7, 8].iter().cloned().collect();

    let mut storage = ShrinkableStorage::new();
    assert!(storage.is_empty());
    assert_eq!(storage.volume(), 0);

    storage.extend(src_data.iter().cloned().collect::<Vec<_>>());
    assert!(!storage.is_empty());
    assert_eq!(storage.volume(), src_data.len());

    let stored_data: HashSet<i32> = storage.iter().into_iter().map(|(_id, obj)| *obj).collect();

    assert_eq!(stored_data, src_data);

    let remove_ids: Vec<usize> = storage
        .iter()
        .into_iter()
        .filter_map(|(id, obj)| match *obj {
            3 | 5 | 6 => Some(id),
            _ => None,
        })
        .collect();

    storage.free_ids(remove_ids.clone());

    assert_eq!(storage.free_ids_num(), 3);

    let remove_id = storage
        .iter()
        .into_iter()
        .find_map(|(id, &obj)| if obj == 9 { Some(id) } else { None })
        .unwrap();

    storage.free_id(remove_id);

    for id in remove_ids.iter().chain(once(&remove_id)) {
        assert!(storage.is_id_free(id));
    }

    assert_eq!(storage.free_ids_num(), 4);
    assert!(!storage.is_empty());
    assert_eq!(storage.volume(), src_data.len());

    let new_storage = storage.shrink();
    let stored_data: HashSet<i32> = new_storage
        .iter()
        .into_iter()
        .map(|(_id, obj)| *obj)
        .collect();

    assert_eq!(stored_data, new_data);
    assert_eq!(storage.free_ids_num(), 4);
    assert!(!storage.is_empty());
    assert_eq!(storage.volume(), src_data.len());
    assert_eq!(new_storage.free_ids_num(), 0);
    assert!(!new_storage.is_empty());
    assert_eq!(new_storage.volume(), new_data.len());
}

#[test]
fn test_shrink_swap_removal_order() {
    // the compaction policy is pinned down: freed slots are swap-removed
    // from the highest id to the lowest, so with ids 3, 5, 6 and 8 freed
    // out of 0..9 the survivors end up as [0, 1, 2, 7, 4]
    let mut storage = ShrinkableStorage::new();
    for v in [10, 11, 12, 13, 14, 15, 16, 17, 18] {
        storage.insert(v);
    }
    storage.free_ids(vec![3, 5]);
    storage.free_id(6);
    storage.free_id(8);
    // marking an already-free id changes nothing
    storage.free_id(5);
    assert_eq!(storage.free_ids_num(), 4);

    let shrunk = storage.shrink();
    let values: Vec<i32> = shrunk.iter().into_iter().map(|(_, v)| *v).collect();
    assert_eq!(values, vec![10, 11, 12, 17, 14]);
    assert_eq!(shrunk.volume(), 5);
    assert_eq!(shrunk.free_ids_num(), 0);

    // the source is untouched
    assert_eq!(storage.volume(), 9);
    assert_eq!(storage.free_ids_num(), 4);
}

#[test]
fn test_insert_ids_are_tail_indices() {
    let mut storage = ShrinkableStorage::with_capacity(4);
    assert_eq!(storage.insert("a"), 0);
    assert_eq!(storage.insert("b"), 1);
    assert_eq!(storage.insert("c"), 2);
    assert_eq!(*storage.get(1), "b");
    *storage.get_mut(1) = "B";
    assert_eq!(*storage.get(1), "B");

    // freeing never reuses an id at insert time
    storage.free_id(1);
    assert_eq!(storage.insert("d"), 3);
    assert_eq!(storage.volume(), 4);
}

#[test]
fn test_restore_freed() {
    let mut storage = ShrinkableStorage::new();
    for v in 0..5 {
        storage.insert(v);
    }
    storage.free_ids(vec![0, 2, 4]);
    assert_eq!(storage.free_ids_num(), 3);
    assert!(storage.is_id_free(&2));

    storage.restore_freed();
    assert_eq!(storage.free_ids_num(), 0);
    assert!(!storage.is_id_free(&2));
    assert_eq!(storage.volume(), 5);
}

#[test]
fn test_retain() {
    let mut storage = ShrinkableStorage::new();
    for v in [1, 2, 3, 4, 5, 6] {
        storage.insert(v);
    }
    storage.free_id(0);

    storage.retain(|v: &i32| v % 2 == 0);

    let values: Vec<i32> = storage.iter().into_iter().map(|(_, v)| *v).collect();
    assert_eq!(values, vec![2, 4, 6]);
    // retain does not touch the free set
    assert_eq!(storage.free_ids_num(), 1);
    assert!(storage.is_id_free(&0));
}

#[test]
fn test_iter_ids() {
    let mut storage = ShrinkableStorage::new();
    for v in [7, 8, 9] {
        storage.insert(v);
    }
    storage.free_id(1);
    // freed ids are still iterated; the caller filters with is_id_free
    assert_eq!(storage.iter_ids(), vec![0, 1, 2]);
}
