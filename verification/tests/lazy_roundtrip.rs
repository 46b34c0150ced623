use lazy_storage::key::{Key, KeyPtr};
use lazy_storage::store::CellStore;
use lazy_storage::vec::Vec as StorageVec;

#[test]
fn vec_flush_and_pull_round_trips() {
    let mut store = CellStore::new();
    let base = Key::from_u64(1000);

    let mut vec = StorageVec::<u8>::new();
    vec.push(b'a', &store);
    vec.push(b'b', &store);
    vec.push(b'c', &store);

    let mut ptr = KeyPtr::from_key(base);
    vec.push_spread(&mut ptr, &mut store);
    // Footprint linearity: the walk advanced by exactly two cells.
    assert_eq!(ptr.key, base.add_u64(2));

    let mut ptr = KeyPtr::from_key(base);
    let mut pulled = StorageVec::<u8>::pull_spread(&mut ptr, &store);
    assert_eq!(ptr.key, base.add_u64(2));
    assert_eq!(pulled.len(&store), 3);
    assert_eq!(pulled.get(0, &store), Some(b'a'));
    assert_eq!(pulled.get(1, &store), Some(b'b'));
    assert_eq!(pulled.get(2, &store), Some(b'c'));
    assert_eq!(pulled.get(3, &store), None);
}

#[test]
fn three_records_flush_minimality() {
    let mut store = CellStore::new();
    let base = Key::from_u64(2000);

    let mut vec = StorageVec::<u8>::new();
    vec.push(1, &store);
    vec.push(2, &store);
    vec.push(3, &store);

    let mut ptr = KeyPtr::from_key(base);
    vec.push_spread(&mut ptr, &mut store);

    let mut ptr = KeyPtr::from_key(base);
    let mut pulled = StorageVec::<u8>::pull_spread(&mut ptr, &store);
    assert_eq!(pulled.get(1, &store), Some(2));

    let writes_before = store.write_count();
    let mut ptr = KeyPtr::from_key(base);
    pulled.push_spread(&mut ptr, &mut store);
    // An untouched vector flushes without a single host write.
    assert_eq!(store.write_count(), writes_before);
}

#[test]
fn vec_clear_spread_leaves_region_absent() {
    let mut store = CellStore::new();
    let base = Key::from_u64(3000);

    let mut vec = StorageVec::<u8>::new();
    vec.push(b'x', &store);
    vec.push(b'y', &store);

    let mut ptr = KeyPtr::from_key(base);
    vec.push_spread(&mut ptr, &mut store);
    assert!(store.contains(&base));
    assert!(store.contains(&base.add_u64(1)));
    assert!(store.contains(&base.add_u64(2)));

    let mut ptr = KeyPtr::from_key(base);
    let mut pulled = StorageVec::<u8>::pull_spread(&mut ptr, &store);
    let mut ptr = KeyPtr::from_key(base);
    pulled.clear_spread(&mut ptr, &mut store);
    assert_eq!(ptr.key, base.add_u64(2));
    assert!(!store.contains(&base));
    assert!(!store.contains(&base.add_u64(1)));
    assert!(!store.contains(&base.add_u64(2)));
}

#[test]
fn swap_twice_restores_all_reads() {
    let store = CellStore::new();
    let mut vec = StorageVec::<u8>::from_slice(&[10, 20, 30, 40]);
    vec.swap(1, 3, &store);
    vec.swap(1, 3, &store);
    assert_eq!(vec.get(0, &store), Some(10));
    assert_eq!(vec.get(1, &store), Some(20));
    assert_eq!(vec.get(2, &store), Some(30));
    assert_eq!(vec.get(3, &store), Some(40));
}

#[test]
fn swap_remove_matches_swap_then_pop() {
    let store = CellStore::new();
    let mut a = StorageVec::<u8>::from_slice(&[5, 6, 7, 8]);
    let mut b = StorageVec::<u8>::from_slice(&[5, 6, 7, 8]);

    let removed = a.swap_remove(1, &store);
    let len = b.len(&store);
    b.swap(1, len - 1, &store);
    let popped = b.pop(&store);

    assert_eq!(removed, popped);
    assert!(a.equals(&mut b, &store, &store));
}
