use lazy_storage::key::{Key, KeyPtr};
use lazy_storage::lazy_array::LazyArray;
use lazy_storage::store::CellStore;

#[test]
fn lazy_array_put_get_take_swap() {
    let store = CellStore::new();
    let mut arr = LazyArray::<u8, 4>::new();
    assert_eq!(LazyArray::<u8, 4>::capacity(), 4);
    assert!(arr.key().is_none());
    assert!(arr.key_at(0).is_none());

    arr.put(0, Some(b'x'));
    arr.put(1, Some(b'y'));
    assert_eq!(arr.get(0, &store), Some(b'x'));
    assert_eq!(arr.get(1, &store), Some(b'y'));

    arr.swap(0, 1, &store);
    assert_eq!(arr.get(0, &store), Some(b'y'));
    assert_eq!(arr.get(1, &store), Some(b'x'));

    assert_eq!(arr.take(0, &store), Some(b'y'));
    assert_eq!(arr.get(0, &store), None);

    assert_eq!(arr.put_get(1, Some(b'z'), &store), Some(b'x'));
    assert_eq!(arr.get(1, &store), Some(b'z'));

    *arr.get_mut(1, &store).unwrap() = b'w';
    assert_eq!(arr.get(1, &store), Some(b'w'));
}

#[test]
fn lazy_array_flush_writes_mutated_slots_only() {
    let mut store = CellStore::new();
    let base = Key::from_u64(800);

    let mut ptr = KeyPtr::from_key(base);
    let mut arr = LazyArray::<u8, 8>::pull_spread(&mut ptr);
    assert_eq!(ptr.key, base.add_u64(8));
    assert_eq!(arr.key_at(3).unwrap(), base.add_u64(3));

    arr.put(3, Some(42));
    let mut ptr = KeyPtr::from_key(base);
    arr.push_spread(&mut ptr, &mut store);
    assert_eq!(store.write_count(), 1);
    assert_eq!(store.get(&base.add_u64(3)).map(|v| v.clone()), Some(vec![42]));

    // An untouched array flushes without any host write.
    let mut ptr = KeyPtr::from_key(base);
    let mut fresh = LazyArray::<u8, 8>::pull_spread(&mut ptr);
    assert_eq!(fresh.get(3, &store), Some(42));
    let before = store.write_count();
    let mut ptr = KeyPtr::from_key(base);
    fresh.push_spread(&mut ptr, &mut store);
    assert_eq!(store.write_count(), before);
}
