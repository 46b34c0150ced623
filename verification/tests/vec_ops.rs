use lazy_storage::store::CellStore;
use lazy_storage::vec::Vec as StorageVec;

/// Asserts conditions are met for the given storage vector.
fn assert_vec<F, L>(vec: &mut StorageVec<u8>, store: &CellStore, len: u32, first: F, last: L)
where
    F: Into<Option<u8>>,
    L: Into<Option<u8>>,
{
    assert_eq!(vec.is_empty(store), len == 0);
    assert_eq!(vec.len(store), len);
    assert_eq!(vec.first(store), first.into());
    assert_eq!(vec.last(store), last.into());
}

/// Asserts that the given ordered storage vector elements are equal to the
/// ordered elements of the given slice.
fn assert_eq_slice(vec: &mut StorageVec<u8>, store: &CellStore, slice: &[u8]) {
    assert_eq!(vec.len(store) as usize, slice.len());
    assert!(vec.iter(store).iter().zip(slice.iter()).all(|(lhs, rhs)| *lhs == *rhs))
}

/// Creates a storage vector from the given slice.
fn vec_from_slice(slice: &[u8]) -> StorageVec<u8> {
    StorageVec::from_slice(slice)
}

#[test]
fn new_vec_works() {
    let store = CellStore::new();
    // `StorageVec::new`
    let mut vec = <StorageVec<i32>>::new();
    assert!(vec.is_empty(&store));
    assert_eq!(vec.len(&store), 0);
    assert_eq!(vec.get(0, &store), None);
    assert!(vec.iter(&store).into_iter().next().is_none());
    // `StorageVec::default`
    let mut default = <StorageVec<i32> as Default>::default();
    assert!(default.is_empty(&store));
    assert_eq!(default.len(&store), 0);
    assert_eq!(vec.get(0, &store), None);
    assert!(default.iter(&store).into_iter().next().is_none());
    // `StorageVec::new` and `StorageVec::default` should be equal.
    assert!(vec.equals(&mut default, &store, &store));
}

#[test]
fn from_iterator_works() {
    let store = CellStore::new();
    let some_primes = [1, 2, 3, 5, 7, 11, 13];
    let mut collected = StorageVec::from_slice(&some_primes);
    let mut pushed = StorageVec::new();
    for prime in &some_primes {
        pushed.push(*prime, &store)
    }
    assert!(collected.equals(&mut pushed, &store, &store));
}

#[test]
fn from_empty_iterator_works() {
    let store = CellStore::new();
    let mut collected = StorageVec::<i32>::from_slice(&[]);
    let mut fresh = StorageVec::<i32>::new();
    assert!(collected.equals(&mut fresh, &store, &store));
}

#[test]
fn push_pop_first_last_works() {
    let store = CellStore::new();
    let mut vec = StorageVec::new();
    assert_vec(&mut vec, &store, 0, None, None);

    // Sequence of `push`
    vec.push(b'a', &store);
    assert_vec(&mut vec, &store, 1, b'a', b'a');
    vec.push(b'b', &store);
    assert_vec(&mut vec, &store, 2, b'a', b'b');
    vec.push(b'c', &store);
    assert_vec(&mut vec, &store, 3, b'a', b'c');
    vec.push(b'd', &store);
    assert_vec(&mut vec, &store, 4, b'a', b'd');

    // Sequence of `pop`
    assert_eq!(vec.pop(&store), Some(b'd'));
    assert_vec(&mut vec, &store, 3, b'a', b'c');
    assert_eq!(vec.pop(&store), Some(b'c'));
    assert_vec(&mut vec, &store, 2, b'a', b'b');
    assert_eq!(vec.pop(&store), Some(b'b'));
    assert_vec(&mut vec, &store, 1, b'a', b'a');
    assert_eq!(vec.pop(&store), Some(b'a'));
    assert_vec(&mut vec, &store, 0, None, None);

    // Pop from empty vector.
    assert_eq!(vec.pop(&store), None);
    assert_vec(&mut vec, &store, 0, None, None);
}

#[test]
fn pop_drop_works() {
    let store = CellStore::new();
    let elems = [b'a', b'b', b'c', b'd'];
    let mut vec = vec_from_slice(&elems);
    assert_eq!(vec.pop_drop(&store), Some(()));
    assert_eq_slice(&mut vec, &store, &elems[0..3]);
    assert_eq!(vec.pop_drop(&store), Some(()));
    assert_eq_slice(&mut vec, &store, &elems[0..2]);
    assert_eq!(vec.pop_drop(&store), Some(()));
    assert_eq_slice(&mut vec, &store, &elems[0..1]);
    assert_eq!(vec.pop_drop(&store), Some(()));
    assert_eq_slice(&mut vec, &store, &[]);
    assert_eq!(vec.pop_drop(&store), None);
    assert_eq_slice(&mut vec, &store, &[]);
}

#[test]
fn iter_next_works() {
    let store = CellStore::new();
    let elems = [b'a', b'b', b'c', b'd'];
    let mut vec = vec_from_slice(&elems);
    let items = vec.iter(&store);
    let mut iter = items.iter();
    assert_eq!(iter.next(), Some(&b'a'));
    assert_eq!(iter.next(), Some(&b'b'));
    assert_eq!(iter.next(), Some(&b'c'));
    assert_eq!(iter.next(), Some(&b'd'));
    assert_eq!(iter.next(), None);
}

#[test]
fn iter_next_back_works() {
    let store = CellStore::new();
    let elems = [b'a', b'b', b'c', b'd'];
    let mut vec = vec_from_slice(&elems);
    let items = vec.iter(&store);
    let mut iter = items.iter().rev();
    assert_eq!(iter.next(), Some(&b'd'));
    assert_eq!(iter.next(), Some(&b'c'));
    assert_eq!(iter.next(), Some(&b'b'));
    assert_eq!(iter.next(), Some(&b'a'));
    assert_eq!(iter.next(), None);
}

#[test]
fn swap_works() {
    let store = CellStore::new();
    let elems = [b'a', b'b', b'c', b'd'];
    let mut vec = vec_from_slice(&elems);

    // Swap at same position is a no-op.
    for index in 0..elems.len() as u32 {
        vec.swap(index, index, &store);
        assert_eq_slice(&mut vec, &store, &elems);
    }

    // Swap first and second
    vec.swap(0, 1, &store);
    assert_eq_slice(&mut vec, &store, &[b'b', b'a', b'c', b'd']);
    // Swap third and last
    vec.swap(2, 3, &store);
    assert_eq_slice(&mut vec, &store, &[b'b', b'a', b'd', b'c']);
    // Swap first and last
    vec.swap(0, 3, &store);
    assert_eq_slice(&mut vec, &store, &[b'c', b'a', b'd', b'b']);
}

#[test]
fn swap_remove_works() {
    let store = CellStore::new();
    let mut vec = vec_from_slice(&[b'a', b'b', b'c', b'd']);

    // Swap remove first element.
    assert_eq!(vec.swap_remove(0, &store), Some(b'a'));
    assert_eq_slice(&mut vec, &store, &[b'd', b'b', b'c']);
    // Swap remove middle element.
    assert_eq!(vec.swap_remove(1, &store), Some(b'b'));
    assert_eq_slice(&mut vec, &store, &[b'd', b'c']);
    // Swap remove last element.
    assert_eq!(vec.swap_remove(1, &store), Some(b'c'));
    assert_eq_slice(&mut vec, &store, &[b'd']);
    // Swap remove only element.
    assert_eq!(vec.swap_remove(0, &store), Some(b'd'));
    assert_eq_slice(&mut vec, &store, &[]);
    // Swap remove from empty vector.
    assert_eq!(vec.swap_remove(0, &store), None);
    assert_eq_slice(&mut vec, &store, &[]);
}

#[test]
fn swap_remove_drop_works() {
    let store = CellStore::new();
    let mut vec = vec_from_slice(&[b'a', b'b', b'c', b'd']);

    // Swap remove first element.
    assert_eq!(vec.swap_remove_drop(0, &store), Some(()));
    assert_eq_slice(&mut vec, &store, &[b'd', b'b', b'c']);
    // Swap remove middle element.
    assert_eq!(vec.swap_remove_drop(1, &store), Some(()));
    assert_eq_slice(&mut vec, &store, &[b'd', b'c']);
    // Swap remove last element.
    assert_eq!(vec.swap_remove_drop(1, &store), Some(()));
    assert_eq_slice(&mut vec, &store, &[b'd']);
    // Swap remove only element.
    assert_eq!(vec.swap_remove_drop(0, &store), Some(()));
    assert_eq_slice(&mut vec, &store, &[]);
    // Swap remove from empty vector.
    assert_eq!(vec.swap_remove_drop(0, &store), None);
    assert_eq_slice(&mut vec, &store, &[]);
}

#[test]
fn get_works() {
    let store = CellStore::new();
    let elems = [b'a', b'b', b'c', b'd'];
    let mut vec = vec_from_slice(&elems);
    for (n, mut expected) in elems.iter().copied().enumerate() {
        let n = n as u32;
        assert_eq!(vec.get(n, &store), Some(expected));
        assert_eq!(vec.get_mut(n, &store), Some(&mut expected));
    }
    let len = vec.len(&store);
    assert_eq!(vec.get(len, &store), None);
    assert_eq!(vec.get_mut(len, &store), None);
}

#[test]
fn first_mut_and_last_mut_write_through() {
    let store = CellStore::new();
    let mut vec = vec_from_slice(&[b'a', b'b', b'c']);
    *vec.first_mut(&store).unwrap() = b'x';
    *vec.last_mut(&store).unwrap() = b'z';
    assert_eq_slice(&mut vec, &store, &[b'x', b'b', b'z']);
    let mut empty = StorageVec::<u8>::new();
    assert!(empty.first_mut(&store).is_none());
    assert!(empty.last_mut(&store).is_none());
}
