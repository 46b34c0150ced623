use lazy_storage::key::{Key, KeyPtr};
use lazy_storage::layout::{PackedLayout, SpreadLayout};
use lazy_storage::store::CellStore;

#[test]
fn store_set_get_clear_works() {
    let mut store = CellStore::new();
    let key = Key::from_u64(42);
    assert!(store.get(&key).is_none());
    store.set(&key, vec![1, 2, 3]);
    assert_eq!(store.get(&key).map(|v| v.clone()), Some(vec![1, 2, 3]));
    assert!(store.contains(&key));
    assert_eq!(store.write_count(), 1);
    store.clear(&key);
    assert!(store.get(&key).is_none());
    assert_eq!(store.write_count(), 2);
}

#[test]
fn key_addition_carries_across_limbs() {
    let key = Key { w0: u64::MAX, w1: 0, w2: 0, w3: 0 };
    let next = key.add_u64(1);
    assert_eq!(next, Key { w0: 0, w1: 1, w2: 0, w3: 0 });
    let far = Key { w0: u64::MAX, w1: u64::MAX, w2: u64::MAX, w3: 0 };
    let wrapped = far.add_u64(5);
    assert_eq!(wrapped, Key { w0: 4, w1: 0, w2: 0, w3: 1 });
}

#[test]
fn u32_payload_is_little_endian() {
    let v: u32 = 0x0102_0304;
    assert_eq!(v.encode(), vec![0x04, 0x03, 0x02, 0x01]);
    assert_eq!(<u32 as PackedLayout>::decode(&[0x04, 0x03, 0x02, 0x01]), Some(v));
    assert_eq!(<u32 as PackedLayout>::decode(&[0x04, 0x03, 0x02]), None);
}

#[test]
fn signed_payload_round_trips() {
    let v: i32 = -123456;
    let enc = v.encode();
    assert_eq!(<i32 as PackedLayout>::decode(&enc), Some(v));
}

#[test]
fn bool_payload_is_canonical() {
    assert_eq!(true.encode(), vec![1]);
    assert_eq!(false.encode(), vec![0]);
    assert_eq!(<bool as PackedLayout>::decode(&[0]), Some(false));
    assert_eq!(<bool as PackedLayout>::decode(&[1]), Some(true));
    assert_eq!(<bool as PackedLayout>::decode(&[2]), None);
}

#[test]
fn push_pull_clear_spread_round_trip() {
    let mut store = CellStore::new();
    let base = Key::from_u64(100);

    let mut ptr = KeyPtr::from_key(base);
    let value: u32 = 0xdead_beef;
    value.push_spread(&mut ptr, &mut store);
    // Footprint linearity: the cursor advanced by exactly one cell.
    assert_eq!(ptr.key, base.add_u64(1));

    let mut ptr = KeyPtr::from_key(base);
    let read = <u32 as SpreadLayout>::pull_spread(&mut ptr, &store);
    assert_eq!(read, value);
    assert_eq!(ptr.key, base.add_u64(1));

    let mut ptr = KeyPtr::from_key(base);
    value.clear_spread(&mut ptr, &mut store);
    assert_eq!(ptr.key, base.add_u64(1));
    assert!(store.get(&base).is_none());
}

#[test]
fn option_spread_uses_inverted_tags() {
    let mut store = CellStore::new();
    let base = Key::from_u64(500);

    let mut ptr = KeyPtr::from_key(base);
    let some: Option<u8> = Some(9);
    some.push_spread(&mut ptr, &mut store);
    // Footprint of `Option<u8>` is two cells, taken whatever the variant.
    assert_eq!(ptr.key, base.add_u64(2));
    // The tag for presence is 0x00, inverted from the intuitive mapping.
    assert_eq!(store.get(&base).map(|v| v.clone()), Some(vec![0x00]));

    let mut ptr = KeyPtr::from_key(base);
    assert_eq!(<Option<u8> as SpreadLayout>::pull_spread(&mut ptr, &store), Some(9));
    assert_eq!(ptr.key, base.add_u64(2));

    let mut ptr = KeyPtr::from_key(base);
    let none: Option<u8> = None;
    none.push_spread(&mut ptr, &mut store);
    assert_eq!(ptr.key, base.add_u64(2));
    assert_eq!(store.get(&base).map(|v| v.clone()), Some(vec![0x01]));

    let mut ptr = KeyPtr::from_key(base);
    assert_eq!(<Option<u8> as SpreadLayout>::pull_spread(&mut ptr, &store), None);

    let mut ptr = KeyPtr::from_key(base);
    none.clear_spread(&mut ptr, &mut store);
    assert!(store.get(&base).is_none());
    assert!(store.get(&base.add_u64(1)).is_none());
}

#[test]
fn result_spread_uses_ok_one_err_zero_tags() {
    let mut store = CellStore::new();
    let base = Key::from_u64(600);

    let mut ptr = KeyPtr::from_key(base);
    let ok: Result<u8, u32> = Ok(7);
    ok.push_spread(&mut ptr, &mut store);
    assert_eq!(ptr.key, base.add_u64(2));
    assert_eq!(store.get(&base).map(|v| v.clone()), Some(vec![0x01]));

    let mut ptr = KeyPtr::from_key(base);
    assert_eq!(<Result<u8, u32> as SpreadLayout>::pull_spread(&mut ptr, &store), Ok(7));

    let mut ptr = KeyPtr::from_key(base);
    let err: Result<u8, u32> = Err(1000);
    err.push_spread(&mut ptr, &mut store);
    assert_eq!(store.get(&base).map(|v| v.clone()), Some(vec![0x00]));

    let mut ptr = KeyPtr::from_key(base);
    assert_eq!(<Result<u8, u32> as SpreadLayout>::pull_spread(&mut ptr, &store), Err(1000));

    let mut ptr = KeyPtr::from_key(base);
    err.clear_spread(&mut ptr, &mut store);
    assert_eq!(ptr.key, base.add_u64(2));
    assert!(store.get(&base).is_none());
    assert!(store.get(&base.add_u64(1)).is_none());
}

#[test]
fn boxed_value_is_layout_transparent() {
    let mut store = CellStore::new();
    let base = Key::from_u64(700);
    let boxed: Box<u32> = Box::new(11);

    let mut ptr = KeyPtr::from_key(base);
    boxed.push_spread(&mut ptr, &mut store);
    assert_eq!(ptr.key, base.add_u64(1));
    assert_eq!(store.get(&base).map(|v| v.clone()), Some(11u32.encode()));

    let mut ptr = KeyPtr::from_key(base);
    let read = <Box<u32> as SpreadLayout>::pull_spread(&mut ptr, &store);
    assert_eq!(*read, 11);
}

#[test]
fn wide_integer_payloads_round_trip() {
    let v64: u64 = 0x0102_0304_0506_0708;
    assert_eq!(v64.encode(), vec![8, 7, 6, 5, 4, 3, 2, 1]);
    assert_eq!(<u64 as PackedLayout>::decode(&v64.encode()), Some(v64));

    let v128: u128 = 0x0102_0304_0506_0708_090a_0b0c_0d0e_0f10;
    assert_eq!(<u128 as PackedLayout>::decode(&v128.encode()), Some(v128));
    assert_eq!(v128.encode().len(), 16);

    let v16: u16 = 0xabcd;
    assert_eq!(v16.encode(), vec![0xcd, 0xab]);
    assert_eq!(<u16 as PackedLayout>::decode(&v16.encode()), Some(v16));

    assert_eq!(<i8 as PackedLayout>::decode(&(-5i8).encode()), Some(-5));
    assert_eq!((-1i8).encode(), vec![0xff]);
    assert_eq!(<i16 as PackedLayout>::decode(&(-300i16).encode()), Some(-300));
    assert_eq!(<i64 as PackedLayout>::decode(&(-7_000_000_000i64).encode()), Some(-7_000_000_000));
    assert_eq!(<i128 as PackedLayout>::decode(&(-1i128).encode()), Some(-1));
    assert_eq!((-1i128).encode(), vec![0xff; 16]);
}

#[test]
fn key_payload_round_trips() {
    let k = Key { w0: 1, w1: 2, w2: 3, w3: u64::MAX };
    let enc = k.encode();
    assert_eq!(enc.len(), 32);
    assert_eq!(<Key as PackedLayout>::decode(&enc), Some(k));
    assert_eq!(<Key as PackedLayout>::decode(&enc[..31]), None);
}
