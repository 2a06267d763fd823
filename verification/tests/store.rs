use cryptree::blockstore::{BlockStore, BlockStoreKey, InMemoryBlockStore};

#[test]
fn insert_then_get_returns_block() {
    let mut store = InMemoryBlockStore::new();
    let k = BlockStoreKey::new(1, 7, 2, 1);
    store.insert(k, vec![1u8, 2, 3]);
    assert_eq!(store.get(&k), Some(&vec![1u8, 2, 3]));
}

#[test]
fn insert_same_key_overwrites() {
    let mut store = InMemoryBlockStore::new();
    let k = BlockStoreKey::new(0, 1, 1, 1);
    store.insert(k, vec![1u8]);
    store.insert(k, vec![2u8, 3]);
    assert_eq!(store.get(&k), Some(&vec![2u8, 3]));
}

#[test]
fn get_never_inserted_is_absent() {
    let mut store = InMemoryBlockStore::new();
    let absent = BlockStoreKey::new(0, 1, 1, 9);
    assert_eq!(store.get(&absent), None);
    store.insert(BlockStoreKey::new(0, 1, 1, 1), vec![5u8]);
    assert_eq!(store.get(&absent), None);
}

#[test]
fn key_equality_is_exact() {
    let a = BlockStoreKey::new(1, 2, 3, 4);
    let b = BlockStoreKey::new(1, 2, 3, 4);
    let c = BlockStoreKey::new(1, 2, 3, 5);
    assert_eq!(a, b);
    assert_ne!(a, c);
}

#[test]
fn key_wire_format_is_eleven_bytes_big_endian() {
    let k = BlockStoreKey::new(0x01, 0x02030405, 0x0607, 0x08090A0B);
    let bytes = k.to_bytes();
    assert_eq!(
        bytes,
        vec![0x01u8, 0x02, 0x03, 0x04, 0x05, 0x06, 0x07, 0x08, 0x09, 0x0A, 0x0B]
    );
}
