use cryptree::blockstore::{BlockStore, BlockStoreKey, InMemoryBlockStore};
use cryptree::cryptree::{publish_version, trace_chain, CryptreeNode, VersionArena};
use cryptree::errors::CryptreeError;
use cryptree::sequencer::Sequencer;

#[derive(Debug, Clone)]
#[allow(dead_code)]
pub struct Pointer {
    user_id: u32,
    write_space: u16,
    version: u32,
}

#[test]
fn basic() {
    let fs: CryptreeNode<Pointer> = CryptreeNode::new_in_memory_space();
    let _ = &fs;
    assert!(true);
}

#[test]
fn node_accessors() {
    let root: CryptreeNode<Pointer> = CryptreeNode::new_in_memory_space();
    assert!(root.is_directory());
    assert!(root.previous_version().is_none());

    let ptr = Pointer { user_id: 1, write_space: 2, version: 3 };
    let file: CryptreeNode<Pointer> = CryptreeNode::new(false, Some(ptr));
    assert!(!file.is_directory());
    assert!(file.previous_version().is_some());
}

fn key(version_id: u32) -> BlockStoreKey {
    BlockStoreKey::new(0, 1, 1, version_id)
}

#[test]
fn chain_terminates_at_creation_point() {
    let mut arena = VersionArena::new();
    arena.record(key(1), None);
    arena.record(key(2), Some(key(1)));
    arena.record(key(3), Some(key(2)));
    let path = trace_chain(&arena, key(3)).unwrap();
    assert_eq!(path, vec![key(3), key(2), key(1)]);
}

#[test]
fn single_version_chain() {
    let mut arena = VersionArena::new();
    arena.record(key(1), None);
    assert_eq!(trace_chain(&arena, key(1)).unwrap(), vec![key(1)]);
}

#[test]
fn cyclic_chain_is_integrity_error() {
    let mut arena = VersionArena::new();
    arena.record(key(1), Some(key(2)));
    arena.record(key(2), Some(key(1)));
    assert_eq!(trace_chain(&arena, key(1)).unwrap_err(), CryptreeError::IntegrityError);
}

#[test]
fn self_cycle_is_integrity_error() {
    let mut arena = VersionArena::new();
    arena.record(key(1), Some(key(1)));
    assert_eq!(trace_chain(&arena, key(1)).unwrap_err(), CryptreeError::IntegrityError);
}

#[test]
fn pointer_to_missing_version_is_integrity_error() {
    let mut arena = VersionArena::new();
    arena.record(key(2), Some(key(1)));
    assert_eq!(trace_chain(&arena, key(2)).unwrap_err(), CryptreeError::IntegrityError);
    // The start itself missing is also a corrupted history.
    assert_eq!(trace_chain(&arena, key(9)).unwrap_err(), CryptreeError::IntegrityError);
}

#[test]
fn publishing_versions_appends_and_chains() {
    let mut store = InMemoryBlockStore::new();
    let mut arena = VersionArena::new();
    publish_version(&mut store, &mut arena, key(1), vec![0xAAu8], None);
    publish_version(&mut store, &mut arena, key(2), vec![0xBBu8], Some(key(1)));
    assert_eq!(store.get(&key(1)), Some(&vec![0xAAu8]));
    assert_eq!(store.get(&key(2)), Some(&vec![0xBBu8]));
    assert_eq!(trace_chain(&arena, key(2)).unwrap(), vec![key(2), key(1)]);
}

#[test]
fn scenario_concurrent_writers_conflict_on_version_id() {
    // Two writers request version_id 3 for the same write space: the
    // sequencer grants it to exactly one; the other gets a conflict and
    // retries with version_id 4.
    let mut seq = Sequencer::new();
    assert!(seq.claim(1, 5, 3).is_ok());
    assert_eq!(seq.claim(1, 5, 3).unwrap_err(), CryptreeError::VersionConflict);
    assert!(seq.claim(1, 5, 4).is_ok());
}

#[test]
fn distinct_write_spaces_do_not_conflict() {
    let mut seq = Sequencer::new();
    assert!(seq.claim(1, 5, 3).is_ok());
    assert!(seq.claim(1, 6, 3).is_ok());
    assert!(seq.claim(2, 5, 3).is_ok());
}
