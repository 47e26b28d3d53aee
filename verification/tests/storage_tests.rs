use replay_tables::errors::ReplayError;
use replay_tables::metadata_storage::MetadataStorage;

#[test]
fn insert_allocates_monotonic_ids() {
    let mut s: MetadataStorage<String> = MetadataStorage::new();
    assert_eq!(s.insert("a".to_string()), Ok(0));
    assert_eq!(s.insert("b".to_string()), Ok(1));
    assert_eq!(s.insert("c".to_string()), Ok(2));
    assert_eq!(s.len(), 3);
}

#[test]
fn insert_starts_with_one_reference() {
    let mut s: MetadataStorage<String> = MetadataStorage::new();
    let id = s.insert("payload".to_string()).unwrap();
    let item = s.get_item(id).unwrap();
    assert_eq!(item.id(), id);
    assert_eq!(item.ref_count(), 1);
    assert_eq!(item.metadata(), &"payload".to_string());
}

#[test]
fn get_returns_stored_metadata() {
    let mut s: MetadataStorage<String> = MetadataStorage::new();
    let id = s.insert("hello".to_string()).unwrap();
    assert_eq!(s.get(id), Ok(&"hello".to_string()));
    assert_eq!(s.get(99), Err(ReplayError::NotFound));
}

#[test]
fn get_is_idempotent_without_mutation() {
    let mut s: MetadataStorage<String> = MetadataStorage::new();
    let id = s.insert("stable".to_string()).unwrap();
    let first = s.get(id).unwrap().clone();
    let second = s.get(id).unwrap().clone();
    assert_eq!(first, second);
}

#[test]
fn update_metadata_replaces_payload_only() {
    let mut s: MetadataStorage<String> = MetadataStorage::new();
    let id = s.insert("old".to_string()).unwrap();
    s.add_reference(id).unwrap();
    assert_eq!(s.update_metadata(id, "new".to_string()), Ok(()));
    assert_eq!(s.get(id), Ok(&"new".to_string()));
    assert_eq!(s.get_item(id).unwrap().ref_count(), 2);
    assert_eq!(s.update_metadata(77, "x".to_string()), Err(ReplayError::NotFound));
}

#[test]
fn reference_lifecycle_removes_record_at_zero() {
    let mut s: MetadataStorage<String> = MetadataStorage::new();
    let id = s.insert("item".to_string()).unwrap();
    // Insert yields a count of 1; one more owner makes 2.
    assert_eq!(s.add_reference(id), Ok(2));
    assert_eq!(s.release_reference(id), Ok(1));
    assert_eq!(s.release_reference(id), Ok(0));
    // The decrement to zero and the removal are one step.
    assert_eq!(s.get(id), Err(ReplayError::NotFound));
    assert_eq!(s.len(), 0);
}

#[test]
fn release_on_removed_item_is_not_found() {
    let mut s: MetadataStorage<String> = MetadataStorage::new();
    let id = s.insert("item".to_string()).unwrap();
    assert_eq!(s.release_reference(id), Ok(0));
    // The record is already gone: a second release reports the stale id
    // instead of corrupting any state.
    assert_eq!(s.release_reference(id), Err(ReplayError::NotFound));
    assert_eq!(s.release_reference(424242), Err(ReplayError::NotFound));
}

#[test]
fn forced_remove_ignores_reference_count() {
    let mut s: MetadataStorage<String> = MetadataStorage::new();
    let id = s.insert("pinned".to_string()).unwrap();
    s.add_reference(id).unwrap();
    assert_eq!(s.remove(id), Ok(()));
    assert_eq!(s.get(id), Err(ReplayError::NotFound));
    assert_eq!(s.remove(id), Err(ReplayError::NotFound));
}

#[test]
fn ids_are_not_reused_after_removal() {
    let mut s: MetadataStorage<String> = MetadataStorage::new();
    let a = s.insert("a".to_string()).unwrap();
    s.release_reference(a).unwrap();
    let b = s.insert("b".to_string()).unwrap();
    assert_ne!(a, b);
    assert_eq!(b, 1);
}

#[test]
fn capacity_limit_is_enforced() {
    let mut s: MetadataStorage<String> = MetadataStorage::with_max_items(1);
    let id = s.insert("only".to_string()).unwrap();
    assert_eq!(s.insert("too many".to_string()), Err(ReplayError::CapacityExceeded));
    // Freeing the slot makes room again.
    s.release_reference(id).unwrap();
    assert_eq!(s.insert("second".to_string()), Ok(1));
}
