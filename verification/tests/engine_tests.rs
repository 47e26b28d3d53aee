use replay_tables::errors::ReplayError;
use replay_tables::integration::ReplayEngine;

#[test]
fn bind_and_sample_concrete_scenario() {
    // Weights carry one decimal digit of fixed-point precision (x10), so a
    // sampling input of 19.9 becomes 199.
    let mut e: ReplayEngine<String> = ReplayEngine::new();
    let t = e.add_table(4);
    let a = e.insert("A".to_string()).unwrap();
    let b = e.insert("B".to_string()).unwrap();
    e.bind_slot(t, 0, a, 50).unwrap();
    e.bind_slot(t, 1, b, 150).unwrap();
    assert_eq!(e.total(t), Ok(200));
    // Slot 0 covers [0, 50), slot 1 covers [50, 200).
    assert_eq!(e.sample(t, 0), Ok(a));
    assert_eq!(e.sample(t, 199), Ok(b));
    // Raising A's weight shifts the cumulative boundaries: A now covers
    // [0, 250) and B covers [250, 400).
    e.set_weight(t, 0, 250).unwrap();
    assert_eq!(e.total(t), Ok(400));
    assert_eq!(e.sample(t, 100), Ok(a));
    assert_eq!(e.sample(t, 249), Ok(a));
    assert_eq!(e.sample(t, 250), Ok(b));
    assert_eq!(e.sample(t, 300), Ok(b));
}

#[test]
fn slot_is_reusable_after_last_release() {
    let mut e: ReplayEngine<String> = ReplayEngine::new();
    let t = e.add_table(4);
    let a = e.insert("evicted".to_string()).unwrap();
    e.bind_slot(t, 2, a, 7).unwrap();
    assert_eq!(e.total(t), Ok(7));
    // Releasing the only reference removes the record and clears its slot in
    // the same call.
    assert_eq!(e.release_reference(a), Ok(0));
    assert_eq!(e.total(t), Ok(0));
    assert_eq!(e.item_at(t, 2), Ok(None));
    assert_eq!(e.weight_of(t, 2), Ok(0));
    assert_eq!(e.get(a), Err(ReplayError::NotFound));
    // A new item takes over the slot with no residual weight.
    let b = e.insert("fresh".to_string()).unwrap();
    e.bind_slot(t, 2, b, 9).unwrap();
    assert_eq!(e.total(t), Ok(9));
    for u in 0..9 {
        assert_eq!(e.sample(t, u), Ok(b));
    }
}

#[test]
fn release_clears_bindings_in_every_table() {
    let mut e: ReplayEngine<u64> = ReplayEngine::new();
    let t1 = e.add_table(2);
    let t2 = e.add_table(3);
    let shared = e.insert(42).unwrap();
    let other = e.insert(7).unwrap();
    e.bind_slot(t1, 0, shared, 10).unwrap();
    e.bind_slot(t2, 1, shared, 20).unwrap();
    e.bind_slot(t2, 2, other, 5).unwrap();
    assert_eq!(e.release_reference(shared), Ok(0));
    assert_eq!(e.item_at(t1, 0), Ok(None));
    assert_eq!(e.weight_of(t1, 0), Ok(0));
    assert_eq!(e.item_at(t2, 1), Ok(None));
    assert_eq!(e.weight_of(t2, 1), Ok(0));
    // The other item's binding survives untouched.
    assert_eq!(e.item_at(t2, 2), Ok(Some(other)));
    assert_eq!(e.weight_of(t2, 2), Ok(5));
    assert_eq!(e.total(t2), Ok(5));
}

#[test]
fn forced_remove_clears_bindings() {
    let mut e: ReplayEngine<u64> = ReplayEngine::new();
    let t = e.add_table(2);
    let id = e.insert(1).unwrap();
    e.add_reference(id).unwrap();
    e.bind_slot(t, 0, id, 3).unwrap();
    assert_eq!(e.remove(id), Ok(()));
    assert_eq!(e.item_at(t, 0), Ok(None));
    assert_eq!(e.total(t), Ok(0));
    assert_eq!(e.remove(id), Err(ReplayError::NotFound));
}

#[test]
fn bind_reports_each_failure() {
    let mut e: ReplayEngine<u64> = ReplayEngine::new();
    let t = e.add_table(2);
    let id = e.insert(1).unwrap();
    assert_eq!(e.bind_slot(9, 0, id, 1), Err(ReplayError::IndexOutOfRange));
    assert_eq!(e.bind_slot(t, 2, id, 1), Err(ReplayError::IndexOutOfRange));
    assert_eq!(e.bind_slot(t, 0, 555, 1), Err(ReplayError::NotFound));
    assert_eq!(e.bind_slot(t, 0, id, 1), Ok(()));
}

#[test]
fn set_weight_requires_a_bound_slot() {
    let mut e: ReplayEngine<u64> = ReplayEngine::new();
    let t = e.add_table(2);
    let id = e.insert(1).unwrap();
    assert_eq!(e.set_weight(t, 0, 4), Err(ReplayError::NotFound));
    e.bind_slot(t, 0, id, 1).unwrap();
    assert_eq!(e.set_weight(t, 0, 4), Ok(()));
    assert_eq!(e.weight_of(t, 0), Ok(4));
    assert_eq!(e.set_weight(t, 5, 4), Err(ReplayError::IndexOutOfRange));
    assert_eq!(e.set_weight(7, 0, 4), Err(ReplayError::IndexOutOfRange));
}

#[test]
fn sample_on_empty_table_fails() {
    let mut e: ReplayEngine<u64> = ReplayEngine::new();
    let t = e.add_table(4);
    assert_eq!(e.sample(t, 0), Err(ReplayError::EmptyTree));
    assert_eq!(e.sample(9, 0), Err(ReplayError::IndexOutOfRange));
}

#[test]
fn metadata_flows_through_the_engine() {
    let mut e: ReplayEngine<String> = ReplayEngine::new();
    let id = e.insert("first".to_string()).unwrap();
    assert_eq!(e.get(id), Ok(&"first".to_string()));
    assert!(e.contains(id));
    e.update_metadata(id, "second".to_string()).unwrap();
    assert_eq!(e.get(id), Ok(&"second".to_string()));
    assert_eq!(e.len(), 1);
    assert_eq!(e.num_tables(), 0);
}

#[test]
fn references_keep_shared_items_alive() {
    let mut e: ReplayEngine<u64> = ReplayEngine::new();
    let t = e.add_table(1);
    let id = e.insert(5).unwrap();
    e.bind_slot(t, 0, id, 2).unwrap();
    // A sampler pins the item while resolving it.
    assert_eq!(e.add_reference(id), Ok(2));
    // The producer drops its claim; the pin keeps the record and binding.
    assert_eq!(e.release_reference(id), Ok(1));
    assert_eq!(e.item_at(t, 0), Ok(Some(id)));
    assert_eq!(e.get(id), Ok(&5));
    // The last release removes the record and frees the slot.
    assert_eq!(e.release_reference(id), Ok(0));
    assert_eq!(e.item_at(t, 0), Ok(None));
}
