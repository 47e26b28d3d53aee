use replay_tables::errors::ReplayError;
use replay_tables::sumtree::SumTree;

#[test]
fn new_tree_is_all_zero() {
    let t = SumTree::new(5);
    assert_eq!(t.capacity(), 5);
    assert_eq!(t.total(), 0);
    for s in 0..5 {
        assert_eq!(t.get(s), Ok(0));
    }
}

#[test]
fn total_tracks_sum_after_every_set() {
    let mut t = SumTree::new(5);
    t.set(0, 3).unwrap();
    assert_eq!(t.total(), 3);
    t.set(3, 10).unwrap();
    assert_eq!(t.total(), 13);
    t.set(0, 1).unwrap();
    assert_eq!(t.total(), 11);
    t.set(4, 7).unwrap();
    assert_eq!(t.total(), 18);
    t.set(3, 0).unwrap();
    assert_eq!(t.total(), 8);
    assert_eq!(t.get(0), Ok(1));
    assert_eq!(t.get(3), Ok(0));
    assert_eq!(t.get(4), Ok(7));
}

#[test]
fn set_rejects_out_of_range_slot() {
    let mut t = SumTree::new(4);
    assert_eq!(t.set(4, 1), Err(ReplayError::IndexOutOfRange));
    assert_eq!(t.set(100, 1), Err(ReplayError::IndexOutOfRange));
    assert_eq!(t.total(), 0);
}

#[test]
fn get_rejects_out_of_range_slot() {
    let t = SumTree::new(4);
    assert_eq!(t.get(4), Err(ReplayError::IndexOutOfRange));
}

#[test]
fn sample_on_empty_tree_fails() {
    let t = SumTree::new(4);
    assert_eq!(t.sample(0), Err(ReplayError::EmptyTree));
    let mut t2 = SumTree::new(4);
    t2.set(1, 5).unwrap();
    t2.set(1, 0).unwrap();
    assert_eq!(t2.sample(2), Err(ReplayError::EmptyTree));
}

#[test]
fn sample_counts_match_weights_exactly() {
    // Weights [1, 3, 6], total 10: of the ten inputs 0..10, exactly one must
    // land on slot 0, three on slot 1 and six on slot 2 (60%).
    let mut t = SumTree::new(3);
    t.set(0, 1).unwrap();
    t.set(1, 3).unwrap();
    t.set(2, 6).unwrap();
    assert_eq!(t.total(), 10);
    let mut counts = [0u64; 3];
    for u in 0..10 {
        let s = t.sample(u).unwrap();
        counts[s] += 1;
    }
    assert_eq!(counts, [1, 3, 6]);
}

#[test]
fn sample_respects_cumulative_boundaries() {
    let mut t = SumTree::new(3);
    t.set(0, 1).unwrap();
    t.set(1, 3).unwrap();
    t.set(2, 6).unwrap();
    assert_eq!(t.sample(0), Ok(0));
    assert_eq!(t.sample(1), Ok(1));
    assert_eq!(t.sample(3), Ok(1));
    assert_eq!(t.sample(4), Ok(2));
    assert_eq!(t.sample(9), Ok(2));
}

#[test]
fn sample_clamps_inputs_past_the_total() {
    let mut t = SumTree::new(4);
    t.set(1, 5).unwrap();
    // Total is 5; inputs at or past it land on the last unit of mass.
    assert_eq!(t.sample(5), Ok(1));
    assert_eq!(t.sample(u64::MAX), Ok(1));
}

#[test]
fn sample_skips_zero_weight_slots() {
    let mut t = SumTree::new(4);
    t.set(2, 4).unwrap();
    for u in 0..4 {
        assert_eq!(t.sample(u), Ok(2));
    }
}

#[test]
fn works_at_non_power_of_two_capacity() {
    let mut t = SumTree::new(7);
    for s in 0..7 {
        t.set(s, (s as u64) + 1).unwrap();
    }
    assert_eq!(t.total(), 28);
    let mut counts = [0u64; 7];
    for u in 0..28 {
        counts[t.sample(u).unwrap()] += 1;
    }
    assert_eq!(counts, [1, 2, 3, 4, 5, 6, 7]);
}
