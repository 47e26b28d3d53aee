use replay_tables::errors::ReplayError;
use replay_tables::ref_count::RefCount;

#[test]
fn new_starts_at_given_count() {
    let rc = RefCount::new(1);
    assert_eq!(rc.get(), 1);
    let rc0 = RefCount::new(0);
    assert_eq!(rc0.get(), 0);
}

#[test]
fn increment_returns_new_count() {
    let mut rc = RefCount::new(1);
    assert_eq!(rc.increment(), 2);
    assert_eq!(rc.increment(), 3);
    assert_eq!(rc.get(), 3);
}

#[test]
fn decrement_returns_new_count() {
    let mut rc = RefCount::new(2);
    assert_eq!(rc.decrement(), Ok(1));
    assert_eq!(rc.decrement(), Ok(0));
    assert_eq!(rc.get(), 0);
}

#[test]
fn decrement_at_zero_underflows() {
    let mut rc = RefCount::new(0);
    assert_eq!(rc.decrement(), Err(ReplayError::Underflow));
    assert_eq!(rc.get(), 0);
}
