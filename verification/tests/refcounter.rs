use anchors::nodequeue::{NodeQueue, NodeState};
use anchors::refcounter::RefCounter;

fn key(idx: u32, version: u32) -> u64 {
    ((version as u64) << 32) | idx as u64
}

#[test]
fn created_keys_are_counted_once() {
    let mut rc = RefCounter::new();
    let k = key(3, 1);
    assert!(!rc.contains(k));
    rc.create(k);
    assert!(rc.contains(k));
    rc.decrement(k);
    assert!(!rc.contains(k));
    assert_eq!(vec![k], rc.drain());
    assert_eq!(Vec::<u64>::new(), rc.drain());
}

#[test]
fn increments_delay_deletion() {
    let mut rc = RefCounter::new();
    let k = key(0, 1);
    rc.create(k);
    rc.increment(k);
    rc.increment(k);
    rc.decrement(k);
    rc.decrement(k);
    assert!(rc.contains(k));
    assert_eq!(Vec::<u64>::new(), rc.drain());
    rc.decrement(k);
    assert!(!rc.contains(k));
    assert_eq!(vec![k], rc.drain());
}

#[test]
fn deleted_keys_drain_oldest_first() {
    let mut rc = RefCounter::new();
    let a = key(1, 1);
    let b = key(2, 1);
    rc.create(a);
    rc.create(b);
    rc.decrement(b);
    rc.decrement(a);
    assert_eq!(vec![b, a], rc.drain());
}

#[test]
fn null_key_is_never_counted() {
    let mut rc = RefCounter::new();
    let null = key(u32::MAX, 1);
    rc.create(null);
    assert!(!rc.contains(null));
}

#[test]
fn newer_key_of_a_slot_replaces_older_one() {
    let mut rc = RefCounter::new();
    let old = key(4, 1);
    let new = key(4, 3);
    rc.create(old);
    rc.create(new);
    assert!(rc.contains(new));
    assert!(!rc.contains(old));
}

#[test]
fn node_queue_starts_empty() {
    let _q = NodeQueue::new(8);
    assert_eq!(NodeState::NeedsRecalc, NodeState::default());
}
