use crdts::traits::{OperationRDT, StateRDT};
use crdts::{GCounter, PNCounter};

#[test]
fn make_g_counter() {
    let counter: GCounter<String> = GCounter::new("h1".to_string());

    assert_eq!(counter.value(), 0);
}

#[test]
fn increment_g_counter() {
    let mut counter = GCounter::new("h1".to_string());

    counter.add(10).unwrap();

    assert_eq!(counter.value(), 10);
}

#[test]
fn decrement_g_counter() {
    let mut counter = GCounter::new("h1".to_string());

    assert!(counter.add(-10).is_none());
    assert_eq!(counter.value(), 0);
}

#[test]
fn apply_g_counter_increments() {
    let mut c1 = GCounter::new("h1".to_string());
    let mut c2 = GCounter::new("h2".to_string());

    let op1 = c1.add(5).unwrap();
    let op2 = c2.add(7).unwrap();

    c1.apply(&op2);
    c2.apply(&op1);

    assert_eq!(c1.value(), 12);
    assert_eq!(c2.value(), 12);
}

#[test]
fn merge_g_counter_state() {
    let mut c1 = GCounter::new("h1".to_string());
    let mut c2 = GCounter::new("h2".to_string());

    c1.add(5);
    c2.add(7);

    c1.merge(&c2);
    c2.merge(&c1);

    assert_eq!(c1.value(), 12);
    assert_eq!(c2.value(), 12);
}

#[test]
fn make_pn_counter() {
    let counter: PNCounter<String> = PNCounter::new("h1".to_string());

    assert_eq!(counter.value(), 0);
}

#[test]
fn increment_pn_counter() {
    let mut counter = PNCounter::new("h1".to_string());

    counter.add(10).unwrap();

    assert_eq!(counter.value(), 10);
}

#[test]
fn decrement_pn_counter() {
    let mut counter = PNCounter::new("h1".to_string());

    counter.add(-10).unwrap();

    assert_eq!(counter.value(), -10);
}

#[test]
fn apply_pn_counter_increments() {
    let mut c1 = PNCounter::new("h1".to_string());
    let mut c2 = PNCounter::new("h2".to_string());

    let op1 = c1.add(5).unwrap();
    let op2 = c2.add(-7).unwrap();

    c1.apply(&op2);
    c2.apply(&op1);

    assert_eq!(c1.value(), -2);
    assert_eq!(c2.value(), -2);
}

#[test]
fn merge_pn_counter_state() {
    let mut c1 = PNCounter::new("h1".to_string());
    let mut c2 = PNCounter::new("h2".to_string());

    c1.add(5);
    c2.add(-7);

    c1.merge(&c2);
    c2.merge(&c1);

    assert_eq!(c1.value(), -2);
    assert_eq!(c2.value(), -2);
}
