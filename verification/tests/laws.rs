use crdts::traits::{OperationRDT, StateRDT};
use crdts::{GCounter, GSet, ObserveRemoveSet, OpCounter, PNCounter, TwoPhaseSet};

fn sorted(mut v: Vec<i64>) -> Vec<i64> {
    v.sort();
    v
}

#[test]
fn merge_idempotent_g_counter() {
    let mut c1 = GCounter::new("h1".to_string());
    let op = c1.add(5).unwrap();

    let mut c2 = GCounter::new("h1".to_string());
    c2.apply(&op);

    c1.merge(&c2);
    assert_eq!(c1.value(), 5);
    c1.merge(&c2);
    assert_eq!(c1.value(), 5);
}

#[test]
fn merge_commutes_pn_counter() {
    let mut c1 = PNCounter::new("h1".to_string());
    let mut c2 = PNCounter::new("h2".to_string());

    c1.add(9).unwrap();
    c2.add(-4).unwrap();

    let mut d1 = PNCounter::new("h3".to_string());
    d1.merge(&c1);
    d1.merge(&c2);
    let mut d2 = PNCounter::new("h3".to_string());
    d2.merge(&c2);
    d2.merge(&c1);

    assert_eq!(d1.value(), 5);
    assert_eq!(d2.value(), 5);
}

#[test]
fn merge_associative_g_set() {
    let mut s1: GSet<i64> = GSet::new();
    let mut s2: GSet<i64> = GSet::new();
    let mut s3: GSet<i64> = GSet::new();
    s1.add(1);
    s2.add(2);
    s3.add(3);

    let mut left: GSet<i64> = GSet::new();
    left.merge(&s1);
    left.merge(&s2);
    left.merge(&s3);

    let mut right_tail: GSet<i64> = GSet::new();
    right_tail.merge(&s2);
    right_tail.merge(&s3);
    let mut right: GSet<i64> = GSet::new();
    right.merge(&s1);
    right.merge(&right_tail);

    assert_eq!(sorted(left.value().clone()), vec![1, 2, 3]);
    assert_eq!(sorted(right.value().clone()), vec![1, 2, 3]);
}

#[test]
fn self_apply_g_counter() {
    let mut c1 = GCounter::new("h1".to_string());
    let op = c1.add(5).unwrap();

    let mut fresh = GCounter::new("h9".to_string());
    fresh.apply(&op);

    assert_eq!(c1.value(), fresh.value());
}

#[test]
fn self_apply_or_set() {
    let mut s1: ObserveRemoveSet<i64> = ObserveRemoveSet::new();
    let op = s1.add(123);

    let mut fresh: ObserveRemoveSet<i64> = ObserveRemoveSet::new();
    fresh.apply(&op);

    assert_eq!(sorted(s1.value()), sorted(fresh.value()));
}

#[test]
fn duplicate_apply_idempotent_g_counter() {
    let mut c1 = GCounter::new("h1".to_string());
    let op = c1.add(5).unwrap();

    let mut c2 = GCounter::new("h2".to_string());
    c2.apply(&op);
    c2.apply(&op);

    assert_eq!(c2.value(), 5);
}

#[test]
fn duplicate_apply_idempotent_pn_counter() {
    let mut c1 = PNCounter::new("h1".to_string());
    let op1 = c1.add(5).unwrap();
    let op2 = c1.add(-2).unwrap();

    let mut c2 = PNCounter::new("h2".to_string());
    c2.apply(&op1);
    c2.apply(&op1);
    c2.apply(&op2);
    c2.apply(&op2);

    assert_eq!(c2.value(), 3);
}

#[test]
fn add_existing_g_set_rejected() {
    let mut set: GSet<i64> = GSet::new();

    assert!(set.add(123).is_some());
    assert!(set.add(123).is_none());
    assert_eq!(sorted(set.value().clone()), vec![123]);
}

#[test]
fn add_visible_2p_set_rejected() {
    let mut set: TwoPhaseSet<i64> = TwoPhaseSet::new();

    assert!(set.add(123).is_some());
    assert!(set.add(123).is_none());
}

#[test]
fn remove_absent_2p_set_rejected() {
    let mut set: TwoPhaseSet<i64> = TwoPhaseSet::new();

    assert!(set.remove(123).is_none());
    assert_eq!(sorted(set.value()), Vec::<i64>::new());
}

#[test]
fn readd_tombstoned_2p_set_stays_hidden() {
    let mut set: TwoPhaseSet<i64> = TwoPhaseSet::new();

    set.add(123).unwrap();
    set.add(456).unwrap();
    set.remove(123).unwrap();
    assert_eq!(sorted(set.value()), vec![456]);

    assert!(set.add(123).is_some());
    assert_eq!(sorted(set.value()), vec![456]);
}

#[test]
fn remove_absent_or_set_rejected() {
    let mut set: ObserveRemoveSet<i64> = ObserveRemoveSet::new();

    set.add(123);
    assert!(set.remove(456).is_none());
    assert_eq!(sorted(set.value()), vec![123]);
}

#[test]
fn readd_after_remove_or_set() {
    let mut set: ObserveRemoveSet<i64> = ObserveRemoveSet::new();

    set.add(123);
    set.remove(123).unwrap();
    assert_eq!(sorted(set.value()), Vec::<i64>::new());

    set.add(123);
    assert_eq!(sorted(set.value()), vec![123]);
}

#[test]
fn merge_with_empty_keeps_state() {
    let mut c1 = GCounter::new("h1".to_string());
    c1.add(5).unwrap();
    let c2 = GCounter::new("h2".to_string());

    c1.merge(&c2);
    assert_eq!(c1.value(), 5);

    let mut c3 = GCounter::new("h3".to_string());
    c3.merge(&c1);
    assert_eq!(c3.value(), 5);
}

#[test]
fn op_counter_increments() {
    let mut c1 = OpCounter::new();
    assert_eq!(c1.value(), 0);

    let op1 = c1.add(5);
    let op2 = c1.add(-2);
    assert_eq!(c1.value(), 3);

    let mut c2 = OpCounter::new();
    c2.apply(&op1);
    c2.apply(&op2);
    assert_eq!(c2.value(), 3);
}

#[test]
fn pn_counter_op_carries_totals() {
    let mut c1 = PNCounter::new("h1".to_string());
    c1.add(5).unwrap();
    let op = c1.add(2).unwrap();

    assert_eq!(op.pos_value, 7);
    assert_eq!(op.neg_value, 0);
}

#[test]
fn g_counter_op_carries_total() {
    let mut c1 = GCounter::new("h1".to_string());
    c1.add(5).unwrap();
    let op = c1.add(7).unwrap();

    assert_eq!(op.value, 12);
}
