use crdts::traits::{OperationRDT, StateRDT};
use crdts::{GSet, ObserveRemoveSet, TwoPhaseSet};

fn sorted_i32(mut v: Vec<i32>) -> Vec<i32> {
    v.sort();
    v
}

#[test]
fn make_g_set() {
    let set: GSet<i32> = GSet::new();

    assert_eq!(sorted_i32(set.value().clone()), Vec::<i32>::new());
}

#[test]
fn add_g_set() {
    let mut set = GSet::new();

    set.add(123).unwrap();

    assert_eq!(sorted_i32(set.value().clone()), vec![123]);
}

#[test]
fn apply_g_set_add() {
    let mut s1 = GSet::new();
    let mut s2 = GSet::new();

    let op1 = s1.add(123).unwrap();
    let op2 = s2.add(456).unwrap();

    s1.apply(&op2);
    s2.apply(&op1);

    assert_eq!(sorted_i32(s1.value().clone()), vec![123, 456]);
    assert_eq!(sorted_i32(s2.value().clone()), vec![123, 456]);
}

#[test]
fn merge_g_set() {
    let mut s1 = GSet::new();
    let mut s2 = GSet::new();

    s1.add(123).unwrap();
    s2.add(456).unwrap();

    s1.merge(&s2);
    s2.merge(&s1);

    assert_eq!(sorted_i32(s1.value().clone()), vec![123, 456]);
    assert_eq!(sorted_i32(s2.value().clone()), vec![123, 456]);
}

#[test]
fn make_2p_set() {
    let set: TwoPhaseSet<i32> = TwoPhaseSet::new();

    assert_eq!(sorted_i32(set.value()), Vec::<i32>::new());
}

#[test]
fn add_2p_set() {
    let mut set = TwoPhaseSet::new();

    set.add(123).unwrap();

    assert_eq!(sorted_i32(set.value()), vec![123]);
}

#[test]
fn remove_2p_set() {
    let mut set = TwoPhaseSet::new();

    set.add(123).unwrap();
    set.add(456).unwrap();
    set.remove(123).unwrap();

    assert_eq!(sorted_i32(set.value()), vec![456]);
}

#[test]
fn apply_2p_set_ops() {
    let mut s1 = TwoPhaseSet::new();
    let mut s2 = TwoPhaseSet::new();

    let op1 = s1.add(123).unwrap();
    let op2 = s2.add(456).unwrap();

    s1.apply(&op2);
    s2.apply(&op1);

    assert_eq!(sorted_i32(s1.value()), vec![123, 456]);
    assert_eq!(sorted_i32(s2.value()), vec![123, 456]);

    let op3 = s1.remove(456).unwrap();

    s2.apply(&op3);

    assert_eq!(sorted_i32(s1.value()), vec![123]);
    assert_eq!(sorted_i32(s2.value()), vec![123]);
}

#[test]
fn merge_2p_set() {
    let mut s1 = TwoPhaseSet::new();
    let mut s2 = TwoPhaseSet::new();

    s1.add(123).unwrap();
    s2.add(456).unwrap();

    s1.merge(&s2);
    s2.merge(&s1);

    assert_eq!(sorted_i32(s1.value()), vec![123, 456]);
    assert_eq!(sorted_i32(s2.value()), vec![123, 456]);

    s1.remove(456).unwrap();

    s2.merge(&s1);

    assert_eq!(sorted_i32(s1.value()), vec![123]);
    assert_eq!(sorted_i32(s2.value()), vec![123]);
}

#[test]
fn make_or_set() {
    let set: ObserveRemoveSet<i32> = ObserveRemoveSet::new();

    assert_eq!(sorted_i32(set.value()), Vec::<i32>::new());
}

#[test]
fn add_or_set() {
    let mut set = ObserveRemoveSet::new();

    set.add(123);

    assert_eq!(sorted_i32(set.value()), vec![123]);
}

#[test]
fn remove_or_set() {
    let mut set = ObserveRemoveSet::new();

    set.add(123);
    set.add(456);
    set.remove(123).unwrap();

    assert_eq!(sorted_i32(set.value()), vec![456]);
}

#[test]
fn apply_or_set_ops() {
    let mut s1 = ObserveRemoveSet::new();
    let mut s2 = ObserveRemoveSet::new();

    let op1 = s1.add(123);
    let op2 = s2.add(123);
    let op3 = s1.add(456);

    s1.apply(&op2);
    s2.apply(&op1);
    s2.apply(&op3);

    assert_eq!(sorted_i32(s1.value()), vec![123, 456]);
    assert_eq!(sorted_i32(s1.value()), vec![123, 456]);

    let op4 = s1.remove(456).unwrap();
    let op5 = s2.add(456);

    s2.apply(&op4);
    s1.apply(&op5);

    assert_eq!(sorted_i32(s1.value()), vec![123, 456]);
    assert_eq!(sorted_i32(s1.value()), vec![123, 456]);
}

#[test]
fn merge_or_set_ops() {
    let mut s1 = ObserveRemoveSet::new();
    let mut s2 = ObserveRemoveSet::new();

    s1.add(123);
    s2.add(123);
    s1.add(456);

    s1.merge(&s2);
    s2.merge(&s1);

    assert_eq!(sorted_i32(s1.value()), vec![123, 456]);
    assert_eq!(sorted_i32(s1.value()), vec![123, 456]);

    s1.remove(456).unwrap();
    s2.add(456);

    s2.merge(&s1);
    s1.merge(&s2);

    assert_eq!(sorted_i32(s1.value()), vec![123, 456]);
    assert_eq!(sorted_i32(s1.value()), vec![123, 456]);
}
