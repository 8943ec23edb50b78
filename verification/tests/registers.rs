use crdts::traits::{OperationRDT, StateRDT};
use crdts::LWWRegister;

#[test]
fn make_lww_register() {
    let register: LWWRegister<String> = LWWRegister::new();

    assert_eq!(register.value().as_str(), "");
}

#[test]
fn set_lww_register() {
    let mut register: LWWRegister<String> = LWWRegister::new();

    register.set("test".to_string());

    assert_eq!(register.value().as_str(), "test");
}

#[test]
fn apply_lww_register_set() {
    let mut r1: LWWRegister<String> = LWWRegister::new();
    let mut r2: LWWRegister<String> = LWWRegister::new();

    let op1 = r1.set("first".to_string());
    let op2 = r2.set("last".to_string());

    r1.apply(&op2);
    r2.apply(&op1);

    assert_eq!(r1.value().as_str(), "last");
    assert_eq!(r2.value().as_str(), "last");
}

#[test]
fn merge_lww_register_state() {
    let mut r1: LWWRegister<String> = LWWRegister::new();
    let mut r2: LWWRegister<String> = LWWRegister::new();

    r1.set("first".to_string());
    r2.set("last".to_string());

    r1.merge(&r2);
    r2.merge(&r1);

    assert_eq!(r1.value().as_str(), "last");
    assert_eq!(r2.value().as_str(), "last");
}
