use crdts::traits::{OperationRDT, StateRDT};
use crdts::{ObserveRemoveMap, PNCounter};

#[test]
fn make_counter_map() {
    let m: ObserveRemoveMap<String, PNCounter<String>> = ObserveRemoveMap::new("h1".to_string());

    assert!(m.get(&"c1".to_string()).is_none());
}

#[test]
fn add_counter_map() {
    let mut m: ObserveRemoveMap<String, PNCounter<String>> =
        ObserveRemoveMap::new("h1".to_string());

    m.update(&"c1".to_string(), |mut c: PNCounter<String>| {
        let op = c.add(5);
        (c, op)
    })
    .unwrap();
    m.update(&"c2".to_string(), |mut c: PNCounter<String>| {
        let op = c.add(3);
        (c, op)
    })
    .unwrap();

    assert_eq!(m.get(&"c1".to_string()).unwrap().value(), 5);
    assert_eq!(m.get(&"c2".to_string()).unwrap().value(), 3);
}

#[test]
fn apply_counter_map_ops_independent() {
    let mut m1: ObserveRemoveMap<String, PNCounter<String>> =
        ObserveRemoveMap::new("h1".to_string());
    let mut m2: ObserveRemoveMap<String, PNCounter<String>> =
        ObserveRemoveMap::new("h2".to_string());

    let op1 = m1
        .update(&"c1".to_string(), |mut c: PNCounter<String>| {
            let op = c.add(5);
            (c, op)
        })
        .unwrap();
    let op2 = m2
        .update(&"c2".to_string(), |mut c: PNCounter<String>| {
            let op = c.add(3);
            (c, op)
        })
        .unwrap();

    m2.apply(&op1);
    m1.apply(&op2);

    assert_eq!(m1.get(&"c1".to_string()).unwrap().value(), 5);
    assert_eq!(m1.get(&"c2".to_string()).unwrap().value(), 3);

    assert_eq!(m2.get(&"c1".to_string()).unwrap().value(), 5);
    assert_eq!(m2.get(&"c2".to_string()).unwrap().value(), 3);
}

#[test]
fn apply_counter_map_ops_dependent() {
    let mut m1: ObserveRemoveMap<String, PNCounter<String>> =
        ObserveRemoveMap::new("h1".to_string());
    let mut m2: ObserveRemoveMap<String, PNCounter<String>> =
        ObserveRemoveMap::new("h2".to_string());

    let op1 = m1
        .update(&"c1".to_string(), |mut c: PNCounter<String>| {
            let op = c.add(5);
            (c, op)
        })
        .unwrap();
    let op2 = m2
        .update(&"c1".to_string(), |mut c: PNCounter<String>| {
            let op = c.add(3);
            (c, op)
        })
        .unwrap();

    m2.apply(&op1);
    m1.apply(&op2);

    assert_eq!(m1.get(&"c1".to_string()).unwrap().value(), 8);
    assert_eq!(m2.get(&"c1".to_string()).unwrap().value(), 8);

    let op3 = m1
        .update(&"c1".to_string(), |mut c: PNCounter<String>| {
            let op = c.add(-4);
            (c, op)
        })
        .unwrap();

    m2.apply(&op3);

    assert_eq!(m1.get(&"c1".to_string()).unwrap().value(), 4);
    assert_eq!(m2.get(&"c1".to_string()).unwrap().value(), 4);
}

#[test]
fn merge_counter_map_ops_dependent() {
    let mut m1: ObserveRemoveMap<String, PNCounter<String>> =
        ObserveRemoveMap::new("h1".to_string());
    let mut m2: ObserveRemoveMap<String, PNCounter<String>> =
        ObserveRemoveMap::new("h2".to_string());

    m1.update(&"c1".to_string(), |mut c: PNCounter<String>| {
        let op = c.add(5);
        (c, op)
    })
    .unwrap();
    m2.update(&"c1".to_string(), |mut c: PNCounter<String>| {
        let op = c.add(3);
        (c, op)
    })
    .unwrap();

    m2.merge(&m1);
    m1.merge(&m2);

    assert_eq!(m1.get(&"c1".to_string()).unwrap().value(), 8);
    assert_eq!(m2.get(&"c1".to_string()).unwrap().value(), 8);

    m1.update(&"c1".to_string(), |mut c: PNCounter<String>| {
        let op = c.add(-4);
        (c, op)
    })
    .unwrap();

    m2.merge(&m1);

    assert_eq!(m1.get(&"c1".to_string()).unwrap().value(), 4);
    assert_eq!(m2.get(&"c1".to_string()).unwrap().value(), 4);
}
