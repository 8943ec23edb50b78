//! The observed-remove map: keys live in an observed-remove set, and the
//! values are themselves operation-convergent replicated types,
//! materialized lazily from the replica identity the map was built with.
//! Convergence of the map rests on the key set's own convergence and,
//! recursively, on the convergence of the value type.

use vstd::prelude::*;

verus! {

use crate::traits::{Payload, Replicated, StateRDT, OperationRDT, MapValue};
use crate::model::{
    join_maps, distinct_abs, distinct_keys, assoc_map,
    lemma_join_maps_idem, lemma_join_maps_comm, lemma_join_maps_assoc,
    lemma_join_maps_empty, lemma_join_maps_insert_fresh,
    lemma_assoc_map_dom, lemma_assoc_map_index, lemma_assoc_map_update, lemma_assoc_map_push,
    lemma_assoc_map_take_fresh, find_entry,
};
use crate::sets::{ObserveRemoveSet, ORSetOperation, or_live};

/// The abstraction of a stored value to its model.
pub open spec fn vmodel_of<V: MapValue>() -> spec_fn(V) -> V::Model {
    |v: V| v.model()
}

/// The map of abstract keys to value models that an entry vector stands
/// for.
pub open spec fn values_of<K: Payload, V: MapValue>(s: Seq<(K, V)>) -> Map<K::Abs, V::Model> {
    assoc_map(s, vmodel_of::<V>())
}

/// The join of two value models.
pub open spec fn vjoin<V: MapValue>() -> spec_fn(V::Model, V::Model) -> V::Model {
    |x: V::Model, y: V::Model| V::join(x, y)
}

/// The model recorded for a key, or the bottom of the value type where
/// none is: the model a lazily materialized value starts from.
pub open spec fn or_bottom<A, V: MapValue>(m: Map<A, V::Model>, a: A) -> V::Model {
    if m.dom().contains(a) {
        m[a]
    } else {
        V::bottom()
    }
}

/// An observed-remove map from keys to replicated values.
pub struct ObserveRemoveMap<K, V: MapValue> {
    /// The observed-remove set deciding which keys are visible.
    pub keys: ObserveRemoveSet<K>,
    /// The value state for every key ever touched, visible or not; keys
    /// distinct.
    pub values: Vec<(K, V)>,
    /// The replica identity handed to freshly materialized values.
    pub value_id: V::Id,
}

/// The operation a map ships: at most one key-set operation and at most
/// one value-level operation, self-contained.
pub struct ORMapOperation<K, V: OperationRDT> {
    /// The add that made the key visible, if it was not already.
    pub key_op: Option<ORSetOperation<K>>,
    /// The key and the operation the value under it produced.
    pub value_op: Option<(K, V::Operation)>,
}

impl<K: Payload, V: MapValue> Replicated for ObserveRemoveMap<K, V> {
    type Model = ((Map<K::Abs, Set<u128>>, Set<u128>), Map<K::Abs, V::Model>);

    open spec fn inv(&self) -> bool {
        &&& self.keys.inv()
        &&& distinct_keys(self.values@)
        &&& forall|i: int| 0 <= i < self.values@.len() ==> (#[trigger] self.values@[i]).1.inv()
    }

    open spec fn model(&self) -> ((Map<K::Abs, Set<u128>>, Set<u128>), Map<K::Abs, V::Model>) {
        (self.keys.model(), values_of(self.values@))
    }
}

impl<K: Payload, V: MapValue> ObserveRemoveMap<K, V> {
    /// An empty map; `value_id` is the replica identity fresh values are
    /// bound to.
    pub fn new(value_id: V::Id) -> (r: Self)
        ensures
            r.inv(),
            r.model() == (
                (Map::<K::Abs, Set<u128>>::empty(), Set::<u128>::empty()),
                Map::<K::Abs, V::Model>::empty(),
            ),
    {
        ObserveRemoveMap { keys: ObserveRemoveSet::new(), values: Vec::new(), value_id }
    }

    /// The value under a key, or nothing when the key is not visible or
    /// never held a value.
    pub fn get(&self, key: &K) -> (r: Option<&V>)
        requires
            self.inv(),
        ensures
            match r {
                Some(v) => {
                    &&& or_live(self.model().0, key.abs())
                    &&& self.model().1.dom().contains(key.abs())
                    &&& v.model() == self.model().1[key.abs()]
                    &&& v.inv()
                },
                None => !or_live(self.model().0, key.abs()) || !self.model().1.dom().contains(
                    key.abs(),
                ),
            },
    {
        if self.keys.contains(key) {
            match find_entry(&self.values, key) {
                Some(i) => {
                    proof {
                        lemma_assoc_map_index(self.values@, vmodel_of::<V>(), i as int);
                    }
                    Some(&self.values[i].1)
                },
                None => {
                    proof {
                        lemma_assoc_map_dom(self.values@, vmodel_of::<V>(), key.abs());
                    }
                    None
                },
            }
        } else {
            None
        }
    }

    /// Update the value under a key with the caller's mutator `f`, which
    /// receives the stored value — a fresh one is materialized if none
    /// was — and returns the updated value with the operation it
    /// produced, if any.  The key is added to the key set unless it is
    /// already visible.  The composite operation to ship is returned;
    /// nothing to ship is signaled by `None`.
    pub fn update<F: FnOnce(V) -> (V, Option<V::Operation>)>(&mut self, key: &K, f: F) -> (r:
        Option<ORMapOperation<K, V>>)
        requires
            old(self).inv(),
            forall|v: V|
                v.inv() && v.model() == or_bottom::<K::Abs, V>(old(self).model().1, key.abs())
                    ==> #[trigger] call_requires(f, (v,)),
            forall|v: V, v2: V, vop: Option<V::Operation>|
                v.inv() && #[trigger] call_ensures(f, (v,), (v2, vop)) ==> v2.inv(),
        ensures
            final(self).inv(),
            match r {
                Some(op) => match op.key_op {
                    Some(kop) => {
                        &&& !or_live(old(self).model().0, key.abs())
                        &&& match kop {
                            ORSetOperation::Add(k2, _) => k2.abs() == key.abs(),
                            ORSetOperation::Remove(_) => false,
                        }
                        &&& final(self).model().0 == ObserveRemoveSet::<K>::apply_spec(
                            old(self).model().0,
                            kop,
                        )
                    },
                    None => or_live(old(self).model().0, key.abs()) && final(self).model().0
                        == old(self).model().0,
                },
                None => or_live(old(self).model().0, key.abs()) && final(self).model().0 == old(
                    self,
                ).model().0,
            },
            exists|v1: V, v2: V, vop: Option<V::Operation>|
                {
                    &&& v1.inv()
                    &&& v1.model() == or_bottom::<K::Abs, V>(old(self).model().1, key.abs())
                    &&& #[trigger] call_ensures(f, (v1,), (v2, vop))
                    &&& final(self).model().1 == old(self).model().1.insert(key.abs(), v2.model())
                    &&& match r {
                        Some(op) => match op.value_op {
                            Some(p) => p.0.abs() == key.abs() && vop == Some(p.1),
                            None => vop is None,
                        },
                        None => vop is None,
                    }
                },
            !or_live(old(self).model().0, key.abs()) ==> r is Some,
    {
        let ghost m0 = self.model();
        let ghost a = key.abs();
        let was_live = self.keys.contains(key);
        let key_op: Option<ORSetOperation<K>> = if was_live {
            None
        } else {
            Some(self.keys.add(key.clone_abs()))
        };
        let found = find_entry(&self.values, key);
        let ghost s0 = self.values@;
        let (k0, v1): (K, V) = match found {
            Some(i) => {
                proof {
                    lemma_assoc_map_index(s0, vmodel_of::<V>(), i as int);
                }
                self.values.remove(i)
            },
            None => {
                proof {
                    lemma_assoc_map_dom(s0, vmodel_of::<V>(), a);
                }
                (key.clone_abs(), V::fresh(&self.value_id))
            },
        };
        let ghost v1g = v1;
        proof {
            assert(v1g.inv() && v1g.model() == or_bottom::<K::Abs, V>(m0.1, a));
            assert(call_requires(f, (v1g,)));
        }
        let (v2, vop) = f(v1);
        let ghost v2g = v2;
        let ghost vopg = vop;
        match found {
            Some(i) => {
                let ghost mid = self.values@;
                self.values.insert(i, (k0, v2));
                proof {
                    assert(self.values@ =~= s0.update(i as int, (s0[i as int].0, v2g)));
                    lemma_assoc_map_update(s0, vmodel_of::<V>(), i as int, (s0[i as int].0, v2g));
                    assert forall|j: int| 0 <= j < self.values@.len() implies (
                    #[trigger] self.values@[j]).1.inv() by {
                        if j == i as int {
                        } else {
                            assert(self.values@[j] == s0[j]);
                        }
                    }
                }
            },
            None => {
                let ghost kvg = (k0, v2g);
                self.values.push((k0, v2));
                proof {
                    assert(self.values@ =~= s0.push(kvg));
                    lemma_assoc_map_push(s0, vmodel_of::<V>(), kvg);
                    assert forall|i: int, j: int| 0 <= i < j < self.values@.len() implies (
                    #[trigger] self.values@[i].0.abs()) != (#[trigger] self.values@[j].0.abs()) by {
                        if j < self.values@.len() - 1 {
                            assert(self.values@[i] == s0[i] && self.values@[j] == s0[j]);
                        } else {
                            assert(self.values@[i] == s0[i]);
                        }
                    }
                    assert forall|j: int| 0 <= j < self.values@.len() implies (
                    #[trigger] self.values@[j]).1.inv() by {
                        if j < self.values@.len() - 1 {
                            assert(self.values@[j] == s0[j]);
                        }
                    }
                }
            },
        }
        let value_op: Option<(K, V::Operation)> = match vop {
            Some(o) => Some((key.clone_abs(), o)),
            None => None,
        };
        let r: Option<ORMapOperation<K, V>> = if key_op.is_some() || value_op.is_some() {
            Some(ORMapOperation { key_op, value_op })
        } else {
            None
        };
        proof {
            assert(call_ensures(f, (v1g,), (v2g, vopg)));
            assert(final(self).model().1 == m0.1.insert(a, v2g.model()));
        }
        r
    }
}

impl<K: Payload, V: MapValue> OperationRDT for ObserveRemoveMap<K, V> {
    type Operation = ORMapOperation<K, V>;

    open spec fn apply_spec(
        m: ((Map<K::Abs, Set<u128>>, Set<u128>), Map<K::Abs, V::Model>),
        op: ORMapOperation<K, V>,
    ) -> ((Map<K::Abs, Set<u128>>, Set<u128>), Map<K::Abs, V::Model>) {
        (
            match op.key_op {
                Some(kop) => ObserveRemoveSet::<K>::apply_spec(m.0, kop),
                None => m.0,
            },
            match op.value_op {
                Some(p) => m.1.insert(
                    p.0.abs(),
                    V::apply_spec(or_bottom::<K::Abs, V>(m.1, p.0.abs()), p.1),
                ),
                None => m.1,
            },
        )
    }

    open spec fn op_compatible(a: ORMapOperation<K, V>, b: ORMapOperation<K, V>) -> bool {
        match (a.value_op, b.value_op) {
            (Some(p), Some(q)) => p.0.abs() != q.0.abs() || V::op_compatible(p.1, q.1),
            _ => true,
        }
    }

    fn apply(&mut self, op: &ORMapOperation<K, V>) {
        match &op.key_op {
            Some(kop) => self.keys.apply(kop),
            None => {},
        }
        match &op.value_op {
            Some(p) => {
                let ghost s0 = self.values@;
                match find_entry(&self.values, &p.0) {
                    Some(i) => {
                        proof {
                            lemma_assoc_map_index(s0, vmodel_of::<V>(), i as int);
                        }
                        let (k0, mut v) = self.values.remove(i);
                        v.apply(&p.1);
                        let ghost vg = v;
                        self.values.insert(i, (k0, v));
                        proof {
                            assert(self.values@ =~= s0.update(i as int, (s0[i as int].0, vg)));
                            lemma_assoc_map_update(
                                s0,
                                vmodel_of::<V>(),
                                i as int,
                                (s0[i as int].0, vg),
                            );
                            assert forall|j: int| 0 <= j < self.values@.len() implies (
                            #[trigger] self.values@[j]).1.inv() by {
                                if j == i as int {
                                } else {
                                    assert(self.values@[j] == s0[j]);
                                }
                            }
                        }
                    },
                    None => {
                        proof {
                            lemma_assoc_map_dom(s0, vmodel_of::<V>(), p.0.abs());
                        }
                        let mut v = V::fresh(&self.value_id);
                        v.apply(&p.1);
                        let ghost vg = v;
                        let kv = (p.0.clone_abs(), v);
                        let ghost kvg = kv;
                        self.values.push(kv);
                        proof {
                            assert(self.values@ =~= s0.push(kvg));
                            lemma_assoc_map_push(s0, vmodel_of::<V>(), kvg);
                            assert forall|i: int, j: int|
                                0 <= i < j < self.values@.len() implies (
                            #[trigger] self.values@[i].0.abs()) != (
                            #[trigger] self.values@[j].0.abs()) by {
                                if j < self.values@.len() - 1 {
                                    assert(self.values@[i] == s0[i] && self.values@[j] == s0[j]);
                                } else {
                                    assert(self.values@[i] == s0[i]);
                                }
                            }
                            assert forall|j: int| 0 <= j < self.values@.len() implies (
                            #[trigger] self.values@[j]).1.inv() by {
                                if j < self.values@.len() - 1 {
                                    assert(self.values@[j] == s0[j]);
                                }
                            }
                        }
                    },
                }
            },
            None => {},
        }
    }

    proof fn lemma_apply_idem(
        m: ((Map<K::Abs, Set<u128>>, Set<u128>), Map<K::Abs, V::Model>),
        op: ORMapOperation<K, V>,
    ) {
        match op.key_op {
            Some(kop) => {
                ObserveRemoveSet::<K>::lemma_apply_idem(m.0, kop);
            },
            None => {},
        }
        match op.value_op {
            Some(p) => {
                let a = p.0.abs();
                let w1 = V::apply_spec(or_bottom::<K::Abs, V>(m.1, a), p.1);
                V::lemma_apply_idem(or_bottom::<K::Abs, V>(m.1, a), p.1);
                assert(m.1.insert(a, w1).insert(a, w1) =~= m.1.insert(a, w1));
            },
            None => {},
        }
    }

    proof fn lemma_apply_comm(
        m: ((Map<K::Abs, Set<u128>>, Set<u128>), Map<K::Abs, V::Model>),
        a: ORMapOperation<K, V>,
        b: ORMapOperation<K, V>,
    ) {
        match (a.key_op, b.key_op) {
            (Some(ka), Some(kb)) => {
                ObserveRemoveSet::<K>::lemma_apply_comm(m.0, ka, kb);
            },
            _ => {},
        }
        match (a.value_op, b.value_op) {
            (Some(p), Some(q)) => {
                let ka = p.0.abs();
                let kb = q.0.abs();
                let b0 = or_bottom::<K::Abs, V>(m.1, ka);
                if ka == kb {
                    V::lemma_apply_comm(b0, p.1, q.1);
                    let w = V::apply_spec(V::apply_spec(b0, p.1), q.1);
                    assert(m.1.insert(ka, w).insert(ka, w) =~= m.1.insert(ka, w));
                    assert(m.1.insert(ka, V::apply_spec(b0, p.1)).insert(ka, w) =~= m.1.insert(
                        ka,
                        w,
                    ));
                    assert(m.1.insert(ka, V::apply_spec(b0, q.1)).insert(
                        ka,
                        V::apply_spec(V::apply_spec(b0, q.1), p.1),
                    ) =~= m.1.insert(ka, w));
                } else {
                    let wa = V::apply_spec(b0, p.1);
                    let wb = V::apply_spec(or_bottom::<K::Abs, V>(m.1, kb), q.1);
                    assert(m.1.insert(ka, wa).insert(kb, wb) =~= m.1.insert(kb, wb).insert(
                        ka,
                        wa,
                    ));
                }
            },
            _ => {},
        }
    }
}

impl<K: Payload, V: MapValue> StateRDT for ObserveRemoveMap<K, V> {
    open spec fn join(
        a: ((Map<K::Abs, Set<u128>>, Set<u128>), Map<K::Abs, V::Model>),
        b: ((Map<K::Abs, Set<u128>>, Set<u128>), Map<K::Abs, V::Model>),
    ) -> ((Map<K::Abs, Set<u128>>, Set<u128>), Map<K::Abs, V::Model>) {
        (ObserveRemoveSet::<K>::join(a.0, b.0), join_maps(a.1, b.1, vjoin::<V>()))
    }

    open spec fn compatible(
        a: ((Map<K::Abs, Set<u128>>, Set<u128>), Map<K::Abs, V::Model>),
        b: ((Map<K::Abs, Set<u128>>, Set<u128>), Map<K::Abs, V::Model>),
    ) -> bool {
        forall|k: K::Abs|
            (#[trigger] a.1.dom().contains(k)) && b.1.dom().contains(k) ==> V::compatible(
                a.1[k],
                b.1[k],
            )
    }

    fn merge(&mut self, other: &Self) {
        self.keys.merge(&other.keys);
        let ghost a1 = values_of(self.values@);
        let n = other.values.len();
        let mut i: usize = 0;
        proof {
            lemma_join_maps_empty(a1, vjoin::<V>());
            assert(values_of(other.values@.take(0)) =~= Map::<K::Abs, V::Model>::empty());
        }
        while i < n
            invariant
                n == other.values@.len(),
                0 <= i <= n,
                other.inv(),
                self.keys.inv(),
                self.keys.model() == ObserveRemoveSet::<K>::join(
                    old(self).keys.model(),
                    other.keys.model(),
                ),
                distinct_keys(self.values@),
                forall|j: int| 0 <= j < self.values@.len() ==> (
                #[trigger] self.values@[j]).1.inv(),
                values_of(self.values@) == join_maps(
                    a1,
                    values_of(other.values@.take(i as int)),
                    vjoin::<V>(),
                ),
            decreases n - i,
        {
            let ghost pre = values_of(other.values@.take(i as int));
            let ghost kv = other.values@[i as int];
            let ghost s0 = self.values@;
            proof {
                assert(other.values@.take(i + 1) =~= other.values@.take(i as int).push(kv));
                lemma_assoc_map_push(other.values@.take(i as int), vmodel_of::<V>(), kv);
                lemma_assoc_map_take_fresh(other.values@, vmodel_of::<V>(), i as int);
                assert(!pre.dom().contains(kv.0.abs()));
                lemma_join_maps_insert_fresh(a1, pre, vjoin::<V>(), kv.0.abs(), kv.1.model());
            }
            match find_entry(&self.values, &other.values[i].0) {
                Some(j) => {
                    proof {
                        lemma_assoc_map_index(s0, vmodel_of::<V>(), j as int);
                    }
                    let (k0, mut v) = self.values.remove(j);
                    v.merge(&other.values[i].1);
                    let ghost vg = v;
                    self.values.insert(j, (k0, v));
                    proof {
                        assert(self.values@ =~= s0.update(j as int, (s0[j as int].0, vg)));
                        lemma_assoc_map_update(
                            s0,
                            vmodel_of::<V>(),
                            j as int,
                            (s0[j as int].0, vg),
                        );
                        assert forall|l: int| 0 <= l < self.values@.len() implies (
                        #[trigger] self.values@[l]).1.inv() by {
                            if l == j as int {
                            } else {
                                assert(self.values@[l] == s0[l]);
                            }
                        }
                        assert(values_of(self.values@) =~= join_maps(
                            a1,
                            values_of(other.values@.take(i + 1)),
                            vjoin::<V>(),
                        ));
                    }
                },
                None => {
                    let mut v = V::fresh(&self.value_id);
                    v.merge(&other.values[i].1);
                    let ghost vg = v;
                    let kv2 = (other.values[i].0.clone_abs(), v);
                    let ghost kvg2 = kv2;
                    self.values.push(kv2);
                    proof {
                        V::lemma_bottom_join(kv.1.model());
                        assert(self.values@ =~= s0.push(kvg2));
                        lemma_assoc_map_push(s0, vmodel_of::<V>(), kvg2);
                        lemma_assoc_map_dom(s0, vmodel_of::<V>(), kv.0.abs());
                        assert forall|l: int, j: int| 0 <= l < j < self.values@.len() implies (
                        #[trigger] self.values@[l].0.abs()) != (
                        #[trigger] self.values@[j].0.abs()) by {
                            if j < self.values@.len() - 1 {
                                assert(self.values@[l] == s0[l] && self.values@[j] == s0[j]);
                            } else {
                                assert(self.values@[l] == s0[l]);
                            }
                        }
                        assert forall|l: int| 0 <= l < self.values@.len() implies (
                        #[trigger] self.values@[l]).1.inv() by {
                            if l < self.values@.len() - 1 {
                                assert(self.values@[l] == s0[l]);
                            }
                        }
                        assert(values_of(self.values@) =~= join_maps(
                            a1,
                            values_of(other.values@.take(i + 1)),
                            vjoin::<V>(),
                        ));
                    }
                },
            }
            i = i + 1;
        }
        proof {
            assert(other.values@.take(n as int) =~= other.values@);
        }
    }

    proof fn lemma_join_idem(
        a: ((Map<K::Abs, Set<u128>>, Set<u128>), Map<K::Abs, V::Model>),
    ) {
        ObserveRemoveSet::<K>::lemma_join_idem(a.0);
        assert forall|k: K::Abs| #[trigger] a.1.dom().contains(k) implies vjoin::<V>()(
            a.1[k],
            a.1[k],
        ) == a.1[k] by {
            V::lemma_join_idem(a.1[k]);
        }
        lemma_join_maps_idem(a.1, vjoin::<V>());
    }

    proof fn lemma_join_comm(
        a: ((Map<K::Abs, Set<u128>>, Set<u128>), Map<K::Abs, V::Model>),
        b: ((Map<K::Abs, Set<u128>>, Set<u128>), Map<K::Abs, V::Model>),
    ) {
        ObserveRemoveSet::<K>::lemma_join_comm(a.0, b.0);
        assert forall|k: K::Abs| (#[trigger] a.1.dom().contains(k)) && b.1.dom().contains(
            k,
        ) implies vjoin::<V>()(a.1[k], b.1[k]) == vjoin::<V>()(b.1[k], a.1[k]) by {
            V::lemma_join_comm(a.1[k], b.1[k]);
        }
        lemma_join_maps_comm(a.1, b.1, vjoin::<V>());
    }

    proof fn lemma_join_assoc(
        a: ((Map<K::Abs, Set<u128>>, Set<u128>), Map<K::Abs, V::Model>),
        b: ((Map<K::Abs, Set<u128>>, Set<u128>), Map<K::Abs, V::Model>),
        c: ((Map<K::Abs, Set<u128>>, Set<u128>), Map<K::Abs, V::Model>),
    ) {
        ObserveRemoveSet::<K>::lemma_join_assoc(a.0, b.0, c.0);
        assert forall|k: K::Abs|
            (#[trigger] a.1.dom().contains(k)) && b.1.dom().contains(k) && c.1.dom().contains(
                k,
            ) implies vjoin::<V>()(vjoin::<V>()(a.1[k], b.1[k]), c.1[k]) == vjoin::<V>()(
            a.1[k],
            vjoin::<V>()(b.1[k], c.1[k]),
        ) by {
            V::lemma_join_assoc(a.1[k], b.1[k], c.1[k]);
        }
        lemma_join_maps_assoc(a.1, b.1, c.1, vjoin::<V>());
    }
}

} // verus!
