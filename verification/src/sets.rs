//! Replicated sets: the grow-only set, the two-phase set with its
//! permanent tombstones, and the observed-remove set whose adds win over
//! concurrent removes.

use vstd::prelude::*;

verus! {

use crate::traits::{Payload, Replicated, StateRDT, OperationRDT};
use crate::model::{
    join_maps, abs_set, distinct_abs, distinct_keys, assoc_map,
    lemma_join_maps_idem, lemma_join_maps_comm, lemma_join_maps_assoc,
    lemma_join_maps_empty, lemma_join_maps_insert_fresh,
    lemma_abs_set_contains, lemma_abs_set_push, lemma_distinct_push,
    lemma_assoc_map_dom, lemma_assoc_map_index, lemma_assoc_map_update, lemma_assoc_map_push,
    lemma_distinct_keys_update, lemma_distinct_keys_push, lemma_assoc_map_take_fresh,
    find_entry, elem_contains, elem_insert, elem_union, clone_elems,
};

/// Relies on uuid::Uuid::new_v4 for a fresh random 128-bit tag; nothing
/// is assumed of the value drawn, and every contract here holds whatever
/// tag comes back.
#[verifier::external_body]
fn fresh_tag() -> u128 {
    uuid::Uuid::new_v4().as_u128()
}

/// A grow-only set: elements can only ever be added.
pub struct GSet<T> {
    /// The elements, distinct.
    pub elements: Vec<T>,
}

/// The operation a grow-only set ships: the added element.
pub struct AddGSetOperation<T>(pub T);

impl<T: Payload> Replicated for GSet<T> {
    type Model = Set<T::Abs>;

    open spec fn inv(&self) -> bool {
        distinct_abs(self.elements@)
    }

    open spec fn model(&self) -> Set<T::Abs> {
        abs_set(self.elements@)
    }
}

impl<T: Payload> GSet<T> {
    /// An empty set.
    pub fn new() -> (r: Self)
        ensures
            r.inv(),
            r.model() == Set::<T::Abs>::empty(),
    {
        GSet { elements: Vec::new() }
    }

    /// The elements of the set.
    pub fn value(&self) -> (r: &Vec<T>)
        ensures
            r@ == self.elements@,
            abs_set(r@) == self.model(),
    {
        &self.elements
    }

    /// Add an element, returning the operation to ship; an element
    /// already present is rejected and nothing changes.
    pub fn add(&mut self, value: T) -> (r: Option<AddGSetOperation<T>>)
        requires
            old(self).inv(),
        ensures
            final(self).inv(),
            (r is None) == old(self).model().contains(value.abs()),
            match r {
                None => *final(self) == *old(self),
                Some(op) => op.0 == value && final(self).model() == Self::apply_spec(
                    old(self).model(),
                    op,
                ),
            },
    {
        if elem_contains(&self.elements, &value) {
            return None;
        }
        elem_insert(&mut self.elements, &value);
        Some(AddGSetOperation(value))
    }
}

impl<T: Payload> OperationRDT for GSet<T> {
    type Operation = AddGSetOperation<T>;

    open spec fn apply_spec(m: Set<T::Abs>, op: AddGSetOperation<T>) -> Set<T::Abs> {
        m.insert(op.0.abs())
    }

    open spec fn op_compatible(a: AddGSetOperation<T>, b: AddGSetOperation<T>) -> bool {
        true
    }

    fn apply(&mut self, op: &AddGSetOperation<T>) {
        elem_insert(&mut self.elements, &op.0);
    }

    proof fn lemma_apply_idem(m: Set<T::Abs>, op: AddGSetOperation<T>) {
        assert(m.insert(op.0.abs()).insert(op.0.abs()) =~= m.insert(op.0.abs()));
    }

    proof fn lemma_apply_comm(m: Set<T::Abs>, a: AddGSetOperation<T>, b: AddGSetOperation<T>) {
        assert(m.insert(a.0.abs()).insert(b.0.abs()) =~= m.insert(b.0.abs()).insert(a.0.abs()));
    }
}

impl<T: Payload> StateRDT for GSet<T> {
    open spec fn join(a: Set<T::Abs>, b: Set<T::Abs>) -> Set<T::Abs> {
        a.union(b)
    }

    open spec fn compatible(a: Set<T::Abs>, b: Set<T::Abs>) -> bool {
        true
    }

    fn merge(&mut self, other: &Self) {
        elem_union(&mut self.elements, &other.elements);
    }

    proof fn lemma_join_idem(a: Set<T::Abs>) {
        assert(a.union(a) =~= a);
    }

    proof fn lemma_join_comm(a: Set<T::Abs>, b: Set<T::Abs>) {
        assert(a.union(b) =~= b.union(a));
    }

    proof fn lemma_join_assoc(a: Set<T::Abs>, b: Set<T::Abs>, c: Set<T::Abs>) {
        assert(a.union(b).union(c) =~= a.union(b.union(c)));
    }
}

/// A two-phase set: removal tombstones an element for good, and the
/// tombstone outlives any later add.
pub struct TwoPhaseSet<T> {
    /// Every element ever added, distinct.
    pub members: Vec<T>,
    /// Every element ever removed, distinct.
    pub tombstones: Vec<T>,
}

/// The operations a two-phase set ships.
pub enum TwoPhaseSetOperation<T> {
    /// Record the element among the members.
    Add(T),
    /// Record the element among the tombstones.
    Remove(T),
}

/// An element is visible when it was added and never removed.
pub open spec fn visible_2p<A>(m: (Set<A>, Set<A>), a: A) -> bool {
    m.0.contains(a) && !m.1.contains(a)
}

impl<T: Payload> Replicated for TwoPhaseSet<T> {
    type Model = (Set<T::Abs>, Set<T::Abs>);

    open spec fn inv(&self) -> bool {
        distinct_abs(self.members@) && distinct_abs(self.tombstones@)
    }

    open spec fn model(&self) -> (Set<T::Abs>, Set<T::Abs>) {
        (abs_set(self.members@), abs_set(self.tombstones@))
    }
}

impl<T: Payload> TwoPhaseSet<T> {
    /// An empty set.
    pub fn new() -> (r: Self)
        ensures
            r.inv(),
            r.model() == (Set::<T::Abs>::empty(), Set::<T::Abs>::empty()),
    {
        TwoPhaseSet { members: Vec::new(), tombstones: Vec::new() }
    }

    /// The visible elements: the members never removed.
    pub fn value(&self) -> (r: Vec<T>)
        requires
            self.inv(),
        ensures
            distinct_abs(r@),
            abs_set(r@) == self.model().0.difference(self.model().1),
    {
        let ghost tset = abs_set(self.tombstones@);
        let n = self.members.len();
        let mut r: Vec<T> = Vec::new();
        let mut i: usize = 0;
        proof {
            assert(abs_set(self.members@.take(0)) =~= Set::<T::Abs>::empty());
            assert(Set::<T::Abs>::empty().difference(tset) =~= Set::<T::Abs>::empty());
        }
        while i < n
            invariant
                n == self.members@.len(),
                0 <= i <= n,
                self.inv(),
                tset == abs_set(self.tombstones@),
                distinct_abs(r@),
                abs_set(r@) == abs_set(self.members@.take(i as int)).difference(tset),
            decreases n - i,
        {
            let ghost s = abs_set(self.members@.take(i as int));
            let ghost a = self.members@[i as int].abs();
            proof {
                assert(self.members@.take(i + 1) =~= self.members@.take(i as int).push(
                    self.members@[i as int],
                ));
                lemma_abs_set_push(self.members@.take(i as int), self.members@[i as int]);
            }
            if !elem_contains(&self.tombstones, &self.members[i]) {
                let c = self.members[i].clone_abs();
                proof {
                    if abs_set(r@).contains(a) {
                        lemma_abs_set_contains(self.members@.take(i as int), a);
                        let j = choose|j: int|
                            0 <= j < i && self.members@.take(i as int)[j].abs() == a;
                        assert(self.members@[j].abs() == self.members@[i as int].abs());
                        assert(false);
                    }
                    lemma_distinct_push(r@, c);
                    lemma_abs_set_push(r@, c);
                    assert(s.insert(a).difference(tset) =~= s.difference(tset).insert(a));
                }
                r.push(c);
            } else {
                proof {
                    assert(s.insert(a).difference(tset) =~= s.difference(tset));
                }
            }
            i = i + 1;
        }
        proof {
            assert(self.members@.take(n as int) =~= self.members@);
        }
        r
    }

    /// Add an element, returning the operation to ship; an element
    /// currently visible is rejected and nothing changes.  Adding a
    /// tombstoned element is accepted but can never make it visible
    /// again.
    pub fn add(&mut self, value: T) -> (r: Option<TwoPhaseSetOperation<T>>)
        requires
            old(self).inv(),
        ensures
            final(self).inv(),
            (r is None) == visible_2p(old(self).model(), value.abs()),
            match r {
                None => *final(self) == *old(self),
                Some(op) => op == TwoPhaseSetOperation::Add(value) && final(self).model()
                    == Self::apply_spec(old(self).model(), op),
            },
    {
        let in_members = elem_contains(&self.members, &value);
        let in_tombstones = elem_contains(&self.tombstones, &value);
        if in_members && !in_tombstones {
            return None;
        }
        elem_insert(&mut self.members, &value);
        Some(TwoPhaseSetOperation::Add(value))
    }

    /// Remove an element, returning the operation to ship; an element not
    /// currently visible is rejected and nothing changes.
    pub fn remove(&mut self, value: T) -> (r: Option<TwoPhaseSetOperation<T>>)
        requires
            old(self).inv(),
        ensures
            final(self).inv(),
            (r is Some) == visible_2p(old(self).model(), value.abs()),
            match r {
                None => *final(self) == *old(self),
                Some(op) => op == TwoPhaseSetOperation::Remove(value) && final(self).model()
                    == Self::apply_spec(old(self).model(), op),
            },
    {
        let in_members = elem_contains(&self.members, &value);
        let in_tombstones = elem_contains(&self.tombstones, &value);
        if !(in_members && !in_tombstones) {
            return None;
        }
        elem_insert(&mut self.tombstones, &value);
        Some(TwoPhaseSetOperation::Remove(value))
    }
}

impl<T: Payload> OperationRDT for TwoPhaseSet<T> {
    type Operation = TwoPhaseSetOperation<T>;

    open spec fn apply_spec(m: (Set<T::Abs>, Set<T::Abs>), op: TwoPhaseSetOperation<T>) -> (
        Set<T::Abs>,
        Set<T::Abs>,
    ) {
        match op {
            TwoPhaseSetOperation::Add(v) => (m.0.insert(v.abs()), m.1),
            TwoPhaseSetOperation::Remove(v) => (m.0, m.1.insert(v.abs())),
        }
    }

    open spec fn op_compatible(a: TwoPhaseSetOperation<T>, b: TwoPhaseSetOperation<T>) -> bool {
        true
    }

    fn apply(&mut self, op: &TwoPhaseSetOperation<T>) {
        match op {
            TwoPhaseSetOperation::Add(v) => elem_insert(&mut self.members, v),
            TwoPhaseSetOperation::Remove(v) => elem_insert(&mut self.tombstones, v),
        }
    }

    proof fn lemma_apply_idem(m: (Set<T::Abs>, Set<T::Abs>), op: TwoPhaseSetOperation<T>) {
        match op {
            TwoPhaseSetOperation::Add(v) => {
                assert(m.0.insert(v.abs()).insert(v.abs()) =~= m.0.insert(v.abs()));
            },
            TwoPhaseSetOperation::Remove(v) => {
                assert(m.1.insert(v.abs()).insert(v.abs()) =~= m.1.insert(v.abs()));
            },
        }
    }

    proof fn lemma_apply_comm(
        m: (Set<T::Abs>, Set<T::Abs>),
        a: TwoPhaseSetOperation<T>,
        b: TwoPhaseSetOperation<T>,
    ) {
        match (a, b) {
            (TwoPhaseSetOperation::Add(x), TwoPhaseSetOperation::Add(y)) => {
                assert(m.0.insert(x.abs()).insert(y.abs()) =~= m.0.insert(y.abs()).insert(
                    x.abs(),
                ));
            },
            (TwoPhaseSetOperation::Remove(x), TwoPhaseSetOperation::Remove(y)) => {
                assert(m.1.insert(x.abs()).insert(y.abs()) =~= m.1.insert(y.abs()).insert(
                    x.abs(),
                ));
            },
            _ => {},
        }
    }
}

impl<T: Payload> StateRDT for TwoPhaseSet<T> {
    open spec fn join(a: (Set<T::Abs>, Set<T::Abs>), b: (Set<T::Abs>, Set<T::Abs>)) -> (
        Set<T::Abs>,
        Set<T::Abs>,
    ) {
        (a.0.union(b.0), a.1.union(b.1))
    }

    open spec fn compatible(a: (Set<T::Abs>, Set<T::Abs>), b: (Set<T::Abs>, Set<T::Abs>)) -> bool {
        true
    }

    fn merge(&mut self, other: &Self) {
        elem_union(&mut self.members, &other.members);
        elem_union(&mut self.tombstones, &other.tombstones);
    }

    proof fn lemma_join_idem(a: (Set<T::Abs>, Set<T::Abs>)) {
        assert(a.0.union(a.0) =~= a.0);
        assert(a.1.union(a.1) =~= a.1);
    }

    proof fn lemma_join_comm(a: (Set<T::Abs>, Set<T::Abs>), b: (Set<T::Abs>, Set<T::Abs>)) {
        assert(a.0.union(b.0) =~= b.0.union(a.0));
        assert(a.1.union(b.1) =~= b.1.union(a.1));
    }

    proof fn lemma_join_assoc(
        a: (Set<T::Abs>, Set<T::Abs>),
        b: (Set<T::Abs>, Set<T::Abs>),
        c: (Set<T::Abs>, Set<T::Abs>),
    ) {
        assert(a.0.union(b.0).union(c.0) =~= a.0.union(b.0.union(c.0)));
        assert(a.1.union(b.1).union(c.1) =~= a.1.union(b.1.union(c.1)));
    }
}

/// Tombstones are permanent: once a value is tombstoned, no operation
/// and no merge can ever make it visible again, on any replica.
pub proof fn lemma_2p_tombstone_permanent<T: Payload>(
    m: (Set<T::Abs>, Set<T::Abs>),
    op: TwoPhaseSetOperation<T>,
    other: (Set<T::Abs>, Set<T::Abs>),
    a: T::Abs,
)
    requires
        m.1.contains(a),
    ensures
        !visible_2p(m, a),
        !visible_2p(TwoPhaseSet::<T>::apply_spec(m, op), a),
        !visible_2p(TwoPhaseSet::<T>::join(m, other), a),
{
}

/// The abstraction of a tag vector to the set of tags it holds.
pub open spec fn tags_of() -> spec_fn(Vec<u128>) -> Set<u128> {
    |ts: Vec<u128>| abs_set(ts@)
}

/// The map of abstract elements to their tag sets that a member vector
/// stands for.
pub open spec fn members_of<T: Payload>(s: Seq<(T, Vec<u128>)>) -> Map<T::Abs, Set<u128>> {
    assoc_map(s, tags_of())
}

/// The join of two tag sets: their union.
pub open spec fn join_union() -> spec_fn(Set<u128>, Set<u128>) -> Set<u128> {
    |x: Set<u128>, y: Set<u128>| x.union(y)
}

/// The tag set recorded for a key, or the empty set where none is.
pub open spec fn or_tags<A>(m: Map<A, Set<u128>>, k: A) -> Set<u128> {
    if m.dom().contains(k) {
        m[k]
    } else {
        Set::empty()
    }
}

/// An element is live when one of its tags has not been tombstoned: an
/// add no concurrent remove observed keeps the element alive.
pub open spec fn or_live<A>(m: (Map<A, Set<u128>>, Set<u128>), a: A) -> bool {
    m.0.dom().contains(a) && exists|u: u128| (#[trigger] m.0[a].contains(u)) && !m.1.contains(u)
}

/// The set of live elements.
pub open spec fn or_value<A>(m: (Map<A, Set<u128>>, Set<u128>)) -> Set<A> {
    Set::new(|a: A| or_live(m, a))
}

/// Extending the member map by a fresh key extends the live set by that
/// key exactly when one of its tags escapes the tombstones.
proof fn lemma_or_value_insert<A>(m: Map<A, Set<u128>>, t: Set<u128>, a: A, s: Set<u128>)
    requires
        !m.dom().contains(a),
    ensures
        or_value((m.insert(a, s), t)) == (if exists|u: u128| s.contains(u) && !t.contains(u) {
            or_value((m, t)).insert(a)
        } else {
            or_value((m, t))
        }),
{
    let m2 = m.insert(a, s);
    if exists|u: u128| s.contains(u) && !t.contains(u) {
        assert forall|b: A|
            or_value((m2, t)).contains(b) == or_value((m, t)).insert(a).contains(b) by {
            if b == a {
                let u = choose|u: u128| s.contains(u) && !t.contains(u);
                assert(m2[a].contains(u) && !t.contains(u));
                assert(or_live((m2, t), a));
            } else {
                if m.dom().contains(b) {
                    assert(m2[b] == m[b]);
                }
            }
        }
        assert(or_value((m2, t)) =~= or_value((m, t)).insert(a));
    } else {
        assert forall|b: A| or_value((m2, t)).contains(b) == or_value((m, t)).contains(b) by {
            if b == a {
                assert(!or_live((m, t), a));
                if or_live((m2, t), a) {
                    let u = choose|u: u128| m2[a].contains(u) && !t.contains(u);
                    assert(s.contains(u) && !t.contains(u));
                }
            } else {
                if m.dom().contains(b) {
                    assert(m2[b] == m[b]);
                }
            }
        }
        assert(or_value((m2, t)) =~= or_value((m, t)));
    }
}

/// An observed-remove set: each add carries a globally fresh tag, and a
/// remove tombstones exactly the tags it has observed.
pub struct ObserveRemoveSet<T> {
    /// The tags recorded for each element ever added; keys distinct, each
    /// tag vector distinct.
    pub members: Vec<(T, Vec<u128>)>,
    /// Every tag ever removed, distinct.
    pub tombstones: Vec<u128>,
}

/// The operations an observed-remove set ships.
pub enum ORSetOperation<T> {
    /// Record one freshly tagged add of the element.
    Add(T, u128),
    /// Tombstone the tags one replica had observed for an element.
    Remove(Vec<u128>),
}

/// Insert one tag into the member entry for `value`, creating the entry
/// if absent.
fn add_tag<T: Payload>(members: &mut Vec<(T, Vec<u128>)>, value: &T, tag: u128)
    requires
        distinct_keys(old(members)@),
        forall|i: int|
            0 <= i < old(members)@.len() ==> distinct_abs((#[trigger] old(members)@[i]).1@),
    ensures
        distinct_keys(final(members)@),
        forall|i: int|
            0 <= i < final(members)@.len() ==> distinct_abs((#[trigger] final(members)@[i]).1@),
        members_of(final(members)@) == members_of(old(members)@).insert(
            value.abs(),
            or_tags(members_of(old(members)@), value.abs()).insert(tag),
        ),
{
    let ghost s0 = members@;
    match find_entry(members, value) {
        Some(i) => {
            proof {
                lemma_assoc_map_index(s0, tags_of(), i as int);
            }
            let mut pair = members.remove(i);
            elem_insert(&mut pair.1, &tag);
            let ghost pfinal = pair;
            members.insert(i, pair);
            proof {
                assert(members@ =~= s0.update(i as int, pfinal));
                lemma_assoc_map_update(s0, tags_of(), i as int, pfinal);
                lemma_distinct_keys_update(s0, i as int, pfinal);
                assert forall|j: int| 0 <= j < members@.len() implies distinct_abs(
                    (#[trigger] members@[j]).1@,
                ) by {
                    if j == i as int {
                        assert(members@[j] == pfinal);
                    } else {
                        assert(members@[j] == s0[j]);
                    }
                }
            }
        },
        None => {
            let mut ts: Vec<u128> = Vec::new();
            ts.push(tag);
            let kv = (value.clone_abs(), ts);
            let ghost kvg = kv;
            members.push(kv);
            proof {
                assert(members@ =~= s0.push(kvg));
                lemma_assoc_map_push(s0, tags_of(), kvg);
                lemma_assoc_map_dom(s0, tags_of(), value.abs());
                assert(kvg.1@.drop_last() =~= Seq::<u128>::empty());
                assert(abs_set(kvg.1@.drop_last()) == Set::<u128>::empty());
                assert(abs_set(kvg.1@) =~= Set::<u128>::empty().insert(tag));
                assert forall|i: int| 0 <= i < s0.len() implies (#[trigger] s0[i].0.abs())
                    != kvg.0.abs() by {
                    assert(s0[i].0.abs() != value.abs());
                }
                lemma_distinct_keys_push(s0, kvg);
            }
        },
    }
}

/// Union a vector of tags into the member entry for `key`, creating the
/// entry if absent.
fn union_tags<T: Payload>(members: &mut Vec<(T, Vec<u128>)>, key: &T, tags: &Vec<u128>)
    requires
        distinct_keys(old(members)@),
        distinct_abs(tags@),
        forall|i: int|
            0 <= i < old(members)@.len() ==> distinct_abs((#[trigger] old(members)@[i]).1@),
    ensures
        distinct_keys(final(members)@),
        forall|i: int|
            0 <= i < final(members)@.len() ==> distinct_abs((#[trigger] final(members)@[i]).1@),
        members_of(final(members)@) == members_of(old(members)@).insert(
            key.abs(),
            or_tags(members_of(old(members)@), key.abs()).union(abs_set(tags@)),
        ),
{
    let ghost s0 = members@;
    match find_entry(members, key) {
        Some(i) => {
            proof {
                lemma_assoc_map_index(s0, tags_of(), i as int);
            }
            let mut pair = members.remove(i);
            elem_union(&mut pair.1, tags);
            let ghost pfinal = pair;
            members.insert(i, pair);
            proof {
                assert(members@ =~= s0.update(i as int, pfinal));
                lemma_assoc_map_update(s0, tags_of(), i as int, pfinal);
                lemma_distinct_keys_update(s0, i as int, pfinal);
                assert forall|j: int| 0 <= j < members@.len() implies distinct_abs(
                    (#[trigger] members@[j]).1@,
                ) by {
                    if j == i as int {
                        assert(members@[j] == pfinal);
                    } else {
                        assert(members@[j] == s0[j]);
                    }
                }
            }
        },
        None => {
            let ts = clone_elems(tags);
            let kv = (key.clone_abs(), ts);
            let ghost kvg = kv;
            members.push(kv);
            proof {
                assert(members@ =~= s0.push(kvg));
                lemma_assoc_map_push(s0, tags_of(), kvg);
                lemma_assoc_map_dom(s0, tags_of(), key.abs());
                assert(Set::<u128>::empty().union(abs_set(tags@)) =~= abs_set(tags@));
                assert forall|i: int| 0 <= i < s0.len() implies (#[trigger] s0[i].0.abs())
                    != kvg.0.abs() by {
                    assert(s0[i].0.abs() != key.abs());
                }
                lemma_distinct_keys_push(s0, kvg);
            }
        },
    }
}

/// Whether some tag of the vector escapes the tombstones.
fn any_live(tags: &Vec<u128>, tombs: &Vec<u128>) -> (r: bool)
    ensures
        r == exists|u: u128| abs_set(tags@).contains(u) && !abs_set(tombs@).contains(u),
{
    let n = tags.len();
    let mut i: usize = 0;
    while i < n
        invariant
            n == tags@.len(),
            0 <= i <= n,
            forall|j: int| 0 <= j < i ==> abs_set(tombs@).contains(#[trigger] tags@[j]),
        decreases n - i,
    {
        if !elem_contains(tombs, &tags[i]) {
            proof {
                lemma_abs_set_contains(tags@, tags@[i as int]);
                assert(tags@[i as int].abs() == tags@[i as int]);
                assert(abs_set(tags@).contains(tags@[i as int]) && !abs_set(tombs@).contains(
                    tags@[i as int],
                ));
            }
            return true;
        }
        i = i + 1;
    }
    proof {
        assert forall|u: u128| abs_set(tags@).contains(u) implies abs_set(tombs@).contains(
            u,
        ) by {
            lemma_abs_set_contains(tags@, u);
            let j = choose|j: int| 0 <= j < tags@.len() && tags@[j].abs() == u;
            assert(abs_set(tombs@).contains(tags@[j]));
        }
    }
    false
}

impl<T: Payload> Replicated for ObserveRemoveSet<T> {
    type Model = (Map<T::Abs, Set<u128>>, Set<u128>);

    open spec fn inv(&self) -> bool {
        &&& distinct_keys(self.members@)
        &&& forall|i: int|
            0 <= i < self.members@.len() ==> distinct_abs((#[trigger] self.members@[i]).1@)
        &&& distinct_abs(self.tombstones@)
    }

    open spec fn model(&self) -> (Map<T::Abs, Set<u128>>, Set<u128>) {
        (members_of(self.members@), abs_set(self.tombstones@))
    }
}

impl<T: Payload> ObserveRemoveSet<T> {
    /// An empty set.
    pub fn new() -> (r: Self)
        ensures
            r.inv(),
            r.model() == (Map::<T::Abs, Set<u128>>::empty(), Set::<u128>::empty()),
    {
        ObserveRemoveSet { members: Vec::new(), tombstones: Vec::new() }
    }

    /// Whether the element is live.
    pub fn contains(&self, value: &T) -> (r: bool)
        requires
            self.inv(),
        ensures
            r == or_live(self.model(), value.abs()),
    {
        match find_entry(&self.members, value) {
            Some(i) => {
                proof {
                    lemma_assoc_map_index(self.members@, tags_of(), i as int);
                }
                let r = any_live(&self.members[i].1, &self.tombstones);
                proof {
                    let m = self.model();
                    let a = value.abs();
                    let ts = self.members@[i as int].1;
                    if r {
                        let u = choose|u: u128|
                            abs_set(ts@).contains(u) && !abs_set(self.tombstones@).contains(u);
                        assert(m.0[a].contains(u) && !m.1.contains(u));
                    } else {
                        if or_live(m, a) {
                            let u = choose|u: u128| m.0[a].contains(u) && !m.1.contains(u);
                            assert(abs_set(ts@).contains(u) && !abs_set(
                                self.tombstones@,
                            ).contains(u));
                        }
                    }
                }
                r
            },
            None => {
                proof {
                    lemma_assoc_map_dom(self.members@, tags_of(), value.abs());
                }
                false
            },
        }
    }

    /// The live elements.
    pub fn value(&self) -> (r: Vec<T>)
        requires
            self.inv(),
        ensures
            distinct_abs(r@),
            abs_set(r@) == or_value(self.model()),
    {
        let ghost tset = abs_set(self.tombstones@);
        let n = self.members.len();
        let mut r: Vec<T> = Vec::new();
        let mut i: usize = 0;
        proof {
            assert(members_of(self.members@.take(0)) =~= Map::<T::Abs, Set<u128>>::empty());
            assert(abs_set(r@) =~= or_value((members_of(self.members@.take(0)), tset)));
        }
        while i < n
            invariant
                n == self.members@.len(),
                0 <= i <= n,
                self.inv(),
                tset == abs_set(self.tombstones@),
                distinct_abs(r@),
                abs_set(r@) == or_value((members_of(self.members@.take(i as int)), tset)),
            decreases n - i,
        {
            let ghost pre = members_of(self.members@.take(i as int));
            let ghost kv = self.members@[i as int];
            let ghost a = kv.0.abs();
            let live = any_live(&self.members[i].1, &self.tombstones);
            proof {
                assert(self.members@.take(i + 1) =~= self.members@.take(i as int).push(kv));
                lemma_assoc_map_push(self.members@.take(i as int), tags_of(), kv);
                lemma_assoc_map_dom(self.members@.take(i as int), tags_of(), a);
                assert(forall|j: int| 0 <= j < i ==> self.members@.take(i as int)[j]
                    == self.members@[j]);
                assert(!pre.dom().contains(a));
            }
            let ghost post = members_of(self.members@.take(i + 1));
            proof {
                lemma_or_value_insert(pre, tset, a, abs_set(kv.1@));
            }
            if live {
                let c = self.members[i].0.clone_abs();
                proof {
                    if abs_set(r@).contains(a) {
                        assert(or_live((pre, tset), a));
                        assert(false);
                    }
                    lemma_distinct_push(r@, c);
                    lemma_abs_set_push(r@, c);
                    assert(or_value((post, tset)) == abs_set(r@).insert(a));
                }
                r.push(c);
            } else {
                proof {
                    assert(or_value((post, tset)) == abs_set(r@));
                }
            }
            i = i + 1;
        }
        proof {
            assert(self.members@.take(n as int) =~= self.members@);
        }
        r
    }

    /// Add an element under a fresh tag; the add always succeeds and its
    /// operation is returned unconditionally.
    pub fn add(&mut self, value: T) -> (op: ORSetOperation<T>)
        requires
            old(self).inv(),
        ensures
            final(self).inv(),
            match op {
                ORSetOperation::Add(v, _) => v == value,
                ORSetOperation::Remove(_) => false,
            },
            final(self).model() == Self::apply_spec(old(self).model(), op),
    {
        let tag = fresh_tag();
        add_tag(&mut self.members, &value, tag);
        ORSetOperation::Add(value, tag)
    }

    /// Remove an element by tombstoning every tag this replica has
    /// observed for it; an element never added here is rejected and
    /// nothing changes.
    pub fn remove(&mut self, value: T) -> (r: Option<ORSetOperation<T>>)
        requires
            old(self).inv(),
        ensures
            final(self).inv(),
            (r is None) == !old(self).model().0.dom().contains(value.abs()),
            match r {
                None => *final(self) == *old(self),
                Some(op) => {
                    &&& match op {
                        ORSetOperation::Remove(ts) => abs_set(ts@) == old(self).model().0[
                            value.abs()],
                        ORSetOperation::Add(_, _) => false,
                    }
                    &&& final(self).model() == Self::apply_spec(old(self).model(), op)
                },
            },
    {
        match find_entry(&self.members, &value) {
            None => {
                proof {
                    lemma_assoc_map_dom(self.members@, tags_of(), value.abs());
                }
                None
            },
            Some(i) => {
                proof {
                    lemma_assoc_map_index(self.members@, tags_of(), i as int);
                }
                let ts = clone_elems(&self.members[i].1);
                elem_union(&mut self.tombstones, &ts);
                Some(ORSetOperation::Remove(ts))
            },
        }
    }
}

/// Adds win over concurrent removes: once an add's tag escapes the
/// tombstones, the element is live, however many observed tags a remove
/// delivered before or after has killed.
pub proof fn lemma_or_add_wins<T: Payload>(
    m: (Map<T::Abs, Set<u128>>, Set<u128>),
    v: T,
    u: u128,
)
    requires
        !m.1.contains(u),
    ensures
        or_live(ObserveRemoveSet::<T>::apply_spec(m, ORSetOperation::Add(v, u)), v.abs()),
{
    let m2 = ObserveRemoveSet::<T>::apply_spec(m, ORSetOperation::Add(v, u));
    assert(m2.0[v.abs()].contains(u) && !m2.1.contains(u));
}

impl<T: Payload> OperationRDT for ObserveRemoveSet<T> {
    type Operation = ORSetOperation<T>;

    open spec fn apply_spec(
        m: (Map<T::Abs, Set<u128>>, Set<u128>),
        op: ORSetOperation<T>,
    ) -> (Map<T::Abs, Set<u128>>, Set<u128>) {
        match op {
            ORSetOperation::Add(v, u) => (
                m.0.insert(v.abs(), or_tags(m.0, v.abs()).insert(u)),
                m.1,
            ),
            ORSetOperation::Remove(ts) => (m.0, m.1.union(abs_set(ts@))),
        }
    }

    open spec fn op_compatible(a: ORSetOperation<T>, b: ORSetOperation<T>) -> bool {
        true
    }

    fn apply(&mut self, op: &ORSetOperation<T>) {
        match op {
            ORSetOperation::Add(v, u) => {
                add_tag(&mut self.members, v, *u);
            },
            ORSetOperation::Remove(ts) => {
                elem_union(&mut self.tombstones, ts);
            },
        }
    }

    proof fn lemma_apply_idem(
        m: (Map<T::Abs, Set<u128>>, Set<u128>),
        op: ORSetOperation<T>,
    ) {
        match op {
            ORSetOperation::Add(v, u) => {
                let a = v.abs();
                let s1 = or_tags(m.0, a).insert(u);
                let m1 = m.0.insert(a, s1);
                assert(s1.insert(u) =~= s1);
                assert(m1.insert(a, s1) =~= m1);
            },
            ORSetOperation::Remove(ts) => {
                assert(m.1.union(abs_set(ts@)).union(abs_set(ts@)) =~= m.1.union(abs_set(ts@)));
            },
        }
    }

    proof fn lemma_apply_comm(
        m: (Map<T::Abs, Set<u128>>, Set<u128>),
        a: ORSetOperation<T>,
        b: ORSetOperation<T>,
    ) {
        let l = Self::apply_spec(Self::apply_spec(m, a), b);
        let r = Self::apply_spec(Self::apply_spec(m, b), a);
        match (a, b) {
            (ORSetOperation::Add(v1, u1), ORSetOperation::Add(v2, u2)) => {
                if v1.abs() == v2.abs() {
                    assert(or_tags(m.0, v1.abs()).insert(u1).insert(u2) =~= or_tags(
                        m.0,
                        v1.abs(),
                    ).insert(u2).insert(u1));
                }
                assert(l.0 =~= r.0);
            },
            (ORSetOperation::Remove(t1), ORSetOperation::Remove(t2)) => {
                assert(l.1 =~= r.1);
            },
            _ => {},
        }
    }
}

impl<T: Payload> StateRDT for ObserveRemoveSet<T> {
    open spec fn join(
        a: (Map<T::Abs, Set<u128>>, Set<u128>),
        b: (Map<T::Abs, Set<u128>>, Set<u128>),
    ) -> (Map<T::Abs, Set<u128>>, Set<u128>) {
        (join_maps(a.0, b.0, join_union()), a.1.union(b.1))
    }

    open spec fn compatible(
        a: (Map<T::Abs, Set<u128>>, Set<u128>),
        b: (Map<T::Abs, Set<u128>>, Set<u128>),
    ) -> bool {
        true
    }

    fn merge(&mut self, other: &Self) {
        let ghost a0 = members_of(self.members@);
        let ghost t0 = self.tombstones@;
        let n = other.members.len();
        let mut i: usize = 0;
        proof {
            lemma_join_maps_empty(a0, join_union());
            assert(members_of(other.members@.take(0)) =~= Map::<T::Abs, Set<u128>>::empty());
        }
        while i < n
            invariant
                n == other.members@.len(),
                0 <= i <= n,
                other.inv(),
                distinct_keys(self.members@),
                forall|j: int|
                    0 <= j < self.members@.len() ==> distinct_abs(
                        (#[trigger] self.members@[j]).1@,
                    ),
                self.tombstones@ == t0,
                members_of(self.members@) == join_maps(
                    a0,
                    members_of(other.members@.take(i as int)),
                    join_union(),
                ),
            decreases n - i,
        {
            let ghost pre = members_of(other.members@.take(i as int));
            let ghost kv = other.members@[i as int];
            union_tags(&mut self.members, &other.members[i].0, &other.members[i].1);
            proof {
                assert(other.members@.take(i + 1) =~= other.members@.take(i as int).push(kv));
                lemma_assoc_map_push(other.members@.take(i as int), tags_of(), kv);
                lemma_assoc_map_take_fresh(other.members@, tags_of(), i as int);
                assert(!pre.dom().contains(kv.0.abs()));
                lemma_join_maps_insert_fresh(a0, pre, join_union(), kv.0.abs(), abs_set(kv.1@));
                if !a0.dom().contains(kv.0.abs()) {
                    assert(Set::<u128>::empty().union(abs_set(kv.1@)) =~= abs_set(kv.1@));
                }
                assert(members_of(self.members@) =~= join_maps(
                    a0,
                    members_of(other.members@.take(i + 1)),
                    join_union(),
                ));
            }
            i = i + 1;
        }
        proof {
            assert(other.members@.take(n as int) =~= other.members@);
        }
        elem_union(&mut self.tombstones, &other.tombstones);
    }

    proof fn lemma_join_idem(a: (Map<T::Abs, Set<u128>>, Set<u128>)) {
        assert forall|k: T::Abs| #[trigger] a.0.dom().contains(k) implies join_union()(
            a.0[k],
            a.0[k],
        ) == a.0[k] by {
            assert(a.0[k].union(a.0[k]) =~= a.0[k]);
        }
        lemma_join_maps_idem(a.0, join_union());
        assert(a.1.union(a.1) =~= a.1);
    }

    proof fn lemma_join_comm(
        a: (Map<T::Abs, Set<u128>>, Set<u128>),
        b: (Map<T::Abs, Set<u128>>, Set<u128>),
    ) {
        assert forall|k: T::Abs| (#[trigger] a.0.dom().contains(k)) && b.0.dom().contains(
            k,
        ) implies join_union()(a.0[k], b.0[k]) == join_union()(b.0[k], a.0[k]) by {
            assert(a.0[k].union(b.0[k]) =~= b.0[k].union(a.0[k]));
        }
        lemma_join_maps_comm(a.0, b.0, join_union());
        assert(a.1.union(b.1) =~= b.1.union(a.1));
    }

    proof fn lemma_join_assoc(
        a: (Map<T::Abs, Set<u128>>, Set<u128>),
        b: (Map<T::Abs, Set<u128>>, Set<u128>),
        c: (Map<T::Abs, Set<u128>>, Set<u128>),
    ) {
        assert forall|k: T::Abs|
            (#[trigger] a.0.dom().contains(k)) && b.0.dom().contains(k) && c.0.dom().contains(
                k,
            ) implies join_union()(join_union()(a.0[k], b.0[k]), c.0[k]) == join_union()(
            a.0[k],
            join_union()(b.0[k], c.0[k]),
        ) by {
            assert(a.0[k].union(b.0[k]).union(c.0[k]) =~= a.0[k].union(b.0[k].union(c.0[k])));
        }
        lemma_join_maps_assoc(a.0, b.0, c.0, join_union());
        assert(a.1.union(b.1).union(c.1) =~= a.1.union(b.1.union(c.1)));
    }
}

} // verus!
