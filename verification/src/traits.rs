//! The capability contracts shared by every replicated type, and the
//! small trait that element and key domains must satisfy.

use vstd::prelude::*;

verus! {

/// An element, key or replica-identity domain.
///
/// Payloads are value types: all a container ever does with one is compare
/// it and clone it, and both are pinned to the abstract value `abs` that
/// the payload stands for.
pub trait Payload: Sized {
    /// The mathematical value this payload stands for.
    type Abs;

    /// The abstract value of this payload.
    spec fn abs(&self) -> Self::Abs;

    /// Equality, decided exactly on the abstract values.
    fn eq_abs(&self, other: &Self) -> (r: bool)
        ensures
            r == (self.abs() == other.abs()),
    ;

    /// A deep clone with the same abstract value.
    fn clone_abs(&self) -> (r: Self)
        ensures
            r.abs() == self.abs(),
    ;
}

/// A payload domain with a distinguished default element, used by the
/// register for its initial value.
pub trait DefaultPayload: Payload {
    /// The abstract value of the default element.
    spec fn default_abs() -> Self::Abs;

    /// The default element.
    fn default_payload() -> (r: Self)
        ensures
            r.abs() == Self::default_abs(),
    ;
}

/// A replicated type with a mathematical model.
///
/// `model` abstracts the concrete representation (association vectors) to
/// maps and sets; `inv` is the representation invariant that constructors
/// establish and every method preserves.
pub trait Replicated: Sized {
    /// The mathematical model of a state.
    type Model;

    /// The representation invariant.
    spec fn inv(&self) -> bool;

    /// The model of this state.
    spec fn model(&self) -> Self::Model;
}

/// A state-convergent replicated type: two replicas reconcile by folding
/// one full state into the other with `merge`.
///
/// `merge` computes the join of the two models, and the join is proved to
/// be idempotent, commutative and associative, so snapshots may be
/// exchanged in any order, repeatedly, and still converge.
pub trait StateRDT: Replicated {
    /// The join of two models: the model `merge` leaves behind.
    spec fn join(a: Self::Model, b: Self::Model) -> Self::Model;

    /// The pairs of models on which the join commutes.  Every type but the
    /// last-writer-wins register declares all pairs compatible; the
    /// register must except states whose timestamps tie while the values
    /// differ, where its local-wins rule is deliberately asymmetric.
    spec fn compatible(a: Self::Model, b: Self::Model) -> bool;

    /// Fold another replica's full state into this one.
    fn merge(&mut self, other: &Self)
        requires
            old(self).inv(),
            other.inv(),
        ensures
            final(self).inv(),
            final(self).model() == Self::join(old(self).model(), other.model()),
    ;

    /// The join is idempotent: merging a state into itself changes nothing.
    proof fn lemma_join_idem(a: Self::Model)
        ensures
            Self::join(a, a) == a,
    ;

    /// The join is commutative on compatible states.
    proof fn lemma_join_comm(a: Self::Model, b: Self::Model)
        requires
            Self::compatible(a, b),
        ensures
            Self::join(a, b) == Self::join(b, a),
    ;

    /// The join is associative.
    proof fn lemma_join_assoc(a: Self::Model, b: Self::Model, c: Self::Model)
        ensures
            Self::join(Self::join(a, b), c) == Self::join(a, Self::join(b, c)),
    ;
}

/// An operation-convergent replicated type: a local mutation returns a
/// self-contained operation descriptor, and `apply` folds a descriptor
/// produced anywhere into the local state.
///
/// Applying is proved idempotent, and commutative on compatible pairs of
/// operations, so the carrier may duplicate and reorder deliveries and
/// the replicas still converge.
pub trait OperationRDT: Replicated {
    /// The operation descriptor shipped between replicas.
    type Operation;

    /// The model `apply` leaves behind.
    spec fn apply_spec(m: Self::Model, op: Self::Operation) -> Self::Model;

    /// The pairs of operations whose applications commute.  Every type
    /// but the last-writer-wins register declares all pairs compatible;
    /// the register must except writes whose timestamps tie while the
    /// values differ, where its local-wins rule is deliberately
    /// asymmetric.
    spec fn op_compatible(a: Self::Operation, b: Self::Operation) -> bool;

    /// Incorporate one remote operation.
    fn apply(&mut self, op: &Self::Operation)
        requires
            old(self).inv(),
        ensures
            final(self).inv(),
            final(self).model() == Self::apply_spec(old(self).model(), *op),
    ;

    /// Applying is idempotent: delivering the same operation twice
    /// leaves the state the first delivery reached.
    proof fn lemma_apply_idem(m: Self::Model, op: Self::Operation)
        ensures
            Self::apply_spec(Self::apply_spec(m, op), op) == Self::apply_spec(m, op),
    ;

    /// Applying commutes on compatible operations: delivery order does
    /// not matter.
    proof fn lemma_apply_comm(m: Self::Model, a: Self::Operation, b: Self::Operation)
        requires
            Self::op_compatible(a, b),
        ensures
            Self::apply_spec(Self::apply_spec(m, a), b) == Self::apply_spec(
                Self::apply_spec(m, b),
                a,
            ),
    ;
}

/// A replicated type fit to live as the value of an `ObserveRemoveMap`:
/// the map materializes values lazily, so it must be able to make a fresh
/// one from the replica identity it was built with, and a fresh value must
/// be the bottom of the join so that merging it away is harmless.
pub trait MapValue: StateRDT + OperationRDT {
    /// The replica-identity type a fresh value is built from.
    type Id;

    /// The model of a fresh value.
    spec fn bottom() -> Self::Model;

    /// A fresh value bound to the given replica identity.
    fn fresh(id: &Self::Id) -> (r: Self)
        ensures
            r.inv(),
            r.model() == Self::bottom(),
    ;

    /// A fresh value is the neutral element of the join.
    proof fn lemma_bottom_join(m: Self::Model)
        ensures
            Self::join(Self::bottom(), m) == m,
            Self::join(m, Self::bottom()) == m,
    ;
}

impl Payload for u64 {
    type Abs = u64;

    open spec fn abs(&self) -> u64 {
        *self
    }

    fn eq_abs(&self, other: &Self) -> bool {
        *self == *other
    }

    fn clone_abs(&self) -> Self {
        *self
    }
}

impl Payload for i64 {
    type Abs = i64;

    open spec fn abs(&self) -> i64 {
        *self
    }

    fn eq_abs(&self, other: &Self) -> bool {
        *self == *other
    }

    fn clone_abs(&self) -> Self {
        *self
    }
}

impl Payload for u32 {
    type Abs = u32;

    open spec fn abs(&self) -> u32 {
        *self
    }

    fn eq_abs(&self, other: &Self) -> bool {
        *self == *other
    }

    fn clone_abs(&self) -> Self {
        *self
    }
}

impl Payload for i32 {
    type Abs = i32;

    open spec fn abs(&self) -> i32 {
        *self
    }

    fn eq_abs(&self, other: &Self) -> bool {
        *self == *other
    }

    fn clone_abs(&self) -> Self {
        *self
    }
}

impl Payload for u128 {
    type Abs = u128;

    open spec fn abs(&self) -> u128 {
        *self
    }

    fn eq_abs(&self, other: &Self) -> bool {
        *self == *other
    }

    fn clone_abs(&self) -> Self {
        *self
    }
}

impl Payload for String {
    type Abs = Seq<char>;

    open spec fn abs(&self) -> Seq<char> {
        self@
    }

    fn eq_abs(&self, other: &Self) -> bool {
        self.eq(other)
    }

    fn clone_abs(&self) -> Self {
        self.clone()
    }
}

impl DefaultPayload for String {
    open spec fn default_abs() -> Seq<char> {
        Seq::<char>::empty()
    }

    fn default_payload() -> Self {
        String::new()
    }
}

impl DefaultPayload for u64 {
    open spec fn default_abs() -> u64 {
        0u64
    }

    fn default_payload() -> Self {
        0u64
    }
}

impl DefaultPayload for i64 {
    open spec fn default_abs() -> i64 {
        0i64
    }

    fn default_payload() -> Self {
        0i64
    }
}

} // verus!
