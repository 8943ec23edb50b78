//! The last-writer-wins register: a single value stamped with the
//! wall-clock time of its write; the later stamp wins, and the local side
//! wins a tie.

use vstd::prelude::*;

verus! {

use crate::traits::{Payload, DefaultPayload, Replicated, StateRDT, OperationRDT};

/// Relies on chrono::Utc::now for the wall-clock reading that stamps a
/// write, in nanoseconds since the epoch; nothing is assumed of the value
/// read, and every contract here holds whatever the clock says.
#[verifier::external_body]
fn now_nanos() -> i64 {
    chrono::Utc::now().timestamp_nanos_opt().unwrap_or(i64::MAX)
}

/// A last-writer-wins register holding one value and the timestamp of the
/// write that set it.  A fresh register holds the payload default, stamped
/// with the epoch.
pub struct LWWRegister<T> {
    /// The value most recently written, as far as this replica has seen.
    pub value: T,
    /// The timestamp of that write, in nanoseconds since the epoch.
    pub timestamp: i64,
}

/// The operation a register ships: the written value and its stamp.
pub struct SetLWWRegisterOperation<T> {
    /// The value written.
    pub value: T,
    /// The wall-clock stamp of the write.
    pub timestamp: i64,
}

/// The later-stamp-wins choice between two register states, the first
/// winning a tie.
pub open spec fn later_of<A>(a: (A, int), b: (A, int)) -> (A, int) {
    if b.1 > a.1 {
        b
    } else {
        a
    }
}

impl<T: Payload> Replicated for LWWRegister<T> {
    type Model = (T::Abs, int);

    open spec fn inv(&self) -> bool {
        true
    }

    open spec fn model(&self) -> (T::Abs, int) {
        (self.value.abs(), self.timestamp as int)
    }
}

impl<T: DefaultPayload> LWWRegister<T> {
    /// A register holding the payload default, stamped with the epoch.
    pub fn new() -> (r: Self)
        ensures
            r.inv(),
            r.model() == (T::default_abs(), 0int),
    {
        LWWRegister { value: T::default_payload(), timestamp: 0 }
    }
}

impl<T: Payload> LWWRegister<T> {
    /// The current value.
    pub fn value(&self) -> (r: &T)
        ensures
            *r == self.value,
    {
        &self.value
    }

    /// Write a value stamped with the wall clock now, returning the
    /// operation to ship.  The local state adopts the write exactly when
    /// the stamp read is later than the stamp already held.
    pub fn set(&mut self, value: T) -> (op: SetLWWRegisterOperation<T>)
        ensures
            final(self).inv(),
            op.value == value,
            final(self).model() == Self::apply_spec(old(self).model(), op),
    {
        let ts = now_nanos();
        let op = SetLWWRegisterOperation { value, timestamp: ts };
        self.apply(&op);
        op
    }
}

impl<T: Payload> OperationRDT for LWWRegister<T> {
    type Operation = SetLWWRegisterOperation<T>;

    open spec fn apply_spec(m: (T::Abs, int), op: SetLWWRegisterOperation<T>) -> (T::Abs, int) {
        later_of(m, (op.value.abs(), op.timestamp as int))
    }

    open spec fn op_compatible(
        a: SetLWWRegisterOperation<T>,
        b: SetLWWRegisterOperation<T>,
    ) -> bool {
        a.timestamp != b.timestamp || a.value.abs() == b.value.abs()
    }

    fn apply(&mut self, op: &SetLWWRegisterOperation<T>) {
        if op.timestamp > self.timestamp {
            self.value = op.value.clone_abs();
            self.timestamp = op.timestamp;
        }
    }

    proof fn lemma_apply_idem(m: (T::Abs, int), op: SetLWWRegisterOperation<T>) {
    }

    proof fn lemma_apply_comm(
        m: (T::Abs, int),
        a: SetLWWRegisterOperation<T>,
        b: SetLWWRegisterOperation<T>,
    ) {
    }
}

impl<T: Payload> StateRDT for LWWRegister<T> {
    open spec fn join(a: (T::Abs, int), b: (T::Abs, int)) -> (T::Abs, int) {
        later_of(a, b)
    }

    open spec fn compatible(a: (T::Abs, int), b: (T::Abs, int)) -> bool {
        a.1 != b.1 || a.0 == b.0
    }

    fn merge(&mut self, other: &Self) {
        if other.timestamp > self.timestamp {
            self.value = other.value.clone_abs();
            self.timestamp = other.timestamp;
        }
    }

    proof fn lemma_join_idem(a: (T::Abs, int)) {
    }

    proof fn lemma_join_comm(a: (T::Abs, int), b: (T::Abs, int)) {
    }

    proof fn lemma_join_assoc(a: (T::Abs, int), b: (T::Abs, int), c: (T::Abs, int)) {
    }
}

} // verus!
