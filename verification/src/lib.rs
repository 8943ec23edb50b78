//! Conflict-free replicated data types: counters, registers, sets and a
//! map of replicated values.  Every container can be updated on independent
//! replicas and reconciled either by exchanging operation descriptors
//! (`OperationRDT`) or full state snapshots (`StateRDT`); the semilattice
//! laws that make reconciliation order-insensitive are stated and proved
//! alongside the code.

pub mod traits;
pub mod model;
pub mod counters;
pub mod registers;
pub mod sets;
pub mod maps;

pub use crate::counters::{GCounter, PNCounter, OpCounter};
pub use crate::registers::LWWRegister;
pub use crate::sets::{GSet, TwoPhaseSet, ObserveRemoveSet};
pub use crate::maps::ObserveRemoveMap;
