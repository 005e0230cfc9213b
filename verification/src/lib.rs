//! A minimal runtime core for event-driven applications built around a
//! shared store of multi-keyed, slot-addressed values ("globals").
//!
//! The store keeps each value in an independently addressable slot; a value
//! is reachable through any of the key parts it was defined with, and a key
//! part that is claimed by a newer entry is revoked from its old owner.
//! An event queue and a scheduler registry drive handler dispatch; the
//! thread pool and the lock-based runtime around this core live outside
//! the verified library.

pub mod access;
pub mod accessor;
pub mod events;
pub mod globals;
pub mod keys;
pub mod singleton;
pub mod systems;

use vstd::prelude::*;

verus! {

/// Index of a slot in the global store.
pub type GlobalEntryId = usize;

} // verus!
