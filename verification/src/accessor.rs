//! Key accessors: one index per key kind, translating key values of that
//! kind to slot ids in the global store.

use vstd::prelude::*;
use std::collections::HashMap;
use crate::GlobalEntryId;

verus! {

broadcast use vstd::std_specs::hash::group_hash_axioms;

/// The index backing one key kind: a map from key values of that kind to
/// the slot id of the entry that currently owns the value.
pub struct KeyAccessor {
    /// The key kind this accessor serves.
    pub kind: u64,
    /// The backing index.  Use the methods below; they carry the contracts.
    pub map: HashMap<u64, GlobalEntryId>,
}

impl View for KeyAccessor {
    type V = Map<u64, GlobalEntryId>;

    closed spec fn view(&self) -> Map<u64, GlobalEntryId> {
        self.map@
    }
}

impl KeyAccessor {
    /// A fresh, empty accessor for the given kind.
    pub fn new(kind: u64) -> (r: KeyAccessor)
        ensures
            r.kind == kind,
            r@ =~= Map::<u64, GlobalEntryId>::empty(),
    {
        KeyAccessor { kind, map: HashMap::new() }
    }

    /// Claim `value` for the entry in slot `id`; returns the slot that
    /// owned the value before, if any.
    pub fn insert(&mut self, value: u64, id: GlobalEntryId) -> (prev: Option<GlobalEntryId>)
        ensures
            final(self)@ == old(self)@.insert(value, id),
            final(self).kind == old(self).kind,
            match prev {
                Some(p) => old(self)@.contains_key(value) && p == old(self)@[value],
                None => !old(self)@.contains_key(value),
            },
    {
        self.map.insert(value, id)
    }

    /// Release `value`: afterwards it resolves to no slot.
    pub fn remove(&mut self, value: u64)
        ensures
            final(self)@ == old(self)@.remove(value),
            final(self).kind == old(self).kind,
    {
        self.map.remove(&value);
    }

    /// The slot that currently owns `value`, if any.
    pub fn get(&self, value: u64) -> (r: Option<GlobalEntryId>)
        ensures
            match r {
                Some(p) => self@.contains_key(value) && p == self@[value],
                None => !self@.contains_key(value),
            },
    {
        match self.map.get(&value) {
            Some(id) => Some(*id),
            None => None,
        }
    }
}

} // verus!
