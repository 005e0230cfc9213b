//! The built-in singleton-by-type key convention: a value is addressable
//! by the identity of its own type alone, so the store holds at most one
//! instance per type code.  Type identities are carried as plain `u64`
//! codes; the runtime around the library assigns them.

use vstd::prelude::*;
use crate::GlobalEntryId;
use crate::accessor::KeyAccessor;
use crate::globals::{
    define_step, key_set, strip_key, strip_slot, GlobalEntry, Globals, GlobalsExt,
    IntoGlobalEntries, SINGLETON_KIND,
};
use crate::keys::{GlobalKey, IntoGlobalKey, KeyPart};

verus! {

/// The extension that registers the singleton key kind.
pub struct SingletonGlobals;

impl GlobalsExt for SingletonGlobals {
    open spec fn accessor_kinds() -> Seq<u64> {
        seq![SINGLETON_KIND]
    }

    fn init_accessors() -> (r: Vec<KeyAccessor>)
        ensures
            r@.len() == Self::accessor_kinds().len(),
            forall|i: int|
                0 <= i < r@.len() ==> (#[trigger] r@[i]).kind == Self::accessor_kinds()[i]
                    && r@[i]@ =~= Map::<u64, GlobalEntryId>::empty(),
    {
        let mut v = Vec::new();
        v.push(KeyAccessor::new(SINGLETON_KIND));
        v
    }
}

/// A value paired with the type code it is the singleton of.
pub struct Singleton<V> {
    /// The code standing for the value's type identity.
    pub type_code: u64,
    /// The value itself.
    pub value: V,
}

/// The singleton key for one type code.
#[derive(Clone, Copy, PartialEq, Eq, Structural, Debug)]
pub struct SingletonKey {
    pub type_code: u64,
}

/// The key part a singleton key consists of.
pub open spec fn singleton_part(type_code: u64) -> KeyPart {
    KeyPart { kind: SINGLETON_KIND, value: type_code }
}

impl<V> Singleton<V> {
    /// The key this singleton is addressable by.
    pub fn key(&self) -> (r: SingletonKey)
        ensures
            r.type_code == self.type_code,
    {
        SingletonKey { type_code: self.type_code }
    }

    /// The entry that defines this singleton in the store.
    pub fn into_global_entry(self) -> (r: GlobalEntry<V>)
        ensures
            r.key.parts@ =~= seq![singleton_part(self.type_code)],
            r.value == self.value,
    {
        GlobalEntry { key: GlobalKey::single(KeyPart { kind: SINGLETON_KIND, value: self.type_code }), value: self.value }
    }
}

impl<V> IntoGlobalEntries<V> for Singleton<V> {
    open spec fn spec_entries(self) -> Seq<(Seq<KeyPart>, V)> {
        seq![(seq![singleton_part(self.type_code)], self.value)]
    }

    fn into_global_entries(self) -> (r: Vec<GlobalEntry<V>>) {
        let mut v = Vec::new();
        v.push(self.into_global_entry());
        v
    }
}

impl IntoGlobalKey for SingletonKey {
    open spec fn spec_key_parts(self) -> Seq<KeyPart> {
        seq![singleton_part(self.type_code)]
    }

    fn into_global_key(self) -> (r: GlobalKey)
        ensures
            r.parts@ =~= self.spec_key_parts(),
    {
        GlobalKey::single(KeyPart { kind: SINGLETON_KIND, value: self.type_code })
    }
}

/// Defining a singleton makes its value retrievable through the type
/// code's key alone.  Defining a second singleton of the same type code
/// replaces the first: the key thereafter yields only the new value, and
/// the old entry's slot is vacated (unless the new entry happened to
/// reuse that very slot).
pub proof fn lemma_singleton_replaces<V>(
    g0: Globals<V>,
    g1: Globals<V>,
    g2: Globals<V>,
    tc: u64,
    v1: V,
    v2: V,
)
    requires
        define_step(g0, g1, seq![singleton_part(tc)], v1),
        define_step(g1, g2, seq![singleton_part(tc)], v2),
    ensures
        g1.resolve(seq![singleton_part(tc)]) == Some(g0.alloc_id()),
        g1.slot_at(g0.alloc_id() as int) == Some((seq![singleton_part(tc)], v1)),
        g2.resolve(seq![singleton_part(tc)]) == Some(g1.alloc_id()),
        g2.slot_at(g1.alloc_id() as int) == Some((seq![singleton_part(tc)], v2)),
        g1.alloc_id() != g0.alloc_id() ==> g2.slot_at(g0.alloc_id() as int) is None,
{
    let p = singleton_part(tc);
    let parts = seq![p];
    assert(parts.contains(p)) by {
        assert(parts[0] == p);
    }
    if g1.alloc_id() != g0.alloc_id() {
        let id0 = g0.alloc_id();
        assert(g2.slot_at(id0 as int) == strip_slot(g1.slot_at(id0 as int), key_set(parts)));
        assert(key_set(parts).contains(p));
        assert(strip_key(parts, key_set(parts)) =~= Seq::<KeyPart>::empty()) by {
            assert(parts.drop_last() =~= Seq::<KeyPart>::empty());
            assert(parts.last() == p);
            assert(strip_key(Seq::<KeyPart>::empty(), key_set(parts)) =~= Seq::<
                KeyPart,
            >::empty());
        }
    }
}

/// Anything that can produce a singleton key.
pub trait IntoSingletonKey {
    /// The singleton key of this value.
    fn singleton_key(&self) -> SingletonKey;
}

impl<V> IntoSingletonKey for Singleton<V> {
    fn singleton_key(&self) -> (r: SingletonKey)
        ensures
            r.type_code == self.type_code,
    {
        SingletonKey { type_code: self.type_code }
    }
}

} // verus!
