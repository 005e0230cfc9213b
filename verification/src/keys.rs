//! Keys for the global store.
//!
//! A key is a sequence of *parts*; each part pairs a kind (the identity of
//! the key family it belongs to) with a value drawn from that family.
//! A single entry may carry several parts of distinct kinds and is then
//! addressable through any one of them.

use vstd::prelude::*;

verus! {

/// One addressable component of a key: a kind together with a value of
/// that kind.  Two parts are the same part exactly when both fields agree.
#[derive(Clone, Copy, PartialEq, Eq, Structural, Debug)]
pub struct KeyPart {
    /// Identity of the key family this part belongs to.
    pub kind: u64,
    /// The key value within that family.
    pub value: u64,
}

/// A full key: the ordered set of parts an entry is addressable by.
/// Lookup tries the parts in order and takes the first that resolves.
pub struct GlobalKey {
    pub parts: Vec<KeyPart>,
}

/// A key is well formed when no two of its parts belong to the same kind.
pub open spec fn key_wf(parts: Seq<KeyPart>) -> bool {
    forall|i: int, j: int| 0 <= i < j < parts.len() ==> parts[i].kind != parts[j].kind
}

impl GlobalKey {
    /// The key with exactly one part.
    pub fn single(part: KeyPart) -> (r: GlobalKey)
        ensures
            r.parts@ =~= seq![part],
    {
        GlobalKey { parts: vec![part] }
    }
}

/// The identity a key value carries: the kind of the key family it
/// belongs to.  The store files a part under its kind's accessor.
pub trait AnyKey {
    /// The kind this key value belongs to.
    fn anykey_type_id(&self) -> u64;
}

impl AnyKey for KeyPart {
    fn anykey_type_id(&self) -> (r: u64)
        ensures
            r == self.kind,
    {
        self.kind
    }
}

/// Conversion of a symbolic key into the full key the store resolves.
pub trait IntoGlobalKey: Sized {
    /// The parts of the key this value stands for.
    spec fn spec_key_parts(self) -> Seq<KeyPart>;

    /// Build the full key.
    fn into_global_key(self) -> (r: GlobalKey)
        ensures
            r.parts@ =~= self.spec_key_parts(),
    ;
}

} // verus!
