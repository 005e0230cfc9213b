//! Helpers that pin the value type of a looked-up global to the type its
//! symbolic key declares.  The binding syntax that drives them sits in
//! the runtime outside the verified library.

use vstd::prelude::*;
use crate::keys::IntoGlobalKey;

verus! {

/// Pass a shared view through unchanged, tying its type to the key's.
pub fn extract_v_ty_ref<'a, K: IntoGlobalKey, V>(_k: &K, v: &'a V) -> (r: &'a V)
    ensures
        r == v,
{
    v
}

/// Pass an exclusive view through unchanged, tying its type to the key's.
pub fn extract_v_ty_mut<'a, K: IntoGlobalKey, V>(_k: &K, v: &'a mut V) -> (r: &'a mut V)
    ensures
        *r == *old(v),
        *final(v) == *final(r),
{
    v
}

} // verus!
