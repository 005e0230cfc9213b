//! The global store: slot-indexed entries addressable through multi-part
//! keys, with per-kind accessors, slot reuse through a free list, and the
//! re-keying rule that a claimed part is revoked from its old owner.

use vstd::prelude::*;
use crate::GlobalEntryId;
use crate::accessor::KeyAccessor;
use crate::keys::{GlobalKey, KeyPart, key_wf};

verus! {

/// The key kind reserved for singleton-by-type keys; registered by default.
pub const SINGLETON_KIND: u64 = 0;

/// One stored value together with the key it is addressable by.
pub struct GlobalEntry<V> {
    pub key: GlobalKey,
    pub value: V,
}

/// An extension registers the accessors for the key kinds it introduces.
/// The first registration of a kind wins; registering it again changes
/// nothing.
pub trait GlobalsExt {
    /// The kinds this extension introduces, in the order `init_accessors`
    /// returns them.
    spec fn accessor_kinds() -> Seq<u64>;

    /// Fresh, empty accessors, one per kind in `accessor_kinds`.
    fn init_accessors() -> (r: Vec<KeyAccessor>)
        ensures
            r@.len() == Self::accessor_kinds().len(),
            forall|i: int|
                0 <= i < r@.len() ==> (#[trigger] r@[i]).kind == Self::accessor_kinds()[i]
                    && r@[i]@ =~= Map::<u64, GlobalEntryId>::empty(),
    ;
}

spec fn seq_registered(accs: Seq<KeyAccessor>, kind: u64) -> bool {
    exists|i: int| 0 <= i < accs.len() && (#[trigger] accs[i]).kind == kind
}

spec fn seq_acc_at(accs: Seq<KeyAccessor>, kind: u64) -> int {
    choose|i: int| 0 <= i < accs.len() && (#[trigger] accs[i]).kind == kind
}

spec fn seq_idx(accs: Seq<KeyAccessor>, kind: u64, value: u64) -> Option<GlobalEntryId> {
    if seq_registered(accs, kind) && accs[seq_acc_at(accs, kind)]@.contains_key(value) {
        Some(accs[seq_acc_at(accs, kind)]@[value])
    } else {
        None
    }
}

spec fn seq_kinds_distinct(accs: Seq<KeyAccessor>) -> bool {
    forall|i: int, j: int|
        0 <= i < j < accs.len() ==> (#[trigger] accs[i]).kind != (#[trigger] accs[j]).kind
}

proof fn lemma_seq_acc_at(accs: Seq<KeyAccessor>, i: int)
    requires
        seq_kinds_distinct(accs),
        0 <= i < accs.len(),
    ensures
        seq_registered(accs, accs[i].kind),
        seq_acc_at(accs, accs[i].kind) == i,
{
    let kind = accs[i].kind;
    assert(seq_registered(accs, kind));
    let j = seq_acc_at(accs, kind);
    assert(0 <= j < accs.len() && accs[j].kind == kind);
    if i < j {
        assert(accs[i].kind != accs[j].kind);
    } else if j < i {
        assert(accs[j].kind != accs[i].kind);
    }
}

proof fn lemma_push_contains<A>(s: Seq<A>, x: A, y: A)
    ensures
        s.push(x).contains(y) <==> (s.contains(y) || y == x),
{
    if s.contains(y) {
        let i = choose|i: int| 0 <= i < s.len() && s[i] == y;
        assert(s.push(x)[i] == y);
    }
    if y == x {
        assert(s.push(x)[s.len() as int] == y);
    }
    if s.push(x).contains(y) {
        let i = choose|i: int| 0 <= i < s.push(x).len() && s.push(x)[i] == y;
        if i < s.len() {
            assert(s[i] == y);
        }
    }
}

/// The set of parts a key consists of.
pub open spec fn key_set(parts: Seq<KeyPart>) -> Set<KeyPart> {
    Set::new(|p: KeyPart| parts.contains(p))
}

/// A key with every part in `claimed` taken away, order preserved.
pub open spec fn strip_key(parts: Seq<KeyPart>, claimed: Set<KeyPart>) -> Seq<KeyPart>
    decreases parts.len(),
{
    if parts.len() == 0 {
        Seq::empty()
    } else {
        let rest = strip_key(parts.drop_last(), claimed);
        if claimed.contains(parts.last()) {
            rest
        } else {
            rest.push(parts.last())
        }
    }
}

/// A key with every part of the given kind taken away, order preserved.
pub open spec fn remove_kind(parts: Seq<KeyPart>, kind: u64) -> Seq<KeyPart>
    decreases parts.len(),
{
    if parts.len() == 0 {
        Seq::empty()
    } else {
        let rest = remove_kind(parts.drop_last(), kind);
        if parts.last().kind == kind {
            rest
        } else {
            rest.push(parts.last())
        }
    }
}

/// What becomes of an occupied slot when the parts in `claimed` are
/// revoked from it: it keeps its value under the remaining parts, or is
/// deleted outright when no part remains.
pub open spec fn strip_slot<V>(s: Option<(Seq<KeyPart>, V)>, claimed: Set<KeyPart>) -> Option<
    (Seq<KeyPart>, V),
> {
    match s {
        Some(pv) => {
            let stripped = strip_key(pv.0, claimed);
            if stripped.len() == 0 {
                None
            } else {
                Some((stripped, pv.1))
            }
        },
        None => None,
    }
}

/// Conversion of a value into the batch of entries that define it.
pub trait IntoGlobalEntries<V>: Sized {
    /// The key parts and value of each produced entry, in order.
    spec fn spec_entries(self) -> Seq<(Seq<KeyPart>, V)>;

    /// Build the entries.
    fn into_global_entries(self) -> (r: Vec<GlobalEntry<V>>)
        ensures
            r@.len() == self.spec_entries().len(),
            forall|i: int|
                0 <= i < r@.len() ==> ((#[trigger] r@[i]).key.parts@, r@[i].value)
                    == self.spec_entries()[i],
    ;
}

impl<V> IntoGlobalEntries<V> for GlobalEntry<V> {
    open spec fn spec_entries(self) -> Seq<(Seq<KeyPart>, V)> {
        seq![(self.key.parts@, self.value)]
    }

    fn into_global_entries(self) -> (r: Vec<GlobalEntry<V>>) {
        let mut v = Vec::new();
        v.push(self);
        v
    }
}

impl<V> IntoGlobalEntries<V> for Vec<GlobalEntry<V>> {
    open spec fn spec_entries(self) -> Seq<(Seq<KeyPart>, V)> {
        self@.map(|i: int, e: GlobalEntry<V>| (e.key.parts@, e.value))
    }

    fn into_global_entries(self) -> (r: Vec<GlobalEntry<V>>) {
        self
    }
}

/// Relation between a store and its successor when one entry with the
/// given key parts and value is defined: the entry occupies the slot the
/// free list offered (`pre.alloc_id()`), every one of its parts now
/// resolves to that slot, every other slot loses exactly the parts the
/// new key claims (and is deleted when nothing remains), and nothing else
/// changes.
pub open spec fn define_step<V>(
    pre: Globals<V>,
    post: Globals<V>,
    parts: Seq<KeyPart>,
    value: V,
) -> bool {
    let id = pre.alloc_id();
    &&& post.wf()
    &&& post.n_slots() == if pre.has_free() {
        pre.n_slots()
    } else {
        pre.n_slots() + 1
    }
    &&& id < post.n_slots()
    &&& post.slot_at(id as int) == Some((parts, value))
    &&& forall|j: int|
        0 <= j < pre.n_slots() && j != id ==> #[trigger] post.slot_at(j) == strip_slot(
            pre.slot_at(j),
            key_set(parts),
        )
    &&& forall|k: u64, v: u64|
        #[trigger] post.idx(k, v) == (if parts.contains(KeyPart { kind: k, value: v }) {
            Some(id)
        } else {
            pre.idx(k, v)
        })
    &&& forall|k: u64| #[trigger] post.registered(k) == pre.registered(k)
    &&& post.resolve(parts) == Some(id)
}

/// Relation between a store and its successor when the entry in slot `id`
/// is removed: the slot is vacated and joins the free list (so it is the
/// next to be reused), every part that resolved to it stops resolving,
/// and nothing else changes.
pub open spec fn remove_step<V>(pre: Globals<V>, post: Globals<V>, id: GlobalEntryId) -> bool {
    &&& post.wf()
    &&& post.n_slots() == pre.n_slots()
    &&& post.slot_at(id as int) is None
    &&& forall|j: int| j != id ==> #[trigger] post.slot_at(j) == pre.slot_at(j)
    &&& forall|k: u64, v: u64|
        #[trigger] post.idx(k, v) == (if pre.idx(k, v) == Some(id) {
            None::<GlobalEntryId>
        } else {
            pre.idx(k, v)
        })
    &&& forall|k: u64| #[trigger] post.registered(k) == pre.registered(k)
    &&& post.has_free()
    &&& post.alloc_id() == id
}

proof fn lemma_vec_len_bound<T>(v: Vec<T>)
    ensures
        v@.len() <= usize::MAX,
{
    assert(vstd::std_specs::vec::spec_vec_len(&v) == v@.len());
}

proof fn lemma_strip_empty(parts: Seq<KeyPart>)
    ensures
        strip_key(parts, Set::empty()) == parts,
    decreases parts.len(),
{
    if parts.len() > 0 {
        lemma_strip_empty(parts.drop_last());
        assert(parts.drop_last().push(parts.last()) =~= parts);
    }
}

proof fn lemma_strip_contains(parts: Seq<KeyPart>, claimed: Set<KeyPart>, p: KeyPart)
    ensures
        strip_key(parts, claimed).contains(p) <==> (parts.contains(p) && !claimed.contains(p)),
    decreases parts.len(),
{
    if parts.len() > 0 {
        let dl = parts.drop_last();
        let l = parts.last();
        lemma_strip_contains(dl, claimed, p);
        assert(parts =~= dl.push(l));
        lemma_push_contains(dl, l, p);
        if !claimed.contains(l) {
            lemma_push_contains(strip_key(dl, claimed), l, p);
        }
    }
}

proof fn lemma_strip_key_wf(parts: Seq<KeyPart>, claimed: Set<KeyPart>)
    requires
        key_wf(parts),
    ensures
        key_wf(strip_key(parts, claimed)),
    decreases parts.len(),
{
    if parts.len() > 0 {
        let dl = parts.drop_last();
        let l = parts.last();
        assert(key_wf(dl)) by {
            assert(forall|i: int| 0 <= i < dl.len() ==> dl[i] == parts[i]);
        }
        lemma_strip_key_wf(dl, claimed);
        if !claimed.contains(l) {
            let s = strip_key(dl, claimed);
            let out = s.push(l);
            assert forall|i: int, j: int| 0 <= i < j < out.len() implies out[i].kind
                != out[j].kind by {
                if j == s.len() {
                    assert(s.contains(s[i]));
                    lemma_strip_contains(dl, claimed, s[i]);
                    let di = choose|di: int| 0 <= di < dl.len() && dl[di] == s[i];
                    assert(parts[di] == s[i]);
                    assert(parts[di].kind != parts[parts.len() - 1].kind);
                }
            }
        }
    }
}

proof fn lemma_strip_insert_absent(parts: Seq<KeyPart>, claimed: Set<KeyPart>, q: KeyPart)
    requires
        !parts.contains(q),
    ensures
        strip_key(parts, claimed.insert(q)) == strip_key(parts, claimed),
    decreases parts.len(),
{
    if parts.len() > 0 {
        let dl = parts.drop_last();
        let l = parts.last();
        assert(parts =~= dl.push(l));
        lemma_push_contains(dl, l, q);
        assert(!dl.contains(q));
        lemma_strip_insert_absent(dl, claimed, q);
        assert(l != q);
    }
}

proof fn lemma_strip_insert_unique(parts: Seq<KeyPart>, claimed: Set<KeyPart>, q: KeyPart)
    requires
        forall|x: KeyPart| parts.contains(x) && x.kind == q.kind ==> x == q,
    ensures
        strip_key(parts, claimed.insert(q)) == remove_kind(strip_key(parts, claimed), q.kind),
    decreases parts.len(),
{
    if parts.len() > 0 {
        let dl = parts.drop_last();
        let l = parts.last();
        assert(parts =~= dl.push(l));
        assert forall|x: KeyPart| dl.contains(x) && x.kind == q.kind implies x == q by {
            lemma_push_contains(dl, l, x);
        }
        lemma_strip_insert_unique(dl, claimed, q);
        assert(parts.contains(l)) by {
            assert(parts[parts.len() - 1] == l);
        }
        if claimed.contains(l) {
        } else if l == q {
            let s = strip_key(dl, claimed);
            assert(s.push(q).drop_last() =~= s);
            assert(s.push(q).last() == q);
        } else {
            assert(l.kind != q.kind);
            let s = strip_key(dl, claimed);
            assert(s.push(l).drop_last() =~= s);
            assert(s.push(l).last() == l);
        }
    }
}

/// The store itself: per-kind accessors, the slot table, and the free list
/// of vacated slots.
#[verifier::ext_equal]
pub struct Globals<V> {
    accessors: Vec<KeyAccessor>,
    entries: Vec<Option<GlobalEntry<V>>>,
    free_entries: Vec<GlobalEntryId>,
}

impl<V> Globals<V> {
    /// Whether an accessor for `kind` has been registered.
    pub closed spec fn registered(&self, kind: u64) -> bool {
        seq_registered(self.accessors@, kind)
    }

    /// The slot that part `(kind, value)` currently resolves to, if any.
    pub closed spec fn idx(&self, kind: u64, value: u64) -> Option<GlobalEntryId> {
        seq_idx(self.accessors@, kind, value)
    }

    /// Number of slots in the table, occupied or vacant.
    pub closed spec fn n_slots(&self) -> nat {
        self.entries@.len()
    }

    /// Contents of slot `j`: the entry's key parts and value, or `None`
    /// for a vacant or out-of-range slot.
    pub closed spec fn slot_at(&self, j: int) -> Option<(Seq<KeyPart>, V)> {
        if 0 <= j < self.entries@.len() {
            match self.entries@[j] {
                Some(e) => Some((e.key.parts@, e.value)),
                None => None,
            }
        } else {
            None
        }
    }

    /// Whether a vacated slot is available for reuse.
    pub closed spec fn has_free(&self) -> bool {
        self.free_entries@.len() != 0
    }

    /// The slot the next defined entry will occupy: the most recently
    /// vacated slot, or a fresh one at the end of the table.
    pub closed spec fn alloc_id(&self) -> GlobalEntryId {
        if self.free_entries@.len() == 0 {
            self.entries@.len() as GlobalEntryId
        } else {
            self.free_entries@.last()
        }
    }

    /// The slot a key resolves to: its parts are tried in order and the
    /// first part with an owner decides.
    pub open spec fn resolve(&self, parts: Seq<KeyPart>) -> Option<GlobalEntryId>
        decreases parts.len(),
    {
        if parts.len() == 0 {
            None
        } else if self.idx(parts[0].kind, parts[0].value) is Some {
            self.idx(parts[0].kind, parts[0].value)
        } else {
            self.resolve(parts.drop_first())
        }
    }

    spec fn kinds_distinct(&self) -> bool {
        seq_kinds_distinct(self.accessors@)
    }

    spec fn entries_ok(&self) -> bool {
        &&& forall|k: u64, v: u64| #[trigger] self.idx(k, v) is Some ==> {
            let j = self.idx(k, v)->Some_0;
            &&& j < self.entries@.len()
            &&& self.entries@[j as int] is Some
            &&& self.entries@[j as int]->Some_0.key.parts@.contains(KeyPart { kind: k, value: v })
        }
        &&& forall|j: GlobalEntryId|
            j < self.entries@.len() && self.entries@[j as int] is Some ==> {
                let parts = (#[trigger] self.entries@[j as int])->Some_0.key.parts@;
                &&& parts.len() > 0
                &&& key_wf(parts)
                &&& forall|pi: int|
                    0 <= pi < parts.len() ==> self.registered((#[trigger] parts[pi]).kind)
                        && self.idx(parts[pi].kind, parts[pi].value) == Some(j)
            }
    }

    spec fn free_ok(&self) -> bool {
        &&& forall|fi: int|
            0 <= fi < self.free_entries@.len() ==> (#[trigger] self.free_entries@[fi])
                < self.entries@.len() && self.entries@[self.free_entries@[fi] as int] is None
        &&& forall|fi: int, fj: int|
            0 <= fi < fj < self.free_entries@.len() ==> self.free_entries@[fi]
                != self.free_entries@[fj]
        &&& forall|j: GlobalEntryId|
            j < self.entries@.len() && self.entries@[j as int] is None
                ==> self.free_entries@.contains(j)
    }

    /// Well-formedness of the store: accessor kinds are distinct, every
    /// indexed part belongs to the live entry it points at and every live
    /// entry's parts are indexed back to it, and the free list holds
    /// exactly the vacant slots.
    pub closed spec fn wf(&self) -> bool {
        &&& self.kinds_distinct()
        &&& self.entries_ok()
        &&& self.free_ok()
    }

    fn accessor_index(&self, kind: u64) -> (r: usize)
        requires
            self.kinds_distinct(),
            self.registered(kind),
        ensures
            r < self.accessors@.len(),
            self.accessors@[r as int].kind == kind,
            seq_acc_at(self.accessors@, kind) == r as int,
    {
        let n = self.accessors.len();
        let mut i: usize = 0;
        while i < n
            invariant
                n == self.accessors@.len(),
                i <= n,
                self.kinds_distinct(),
                self.registered(kind),
                forall|j: int| 0 <= j < i ==> (#[trigger] self.accessors@[j]).kind != kind,
            decreases n - i,
        {
            if self.accessors[i].kind == kind {
                proof {
                    lemma_seq_acc_at(self.accessors@, i as int);
                }
                return i;
            }
            i += 1;
        }
        proof {
            let w = choose|j: int|
                0 <= j < self.accessors@.len() && (#[trigger] self.accessors@[j]).kind == kind;
            assert(false);
        }
        0
    }

    /// A fresh store with no entries and the built-in singleton key kind
    /// already registered.
    pub fn new() -> (r: Globals<V>)
        ensures
            r.wf(),
            r.n_slots() == 0,
            !r.has_free(),
            r.registered(SINGLETON_KIND),
            forall|k: u64, v: u64| #[trigger] r.idx(k, v) is None,
    {
        let mut g = Globals::<V> {
            accessors: Vec::new(),
            entries: Vec::new(),
            free_entries: Vec::new(),
        };
        g.add_support_for::<crate::singleton::SingletonGlobals>();
        proof {
            let kinds = <crate::singleton::SingletonGlobals as GlobalsExt>::accessor_kinds();
            assert(kinds[0] == SINGLETON_KIND);
            assert(kinds.contains(SINGLETON_KIND));
        }
        g
    }

    /// Register the accessors of an extension.  Kinds already registered
    /// keep their accessor (first registration wins); nothing else in the
    /// store changes.
    pub fn add_support_for<T: GlobalsExt>(&mut self)
        requires
            old(self).wf(),
        ensures
            final(self).wf(),
            forall|k: u64| old(self).registered(k) ==> final(self).registered(k),
            forall|k: u64|
                T::accessor_kinds().contains(k) ==> #[trigger] final(self).registered(k),
            forall|k: u64, v: u64| final(self).idx(k, v) == old(self).idx(k, v),
            final(self).n_slots() == old(self).n_slots(),
            forall|j: int| final(self).slot_at(j) == old(self).slot_at(j),
            final(self).has_free() == old(self).has_free(),
            final(self).alloc_id() == old(self).alloc_id(),
    {
        let mut rem = T::init_accessors();
        let ghost orig = rem@;
        while rem.len() > 0
            invariant
                self.wf(),
                self.entries@ == old(self).entries@,
                self.free_entries@ == old(self).free_entries@,
                forall|k: u64| old(self).registered(k) ==> self.registered(k),
                forall|k: u64, v: u64| self.idx(k, v) == old(self).idx(k, v),
                rem@.len() <= orig.len(),
                forall|i: int| 0 <= i < rem@.len() ==> rem@[i] == orig[i],
                forall|i: int|
                    rem@.len() <= i < orig.len() ==> #[trigger] self.registered(
                        T::accessor_kinds()[i],
                    ),
                orig.len() == T::accessor_kinds().len(),
                forall|i: int|
                    0 <= i < orig.len() ==> (#[trigger] orig[i]).kind == T::accessor_kinds()[i]
                        && orig[i]@ =~= Map::<u64, GlobalEntryId>::empty(),
            decreases rem@.len(),
        {
            let a = rem.pop().unwrap();
            proof {
                assert(a == orig[rem@.len() as int]);
                assert(a.kind == T::accessor_kinds()[rem@.len() as int]);
            }
            self.register_accessor(a);
        }
        proof {
            assert forall|k: u64| T::accessor_kinds().contains(k) implies #[trigger] self
                .registered(k) by {
                let i = choose|i: int|
                    0 <= i < T::accessor_kinds().len() && T::accessor_kinds()[i] == k;
                assert(self.registered(T::accessor_kinds()[i]));
            }
            assert forall|j: int| self.slot_at(j) == old(self).slot_at(j) by {}
        }
    }

    fn register_accessor(&mut self, a: KeyAccessor)
        requires
            old(self).wf(),
            a@ =~= Map::<u64, GlobalEntryId>::empty(),
        ensures
            final(self).wf(),
            final(self).entries@ == old(self).entries@,
            final(self).free_entries@ == old(self).free_entries@,
            forall|k: u64| old(self).registered(k) ==> final(self).registered(k),
            final(self).registered(a.kind),
            forall|k: u64, v: u64| final(self).idx(k, v) == old(self).idx(k, v),
    {
        let present = self.is_registered(a.kind);
        if !present {
            let ghost pre = *self;
            self.accessors.push(a);
            proof {
                let n = pre.accessors@.len() as int;
                assert(self.accessors@ == pre.accessors@.push(a));
                assert forall|i: int, j: int| 0 <= i < j < self.accessors@.len() implies (
                #[trigger] self.accessors@[i]).kind != (#[trigger] self.accessors@[j]).kind by {
                    if j < n {
                        assert(pre.accessors@[i].kind != pre.accessors@[j].kind);
                    } else {
                        assert(self.accessors@[j] == a);
                        assert(self.accessors@[i] == pre.accessors@[i]);
                        assert(!pre.registered(a.kind));
                    }
                }
                assert forall|k: u64| pre.registered(k) implies self.registered(k) by {
                    let i = choose|i: int|
                        0 <= i < pre.accessors@.len() && (#[trigger] pre.accessors@[i]).kind == k;
                    assert(self.accessors@[i].kind == k);
                }
                assert(self.accessors@[n].kind == a.kind);
                assert(self.registered(a.kind));
                assert forall|k: u64, v: u64| self.idx(k, v) == pre.idx(k, v) by {
                    self.lemma_idx_push_empty(pre, a, k, v);
                }
                assert(self.entries_ok()) by {
                    assert forall|k: u64, v: u64| #[trigger] self.idx(k, v) is Some implies {
                        let j = self.idx(k, v)->Some_0;
                        &&& j < self.entries@.len()
                        &&& self.entries@[j as int] is Some
                        &&& self.entries@[j as int]->Some_0.key.parts@.contains(
                            KeyPart { kind: k, value: v },
                        )
                    } by {
                        self.lemma_idx_push_empty(pre, a, k, v);
                        assert(pre.idx(k, v) is Some);
                    }
                    assert forall|j: GlobalEntryId|
                        j < self.entries@.len() && self.entries@[j as int] is Some implies {
                        let parts = (#[trigger] self.entries@[j as int])->Some_0.key.parts@;
                        &&& parts.len() > 0
                        &&& key_wf(parts)
                        &&& forall|pi: int|
                            0 <= pi < parts.len() ==> self.registered((#[trigger] parts[pi]).kind)
                                && self.idx(parts[pi].kind, parts[pi].value) == Some(j)
                    } by {
                        let parts = self.entries@[j as int]->Some_0.key.parts@;
                        assert(pre.entries@[j as int] is Some);
                        assert forall|pi: int| 0 <= pi < parts.len() implies self.registered(
                            (#[trigger] parts[pi]).kind,
                        ) && self.idx(parts[pi].kind, parts[pi].value) == Some(j) by {
                            assert(pre.registered(parts[pi].kind));
                            self.lemma_idx_push_empty(pre, a, parts[pi].kind, parts[pi].value);
                        }
                    }
                }
            }
        }
    }

    proof fn lemma_idx_push_empty(&self, pre: Globals<V>, a: KeyAccessor, k: u64, v: u64)
        requires
            pre.kinds_distinct(),
            !pre.registered(a.kind),
            a@ =~= Map::<u64, GlobalEntryId>::empty(),
            self.accessors@ == pre.accessors@.push(a),
            self.kinds_distinct(),
        ensures
            self.idx(k, v) == pre.idx(k, v),
    {
        let n = pre.accessors@.len() as int;
        if pre.registered(k) {
            let i = choose|i: int|
                0 <= i < pre.accessors@.len() && (#[trigger] pre.accessors@[i]).kind == k;
            assert(self.accessors@[i].kind == k);
            lemma_seq_acc_at(self.accessors@, i);
            lemma_seq_acc_at(pre.accessors@, i);
            assert(self.accessors@[i] == pre.accessors@[i]);
        } else if k == a.kind {
            assert(self.accessors@[n].kind == k);
            lemma_seq_acc_at(self.accessors@, n);
            assert(!a@.contains_key(v));
            assert(!pre.registered(k));
        } else {
            assert forall|i: int|
                0 <= i < self.accessors@.len() implies (#[trigger] self.accessors@[i]).kind
                != k by {
                if i < n {
                    assert(self.accessors@[i] == pre.accessors@[i]);
                    assert(!pre.registered(k) ==> pre.accessors@[i].kind != k) by {
                        if pre.accessors@[i].kind == k {
                            assert(pre.registered(k));
                        }
                    }
                }
            }
            assert(!self.registered(k));
        }
    }

    /// Register `kind` with a fresh accessor.  A kind that is already
    /// registered keeps the accessor it has: the first registration wins.
    pub fn register_kind(&mut self, kind: u64)
        requires
            old(self).wf(),
        ensures
            final(self).wf(),
            final(self).registered(kind),
            forall|k: u64| old(self).registered(k) ==> final(self).registered(k),
            forall|k: u64, v: u64| final(self).idx(k, v) == old(self).idx(k, v),
            final(self).n_slots() == old(self).n_slots(),
            forall|j: int| final(self).slot_at(j) == old(self).slot_at(j),
            final(self).has_free() == old(self).has_free(),
            final(self).alloc_id() == old(self).alloc_id(),
    {
        self.register_accessor(KeyAccessor::new(kind));
        proof {
            assert forall|j: int| self.slot_at(j) == old(self).slot_at(j) by {}
        }
    }

    /// Number of slots in the table, occupied and vacant together.
    pub fn slot_count(&self) -> (r: usize)
        ensures
            r == self.n_slots(),
    {
        self.entries.len()
    }

    /// Whether `kind` has a registered accessor.
    pub fn is_registered(&self, kind: u64) -> (r: bool)
        requires
            self.wf(),
        ensures
            r == self.registered(kind),
    {
        let n = self.accessors.len();
        let mut i: usize = 0;
        while i < n
            invariant
                n == self.accessors@.len(),
                i <= n,
                forall|j: int| 0 <= j < i ==> (#[trigger] self.accessors@[j]).kind != kind,
            decreases n - i,
        {
            if self.accessors[i].kind == kind {
                return true;
            }
            i += 1;
        }
        false
    }

    proof fn lemma_resolve_idx(&self, parts: Seq<KeyPart>)
        requires
            self.resolve(parts) is Some,
        ensures
            exists|i: int|
                0 <= i < parts.len() && #[trigger] self.idx(parts[i].kind, parts[i].value)
                    == self.resolve(parts),
        decreases parts.len(),
    {
        if self.idx(parts[0].kind, parts[0].value) is Some {
            assert(self.idx(parts[0].kind, parts[0].value) == self.resolve(parts));
        } else {
            self.lemma_resolve_idx(parts.drop_first());
            let i = choose|i: int|
                0 <= i < parts.drop_first().len() && #[trigger] self.idx(
                    parts.drop_first()[i].kind,
                    parts.drop_first()[i].value,
                ) == self.resolve(parts.drop_first());
            assert(parts[i + 1] == parts.drop_first()[i]);
            assert(self.idx(parts[i + 1].kind, parts[i + 1].value) == self.resolve(parts));
        }
    }

    proof fn lemma_idx_after_acc_update(pre: Self, post: Self, ai: int)
        requires
            pre.kinds_distinct(),
            0 <= ai < pre.accessors@.len(),
            post.accessors@.len() == pre.accessors@.len(),
            forall|i: int|
                0 <= i < pre.accessors@.len() ==> (#[trigger] post.accessors@[i]).kind
                    == pre.accessors@[i].kind,
            forall|i: int|
                0 <= i < pre.accessors@.len() && i != ai ==> #[trigger] post.accessors@[i]
                    == pre.accessors@[i],
        ensures
            post.kinds_distinct(),
            forall|k: u64| #[trigger] post.registered(k) == pre.registered(k),
            forall|k: u64, v: u64|
                k != pre.accessors@[ai].kind ==> #[trigger] post.idx(k, v) == pre.idx(k, v),
            forall|v: u64|
                #[trigger] post.idx(pre.accessors@[ai].kind, v) == (
                if post.accessors@[ai]@.contains_key(v) {
                    Some(post.accessors@[ai]@[v])
                } else {
                    None::<GlobalEntryId>
                }),
    {
        assert forall|k: u64| #[trigger] post.registered(k) == pre.registered(k) by {
            if pre.registered(k) {
                let i = choose|i: int|
                    0 <= i < pre.accessors@.len() && (#[trigger] pre.accessors@[i]).kind == k;
                assert(post.accessors@[i].kind == k);
            }
            if post.registered(k) {
                let i = choose|i: int|
                    0 <= i < post.accessors@.len() && (#[trigger] post.accessors@[i]).kind == k;
                assert(pre.accessors@[i].kind == k);
            }
        }
        let ka = pre.accessors@[ai].kind;
        assert forall|k: u64, v: u64| k != ka implies #[trigger] post.idx(k, v) == pre.idx(
            k,
            v,
        ) by {
            if pre.registered(k) {
                let i = choose|i: int|
                    0 <= i < pre.accessors@.len() && (#[trigger] pre.accessors@[i]).kind == k;
                lemma_seq_acc_at(pre.accessors@, i);
                assert(post.accessors@[i].kind == k);
                lemma_seq_acc_at(post.accessors@, i);
                assert(i != ai);
                assert(post.accessors@[i] == pre.accessors@[i]);
            }
        }
        assert forall|v: u64| #[trigger] post.idx(ka, v) == (
        if post.accessors@[ai]@.contains_key(v) {
            Some(post.accessors@[ai]@[v])
        } else {
            None::<GlobalEntryId>
        }) by {
            assert(post.accessors@[ai].kind == ka);
            lemma_seq_acc_at(post.accessors@, ai);
        }
    }

    /// Delete the entry `key` resolves to: its value is returned to the
    /// caller, every part of its key is released from its accessor, and
    /// the slot joins the free list.  A key that does not resolve removes
    /// nothing and changes nothing.
    pub fn remove(&mut self, key: GlobalKey) -> (r: Option<V>)
        requires
            old(self).wf(),
            forall|i: int|
                0 <= i < key.parts@.len() ==> old(self).registered(
                    (#[trigger] key.parts@[i]).kind,
                ),
        ensures
            final(self).wf(),
            old(self).resolve(key.parts@) is None ==> r is None && *final(self) == *old(self),
            old(self).resolve(key.parts@) matches Some(id) ==> {
                &&& old(self).slot_at(id as int) matches Some(pv) && r == Some(pv.1)
                &&& remove_step(*old(self), *final(self), id)
            },
    {
        let ghost kparts = key.parts@;
        let id = match self.id_of(key) {
            Some(id) => id,
            None => {
                return None;
            },
        };
        let ghost pre = *self;
        proof {
            pre.lemma_resolve_idx(kparts);
            let wi = choose|wi: int|
                0 <= wi < kparts.len() && #[trigger] pre.idx(kparts[wi].kind, kparts[wi].value)
                    == pre.resolve(kparts);
            assert(pre.idx(kparts[wi].kind, kparts[wi].value) is Some);
        }
        let slot = &mut self.entries[id];
        let taken = slot.take();
        let entry = taken.unwrap();
        self.free_entries.push(id);
        proof {
            assert(self.entries@ =~= pre.entries@.update(id as int, None));
            assert(entry == pre.entries@[id as int]->Some_0);
            assert(entry.key.parts@.take(0) =~= Seq::<KeyPart>::empty());
        }
        let n = entry.key.parts.len();
        let mut i: usize = 0;
        while i < n
            invariant
                n == entry.key.parts@.len(),
                i <= n,
                pre.wf(),
                id < pre.entries@.len(),
                pre.entries@[id as int] is Some,
                entry.key == pre.entries@[id as int]->Some_0.key,
                self.entries@ == pre.entries@.update(id as int, None),
                self.free_entries@ == pre.free_entries@.push(id),
                self.accessors@.len() == pre.accessors@.len(),
                forall|ii: int|
                    0 <= ii < pre.accessors@.len() ==> (#[trigger] self.accessors@[ii]).kind
                        == pre.accessors@[ii].kind,
                self.kinds_distinct(),
                forall|k: u64| #[trigger] self.registered(k) == pre.registered(k),
                forall|k: u64, v: u64|
                    #[trigger] self.idx(k, v) == (if entry.key.parts@.take(i as int).contains(
                        KeyPart { kind: k, value: v },
                    ) {
                        None::<GlobalEntryId>
                    } else {
                        pre.idx(k, v)
                    }),
            decreases n - i,
        {
            let p = entry.key.parts[i];
            proof {
                assert(pre.registered(p.kind));
                assert(!entry.key.parts@.take(i as int).contains(p)) by {
                    let parts = entry.key.parts@;
                    if parts.take(i as int).contains(p) {
                        let pj = choose|pj: int|
                            0 <= pj < i && parts.take(i as int)[pj] == p;
                        assert(parts[pj] == p);
                        assert(parts[pj].kind == parts[i as int].kind);
                        assert(key_wf(parts));
                    }
                }
                assert(self.idx(p.kind, p.value) == pre.idx(p.kind, p.value));
            }
            let ai = self.accessor_index(p.kind);
            let ghost mid = *self;
            let acc = &mut self.accessors[ai];
            acc.remove(p.value);
            proof {
                assert(self.accessors@ =~= mid.accessors@.update(ai as int, self.accessors@[ai as int]));
                Self::lemma_idx_after_acc_update(mid, *self, ai as int);
                lemma_seq_acc_at(mid.accessors@, ai as int);
                let parts = entry.key.parts@;
                assert(parts.take(i as int + 1) =~= parts.take(i as int).push(p));
                assert forall|k: u64, v: u64| #[trigger] self.idx(k, v) == (if parts.take(
                    i as int + 1,
                ).contains(KeyPart { kind: k, value: v }) {
                    None::<GlobalEntryId>
                } else {
                    pre.idx(k, v)
                }) by {
                    let kp = KeyPart { kind: k, value: v };
                    lemma_push_contains(parts.take(i as int), p, kp);
                    if k == p.kind {
                        assert(self.accessors@[ai as int]@ == mid.accessors@[ai as int]@.remove(
                            p.value,
                        ));
                        if v == p.value {
                            assert(self.idx(k, v) is None);
                            assert(parts.take(i as int + 1).contains(kp));
                        } else {
                            assert(self.idx(k, v) == mid.idx(k, v));
                            assert(kp != p);
                        }
                    } else {
                        assert(self.idx(k, v) == mid.idx(k, v));
                        assert(kp != p);
                    }
                }
            }
            i += 1;
        }
        proof {
            let parts = entry.key.parts@;
            assert(parts.take(n as int) =~= parts);
            assert forall|k: u64, v: u64| #[trigger] self.idx(k, v) == (if pre.idx(k, v)
                == Some(id) {
                None::<GlobalEntryId>
            } else {
                pre.idx(k, v)
            }) by {
                let kp = KeyPart { kind: k, value: v };
                if parts.contains(kp) {
                    let pi = choose|pi: int| 0 <= pi < parts.len() && parts[pi] == kp;
                    assert(pre.idx(parts[pi].kind, parts[pi].value) == Some(id));
                } else if pre.idx(k, v) == Some(id) {
                    assert(pre.entries@[id as int]->Some_0.key.parts@.contains(kp));
                }
            }
            assert(self.wf()) by {
                assert forall|k: u64, v: u64| #[trigger] self.idx(k, v) is Some implies {
                    let j = self.idx(k, v)->Some_0;
                    &&& j < self.entries@.len()
                    &&& self.entries@[j as int] is Some
                    &&& self.entries@[j as int]->Some_0.key.parts@.contains(
                        KeyPart { kind: k, value: v },
                    )
                } by {
                    let kp = KeyPart { kind: k, value: v };
                    assert(pre.idx(k, v) == self.idx(k, v));
                    let j = self.idx(k, v)->Some_0;
                    assert(pre.entries@[j as int]->Some_0.key.parts@.contains(kp));
                    if j == id {
                        assert(parts.contains(kp));
                        let pi = choose|pi: int| 0 <= pi < parts.len() && parts[pi] == kp;
                        assert(pre.idx(parts[pi].kind, parts[pi].value) == Some(id));
                        assert(false);
                    }
                }
                assert forall|j: GlobalEntryId|
                    j < self.entries@.len() && self.entries@[j as int] is Some implies {
                    let eparts = (#[trigger] self.entries@[j as int])->Some_0.key.parts@;
                    &&& eparts.len() > 0
                    &&& key_wf(eparts)
                    &&& forall|pi: int|
                        0 <= pi < eparts.len() ==> self.registered((#[trigger] eparts[pi]).kind)
                            && self.idx(eparts[pi].kind, eparts[pi].value) == Some(j)
                } by {
                    assert(j != id);
                    assert(self.entries@[j as int] == pre.entries@[j as int]);
                    let eparts = self.entries@[j as int]->Some_0.key.parts@;
                    assert forall|pi: int| 0 <= pi < eparts.len() implies self.registered(
                        (#[trigger] eparts[pi]).kind,
                    ) && self.idx(eparts[pi].kind, eparts[pi].value) == Some(j) by {
                        assert(pre.idx(eparts[pi].kind, eparts[pi].value) == Some(j));
                        if pre.idx(eparts[pi].kind, eparts[pi].value) == Some(id) {
                            assert(false);
                        }
                    }
                }
                assert forall|fi: int| 0 <= fi < self.free_entries@.len() implies (
                #[trigger] self.free_entries@[fi]) < self.entries@.len()
                    && self.entries@[self.free_entries@[fi] as int] is None by {
                    if fi < pre.free_entries@.len() {
                        assert(pre.free_entries@[fi] != id);
                    } else {
                        assert(self.free_entries@[fi] == id);
                    }
                }
                assert forall|fi: int, fj: int|
                    0 <= fi < fj < self.free_entries@.len() implies self.free_entries@[fi]
                    != self.free_entries@[fj] by {
                    if fj == pre.free_entries@.len() {
                        assert(pre.free_entries@[fi] != id);
                    }
                }
                assert forall|j: GlobalEntryId|
                    j < self.entries@.len() && self.entries@[j as int] is None implies self
                    .free_entries@.contains(j) by {
                    lemma_push_contains(pre.free_entries@, id, j);
                    if j != id {
                        assert(pre.entries@[j as int] is None);
                        assert(pre.free_entries@.contains(j));
                    }
                }
            }
            assert(self.free_entries@.last() == id);
            assert forall|j: int| j != id implies self.slot_at(j) == pre.slot_at(j) by {}
        }
        Some(entry.value)
    }

    fn remove_kind_from_entry(e: &mut GlobalEntry<V>, kind: u64)
        ensures
            final(e).key.parts@ == remove_kind(old(e).key.parts@, kind),
            final(e).value == old(e).value,
    {
        let n = e.key.parts.len();
        let mut out: Vec<KeyPart> = Vec::new();
        proof {
            assert(e.key.parts@.take(0) =~= Seq::<KeyPart>::empty());
        }
        let mut i: usize = 0;
        while i < n
            invariant
                n == e.key.parts@.len(),
                i <= n,
                e.key.parts@ == old(e).key.parts@,
                e.value == old(e).value,
                out@ == remove_kind(e.key.parts@.take(i as int), kind),
            decreases n - i,
        {
            let p = e.key.parts[i];
            proof {
                assert(e.key.parts@.take(i as int + 1).drop_last() =~= e.key.parts@.take(
                    i as int,
                ));
                assert(e.key.parts@.take(i as int + 1).last() == p);
            }
            if p.kind != kind {
                out.push(p);
            }
            i += 1;
        }
        proof {
            assert(e.key.parts@.take(n as int) =~= e.key.parts@);
        }
        e.key.parts = out;
    }

    proof fn lemma_slot_wf(pre: Self, j: int)
        requires
            pre.wf(),
            0 <= j < pre.entries@.len(),
            pre.entries@[j] is Some,
        ensures
            pre.entries@[j]->Some_0.key.parts@.len() > 0,
            key_wf(pre.entries@[j]->Some_0.key.parts@),
            forall|pi: int|
                0 <= pi < pre.entries@[j]->Some_0.key.parts@.len() ==> {
                    let q = #[trigger] pre.entries@[j]->Some_0.key.parts@[pi];
                    pre.registered(q.kind) && (pre.idx(q.kind, q.value) matches Some(o) && o == j)
                },
    {
        lemma_vec_len_bound(pre.entries);
        let ju = j as GlobalEntryId;
        assert(pre.entries@[ju as int] is Some);
        assert(pre.entries@[ju as int] == pre.entries@[j]);
    }

    proof fn lemma_owner_unique(pre: Self, j: int, p: KeyPart)
        requires
            pre.wf(),
            0 <= j < pre.entries@.len(),
            pre.entries@[j] is Some,
            pre.entries@[j]->Some_0.key.parts@.contains(p),
        ensures
            pre.idx(p.kind, p.value) matches Some(o) && o == j,
    {
        Self::lemma_slot_wf(pre, j);
        let pk = pre.entries@[j]->Some_0.key.parts@;
        let xi = choose|xi: int| 0 <= xi < pk.len() && pk[xi] == p;
        assert(pk[xi] == p);
    }

    /// Insert one new entry.  The entry takes the slot the free list
    /// offers (or a fresh one), every part of its key is claimed for it,
    /// and a part that was owned by another entry is revoked from that
    /// entry — which is deleted outright when it loses its last part.
    #[verifier::rlimit(100)]
    pub fn define_one(&mut self, entry: GlobalEntry<V>)
        requires
            old(self).wf(),
            entry.key.parts@.len() > 0,
            key_wf(entry.key.parts@),
            forall|i: int|
                0 <= i < entry.key.parts@.len() ==> old(self).registered(
                    (#[trigger] entry.key.parts@[i]).kind,
                ),
        ensures
            final(self).wf(),
            define_step(*old(self), *final(self), entry.key.parts@, entry.value),
    {
        let ghost pre = *self;
        let ghost eparts = entry.key.parts@;
        let need_resize = self.free_entries.len() == 0;
        let id: GlobalEntryId = if need_resize {
            self.entries.len()
        } else {
            self.free_entries.pop().unwrap()
        };
        proof {
            assert(id == pre.alloc_id());
            if !need_resize {
                assert(pre.free_entries@[pre.free_entries@.len() - 1] == id);
                assert(id < pre.entries@.len());
                assert(pre.entries@[id as int] is None);
            }
        }
        let ghost mut claimed = Set::<KeyPart>::empty();
        proof {
            assert forall|j: int| 0 <= j < pre.entries@.len() && j != id implies #[trigger] self
                .slot_at(j) == strip_slot(pre.slot_at(j), claimed) by {
                assert(self.slot_at(j) == pre.slot_at(j));
                match pre.slot_at(j) {
                    Some(pv) => {
                        lemma_strip_empty(pv.0);
                        Self::lemma_slot_wf(pre, j);
                    },
                    None => {},
                }
            }
            if !need_resize {
                assert forall|j: GlobalEntryId|
                    j < self.entries@.len() && self.entries@[j as int] is None && j != id implies
                    self.free_entries@.contains(j) by {
                    assert(pre.free_entries@.contains(j));
                    let fi = choose|fi: int|
                        0 <= fi < pre.free_entries@.len() && pre.free_entries@[fi] == j;
                    assert(fi < pre.free_entries@.len() - 1) by {
                        if fi == pre.free_entries@.len() - 1 {
                            assert(pre.free_entries@[fi] == id);
                        }
                    }
                    assert(self.free_entries@[fi] == j);
                }
            }
        }
        let n = entry.key.parts.len();
        let mut i: usize = 0;
        while i < n
            invariant
                pre.wf(),
                eparts == entry.key.parts@,
                n == eparts.len(),
                i <= n,
                eparts.len() > 0,
                key_wf(eparts),
                forall|pi: int|
                    0 <= pi < eparts.len() ==> pre.registered((#[trigger] eparts[pi]).kind),
                id == pre.alloc_id(),
                need_resize == !pre.has_free(),
                self.entries@.len() == pre.entries@.len(),
                need_resize ==> id == self.entries@.len(),
                !need_resize ==> id < self.entries@.len() && self.entries@[id as int] is None,
                self.accessors@.len() == pre.accessors@.len(),
                forall|ai: int|
                    0 <= ai < pre.accessors@.len() ==> (#[trigger] self.accessors@[ai]).kind
                        == pre.accessors@[ai].kind,
                self.kinds_distinct(),
                forall|k: u64| #[trigger] self.registered(k) == pre.registered(k),
                forall|p: KeyPart| #[trigger]
                    claimed.contains(p) <==> (exists|pj: int| 0 <= pj < i && eparts[pj] == p),
                forall|k: u64, v: u64|
                    #[trigger] self.idx(k, v) == (if claimed.contains(
                        KeyPart { kind: k, value: v },
                    ) {
                        Some(id)
                    } else {
                        pre.idx(k, v)
                    }),
                forall|j: int|
                    0 <= j < pre.entries@.len() && j != id ==> #[trigger] self.slot_at(j)
                        == strip_slot(pre.slot_at(j), claimed),
                forall|fi: int|
                    0 <= fi < self.free_entries@.len() ==> (#[trigger] self.free_entries@[fi])
                        < self.entries@.len() && self.free_entries@[fi] != id
                        && self.entries@[self.free_entries@[fi] as int] is None,
                forall|fi: int, fj: int|
                    0 <= fi < fj < self.free_entries@.len() ==> self.free_entries@[fi]
                        != self.free_entries@[fj],
                forall|j: GlobalEntryId|
                    j < self.entries@.len() && self.entries@[j as int] is None && j != id
                        ==> self.free_entries@.contains(j),
            decreases n - i,
        {
            let p = entry.key.parts[i];
            proof {
                assert(!claimed.contains(p)) by {
                    if claimed.contains(p) {
                        let pj = choose|pj: int| 0 <= pj < i && eparts[pj] == p;
                        assert(eparts[pj].kind == eparts[i as int].kind);
                    }
                }
                assert(self.idx(p.kind, p.value) == pre.idx(p.kind, p.value));
            }
            let ai = self.accessor_index(p.kind);
            let ghost mid = *self;
            let acc = &mut self.accessors[ai];
            let prev = acc.insert(p.value, id);
            proof {
                assert(self.accessors@ =~= mid.accessors@.update(
                    ai as int,
                    self.accessors@[ai as int],
                ));
                Self::lemma_idx_after_acc_update(mid, *self, ai as int);
                lemma_seq_acc_at(mid.accessors@, ai as int);
                assert(self.accessors@[ai as int]@ == mid.accessors@[ai as int]@.insert(
                    p.value,
                    id,
                ));
                assert(self.idx(p.kind, p.value) == Some(id));
                assert forall|k: u64, v: u64| #[trigger] self.idx(k, v) == (if claimed.insert(
                    p,
                ).contains(KeyPart { kind: k, value: v }) {
                    Some(id)
                } else {
                    pre.idx(k, v)
                }) by {
                    let kp = KeyPart { kind: k, value: v };
                    if kp == p {
                    } else if k == p.kind {
                        assert(self.idx(k, v) == mid.idx(k, v)) by {
                            assert(v != p.value);
                        }
                    } else {
                        assert(self.idx(k, v) == mid.idx(k, v));
                    }
                }
            }
            let ghost after_ins = *self;
            if let Some(old_id) = prev {
                proof {
                    assert(mid.idx(p.kind, p.value) == Some(old_id));
                    assert(pre.idx(p.kind, p.value) == Some(old_id));
                    assert(old_id < pre.entries@.len());
                    assert(pre.entries@[old_id as int] is Some);
                    assert(pre.entries@[old_id as int]->Some_0.key.parts@.contains(p));
                    assert(old_id != id) by {
                        if !need_resize {
                            assert(pre.entries@[id as int] is None);
                        }
                    }
                    let pk = pre.entries@[old_id as int]->Some_0.key.parts@;
                    assert(mid.slot_at(old_id as int) == strip_slot(
                        pre.slot_at(old_id as int),
                        claimed,
                    ));
                    lemma_strip_contains(pk, claimed, p);
                    assert(strip_key(pk, claimed).contains(p));
                    assert(strip_key(pk, claimed).len() > 0);
                    assert(self.entries@[old_id as int] is Some);
                    assert(self.entries@[old_id as int]->Some_0.key.parts@ == strip_key(
                        pk,
                        claimed,
                    ));
                }
                let slot = &mut self.entries[old_id];
                let taken = slot.take();
                let mut evicted = taken.unwrap();
                Self::remove_kind_from_entry(&mut evicted, p.kind);
                let keep = evicted.key.parts.len() > 0;
                if keep {
                    let slot2 = &mut self.entries[old_id];
                    *slot2 = Some(evicted);
                } else {
                    self.free_entries.push(old_id);
                }
                proof {
                    assert(self.accessors@ == after_ins.accessors@);
                    assert forall|k: u64| #[trigger] self.registered(k) == pre.registered(k) by {
                        assert(self.registered(k) == after_ins.registered(k));
                    }
                    assert forall|k: u64, v: u64| #[trigger] self.idx(k, v) == (if claimed.insert(
                        p,
                    ).contains(KeyPart { kind: k, value: v }) {
                        Some(id)
                    } else {
                        pre.idx(k, v)
                    }) by {
                        assert(self.idx(k, v) == after_ins.idx(k, v));
                    }
                    let pk = pre.entries@[old_id as int]->Some_0.key.parts@;
                    assert forall|x: KeyPart| pk.contains(x) && x.kind == p.kind implies x
                        == p by {
                        let xi = choose|xi: int| 0 <= xi < pk.len() && pk[xi] == x;
                        let pi2 = choose|pi2: int| 0 <= pi2 < pk.len() && pk[pi2] == p;
                        assert(key_wf(pk));
                        if xi != pi2 {
                            assert(pk[xi].kind != pk[pi2].kind);
                        }
                    }
                    lemma_strip_insert_unique(pk, claimed, p);
                    assert(evicted.key.parts@ == strip_key(pk, claimed.insert(p)));
                    assert forall|j: int|
                        0 <= j < pre.entries@.len() && j != id implies #[trigger] self.slot_at(j)
                        == strip_slot(pre.slot_at(j), claimed.insert(p)) by {
                        if j == old_id {
                            if keep {
                                assert(self.entries@[j] == Some(evicted));
                            } else {
                                assert(self.entries@[j] is None);
                                assert(strip_key(pk, claimed.insert(p)).len() == 0);
                            }
                        } else {
                            assert(self.slot_at(j) == mid.slot_at(j));
                            assert(mid.slot_at(j) == strip_slot(pre.slot_at(j), claimed));
                            match pre.slot_at(j) {
                                Some(pv) => {
                                    assert(!pv.0.contains(p)) by {
                                        if pv.0.contains(p) {
                                            Self::lemma_owner_unique(pre, j, p);
                                        }
                                    }
                                    lemma_strip_insert_absent(pv.0, claimed, p);
                                },
                                None => {},
                            }
                        }
                    }
                    assert forall|fi: int| 0 <= fi < self.free_entries@.len() implies (
                    #[trigger] self.free_entries@[fi]) < self.entries@.len()
                        && self.free_entries@[fi] != id
                        && self.entries@[self.free_entries@[fi] as int] is None by {
                        if keep {
                            assert(self.free_entries@ == mid.free_entries@);
                            assert(mid.entries@[mid.free_entries@[fi] as int] is None);
                            assert(mid.free_entries@[fi] != old_id);
                        } else {
                            if fi < mid.free_entries@.len() {
                                assert(self.free_entries@[fi] == mid.free_entries@[fi]);
                                assert(mid.entries@[mid.free_entries@[fi] as int] is None);
                                assert(mid.free_entries@[fi] != old_id);
                            } else {
                                assert(self.free_entries@[fi] == old_id);
                            }
                        }
                    }
                    assert forall|fi: int, fj: int|
                        0 <= fi < fj < self.free_entries@.len() implies self.free_entries@[fi]
                        != self.free_entries@[fj] by {
                        if !keep && fj == self.free_entries@.len() - 1 {
                            assert(self.free_entries@[fj] == old_id);
                            assert(mid.entries@[mid.free_entries@[fi] as int] is None);
                        }
                    }
                    assert forall|j: GlobalEntryId|
                        j < self.entries@.len() && self.entries@[j as int] is None && j != id
                        implies self.free_entries@.contains(j) by {
                        if keep {
                            assert(j != old_id);
                            assert(mid.entries@[j as int] is None);
                            assert(mid.free_entries@.contains(j));
                        } else {
                            lemma_push_contains(mid.free_entries@, old_id, j);
                            if j != old_id {
                                assert(mid.entries@[j as int] is None);
                                assert(mid.free_entries@.contains(j));
                            }
                        }
                    }
                }
            } else {
                proof {
                    assert(mid.idx(p.kind, p.value) is None);
                    assert(pre.idx(p.kind, p.value) is None);
                    assert forall|j: int|
                        0 <= j < pre.entries@.len() && j != id implies #[trigger] self.slot_at(j)
                        == strip_slot(pre.slot_at(j), claimed.insert(p)) by {
                        assert(self.slot_at(j) == mid.slot_at(j));
                        assert(mid.slot_at(j) == strip_slot(pre.slot_at(j), claimed));
                        match pre.slot_at(j) {
                            Some(pv) => {
                                assert(!pv.0.contains(p)) by {
                                    if pv.0.contains(p) {
                                        Self::lemma_owner_unique(pre, j, p);
                                    }
                                };
                                lemma_strip_insert_absent(pv.0, claimed, p);
                            },
                            None => {},
                        }
                    }
                }
            }
            proof {
                claimed = claimed.insert(p);
                assert forall|q: KeyPart| #[trigger]
                    claimed.contains(q) <==> (exists|pj: int|
                    0 <= pj < i + 1 && eparts[pj] == q) by {
                    if claimed.contains(q) {
                        if q == p {
                            assert(eparts[i as int] == q);
                        }
                    }
                }
            }
            i += 1;
        }
        proof {
            assert forall|q: KeyPart| #[trigger] claimed.contains(q) <==> eparts.contains(
                q,
            ) by {}
            assert(claimed =~= key_set(eparts));
        }
        let ghost loop_end = *self;
        if need_resize {
            self.entries.push(Some(entry));
        } else {
            let slot = &mut self.entries[id];
            *slot = Some(entry);
        }
        proof {
            let ks = key_set(eparts);
            assert forall|k: u64| #[trigger] self.registered(k) == pre.registered(k) by {
                assert(self.accessors@ == loop_end.accessors@);
                assert(self.registered(k) == loop_end.registered(k));
            }
            assert(self.slot_at(id as int) == Some((eparts, entry.value)));
            assert forall|j: int| 0 <= j < pre.entries@.len() && j != id implies #[trigger] self
                .slot_at(j) == strip_slot(pre.slot_at(j), ks) by {
                assert(self.slot_at(j) == loop_end.slot_at(j));
            }
            assert forall|k: u64, v: u64| #[trigger] self.idx(k, v) == (if eparts.contains(
                KeyPart { kind: k, value: v },
            ) {
                Some(id)
            } else {
                pre.idx(k, v)
            }) by {
                assert(self.idx(k, v) == loop_end.idx(k, v));
            }
            assert(self.wf()) by {
                assert(self.kinds_distinct());
                assert forall|k: u64, v: u64| #[trigger] self.idx(k, v) is Some implies {
                    let j = self.idx(k, v)->Some_0;
                    &&& j < self.entries@.len()
                    &&& self.entries@[j as int] is Some
                    &&& self.entries@[j as int]->Some_0.key.parts@.contains(
                        KeyPart { kind: k, value: v },
                    )
                } by {
                    let kp = KeyPart { kind: k, value: v };
                    if eparts.contains(kp) {
                        assert(self.idx(k, v) == Some(id));
                        assert(self.entries@[id as int] is Some);
                    } else {
                        let j = self.idx(k, v)->Some_0;
                        assert(pre.idx(k, v) == Some(j));
                        assert(j != id) by {
                            if !need_resize {
                                assert(pre.entries@[id as int] is None);
                            }
                        }
                        assert(pre.entries@[j as int]->Some_0.key.parts@.contains(kp));
                        let pk = pre.entries@[j as int]->Some_0.key.parts@;
                        lemma_strip_contains(pk, ks, kp);
                        assert(!ks.contains(kp));
                        assert(strip_key(pk, ks).contains(kp));
                        assert(strip_key(pk, ks).len() > 0);
                        assert(self.slot_at(j as int) == strip_slot(pre.slot_at(j as int), ks));
                    }
                }
                assert forall|j: GlobalEntryId|
                    j < self.entries@.len() && self.entries@[j as int] is Some implies {
                    let parts = (#[trigger] self.entries@[j as int])->Some_0.key.parts@;
                    &&& parts.len() > 0
                    &&& key_wf(parts)
                    &&& forall|pi: int|
                        0 <= pi < parts.len() ==> self.registered((#[trigger] parts[pi]).kind)
                            && self.idx(parts[pi].kind, parts[pi].value) == Some(j)
                } by {
                    let parts = self.entries@[j as int]->Some_0.key.parts@;
                    if j == id {
                        assert(parts == eparts);
                        assert forall|pi: int| 0 <= pi < parts.len() implies self.registered(
                            (#[trigger] parts[pi]).kind,
                        ) && self.idx(parts[pi].kind, parts[pi].value) == Some(j) by {
                            assert(eparts.contains(eparts[pi])) by {
                                assert(eparts[pi] == eparts[pi]);
                            }
                            assert(self.idx(parts[pi].kind, parts[pi].value) == Some(id));
                            assert(pre.registered(parts[pi].kind));
                        }
                    } else {
                        assert(j < pre.entries@.len());
                        assert(self.slot_at(j as int) == strip_slot(pre.slot_at(j as int), ks));
                        assert(pre.entries@[j as int] is Some);
                        let pk = pre.entries@[j as int]->Some_0.key.parts@;
                        assert(parts == strip_key(pk, ks));
                        lemma_strip_key_wf(pk, ks);
                        assert forall|pi: int| 0 <= pi < parts.len() implies self.registered(
                            (#[trigger] parts[pi]).kind,
                        ) && self.idx(parts[pi].kind, parts[pi].value) == Some(j) by {
                            let q = parts[pi];
                            assert(parts.contains(q)) by {
                                assert(parts[pi] == q);
                            }
                            lemma_strip_contains(pk, ks, q);
                            assert(pk.contains(q) && !ks.contains(q));
                            let qi = choose|qi: int| 0 <= qi < pk.len() && pk[qi] == q;
                            assert(pre.idx(pk[qi].kind, pk[qi].value) == Some(j));
                            assert(!eparts.contains(q));
                            assert(self.idx(q.kind, q.value) == pre.idx(q.kind, q.value));
                            assert(pre.registered(q.kind));
                        }
                    }
                }
                assert forall|fi: int| 0 <= fi < self.free_entries@.len() implies (
                #[trigger] self.free_entries@[fi]) < self.entries@.len()
                    && self.entries@[self.free_entries@[fi] as int] is None by {
                    assert(self.free_entries@[fi] != id);
                }
                assert forall|j: GlobalEntryId|
                    j < self.entries@.len() && self.entries@[j as int] is None implies self
                    .free_entries@.contains(j) by {
                    assert(j != id);
                    if j < pre.entries@.len() {
                    }
                }
            }
            assert(self.resolve(eparts) == Some(id)) by {
                assert(eparts.contains(eparts[0])) by {
                    assert(eparts[0] == eparts[0]);
                }
                assert(self.idx(eparts[0].kind, eparts[0].value) == Some(id));
            }
        }
    }

    /// Bulk insert: define each produced entry in turn, first to last.
    /// Each defined entry behaves exactly as under `define_one`.
    pub fn define<E: IntoGlobalEntries<V>>(&mut self, new_entries: E)
        requires
            old(self).wf(),
            forall|i: int|
                0 <= i < new_entries.spec_entries().len() ==> {
                    let parts = (#[trigger] new_entries.spec_entries()[i]).0;
                    &&& parts.len() > 0
                    &&& key_wf(parts)
                    &&& forall|pi: int|
                        0 <= pi < parts.len() ==> old(self).registered(
                            (#[trigger] parts[pi]).kind,
                        )
                },
        ensures
            final(self).wf(),
            forall|k: u64| #[trigger] final(self).registered(k) == old(self).registered(k),
            final(self).n_slots() <= old(self).n_slots() + new_entries.spec_entries().len(),
            new_entries.spec_entries().len() == 0 ==> *final(self) == *old(self),
            new_entries.spec_entries().len() == 1 ==> define_step(
                *old(self),
                *final(self),
                new_entries.spec_entries()[0].0,
                new_entries.spec_entries()[0].1,
            ),
    {
        let ghost especs = new_entries.spec_entries();
        let ghost pre = *self;
        let mut rem = new_entries.into_global_entries();
        while rem.len() > 0
            invariant
                self.wf(),
                rem@.len() <= especs.len(),
                forall|i: int|
                    0 <= i < rem@.len() ==> ((#[trigger] rem@[i]).key.parts@, rem@[i].value)
                        == especs[especs.len() - rem@.len() + i],
                forall|i: int|
                    0 <= i < especs.len() ==> {
                        let parts = (#[trigger] especs[i]).0;
                        &&& parts.len() > 0
                        &&& key_wf(parts)
                        &&& forall|pi: int|
                            0 <= pi < parts.len() ==> pre.registered((#[trigger] parts[pi]).kind)
                    },
                forall|k: u64| #[trigger] self.registered(k) == pre.registered(k),
                self.n_slots() <= pre.n_slots() + (especs.len() - rem@.len()),
                rem@.len() == especs.len() ==> *self == pre,
                especs.len() == 1 && rem@.len() == 0 ==> define_step(
                    pre,
                    *self,
                    especs[0].0,
                    especs[0].1,
                ),
            decreases rem@.len(),
        {
            let ghost idx: int = especs.len() - rem@.len();
            let e = rem.remove(0);
            proof {
                assert((e.key.parts@, e.value) == especs[idx]);
                assert forall|i: int|
                    0 <= i < rem@.len() implies ((#[trigger] rem@[i]).key.parts@, rem@[i].value)
                    == especs[especs.len() - rem@.len() + i] by {}
                assert forall|pi: int|
                    0 <= pi < e.key.parts@.len() implies self.registered(
                    (#[trigger] e.key.parts@[pi]).kind,
                ) by {
                    assert(pre.registered(e.key.parts@[pi].kind));
                }
            }
            self.define_one(e);
        }
        proof {
            if especs.len() == 0 {
                assert(*self == pre);
            }
        }
    }

    /// Pure lookup: the slot `key` resolves to, trying its parts in order.
    /// Every kind the key mentions must have been registered.
    pub fn id_of(&self, key: GlobalKey) -> (r: Option<GlobalEntryId>)
        requires
            self.wf(),
            forall|i: int|
                0 <= i < key.parts@.len() ==> self.registered((#[trigger] key.parts@[i]).kind),
        ensures
            r == self.resolve(key.parts@),
    {
        let n = key.parts.len();
        proof {
            assert(key.parts@.skip(0) =~= key.parts@);
        }
        let mut i: usize = 0;
        while i < n
            invariant
                self.wf(),
                n == key.parts@.len(),
                i <= n,
                forall|j: int|
                    0 <= j < key.parts@.len() ==> self.registered((#[trigger] key.parts@[j]).kind),
                self.resolve(key.parts@) == self.resolve(key.parts@.skip(i as int)),
            decreases n - i,
        {
            let part = key.parts[i];
            let ai = self.accessor_index(part.kind);
            let found = self.accessors[ai].get(part.value);
            proof {
                let rest = key.parts@.skip(i as int);
                assert(rest[0] == key.parts@[i as int]);
                assert(rest.drop_first() =~= key.parts@.skip(i as int + 1));
            }
            if let Some(id) = found {
                return Some(id);
            }
            i += 1;
        }
        proof {
            assert(key.parts@.skip(n as int) =~= Seq::<KeyPart>::empty());
        }
        None
    }

    proof fn lemma_alloc_id_not_occupied(g: Globals<V>, id: GlobalEntryId)
        requires
            g.wf(),
            id < g.n_slots(),
            g.slot_at(id as int) is Some,
        ensures
            g.alloc_id() != id,
    {
        lemma_vec_len_bound(g.entries);
        if g.free_entries@.len() != 0 {
            assert(g.entries@[g.free_entries@[g.free_entries@.len() - 1] as int] is None);
        } else {
            assert(g.alloc_id() == g.entries@.len());
        }
    }

    /// After a removal, every key whose resolving parts all pointed at
    /// the removed slot has become unresolvable.
    pub proof fn lemma_removed_key_unresolvable(
        pre: Globals<V>,
        post: Globals<V>,
        id: GlobalEntryId,
        parts: Seq<KeyPart>,
    )
        requires
            remove_step(pre, post, id),
            forall|i: int|
                0 <= i < parts.len() ==> ((#[trigger] pre.idx(
                    parts[i].kind,
                    parts[i].value,
                )) is Some ==> pre.idx(parts[i].kind, parts[i].value)->Some_0 == id),
        ensures
            post.resolve(parts) is None,
        decreases parts.len(),
    {
        if parts.len() > 0 {
            assert(post.idx(parts[0].kind, parts[0].value) is None) by {
                if pre.idx(parts[0].kind, parts[0].value) is Some {
                    assert(pre.idx(parts[0].kind, parts[0].value) == Some(id));
                }
            }
            assert forall|i: int|
                0 <= i < parts.drop_first().len() implies ((#[trigger] pre.idx(
                parts.drop_first()[i].kind,
                parts.drop_first()[i].value,
            )) is Some ==> pre.idx(
                parts.drop_first()[i].kind,
                parts.drop_first()[i].value,
            )->Some_0 == id) by {
                assert(parts.drop_first()[i] == parts[i + 1]);
            }
            Self::lemma_removed_key_unresolvable(pre, post, id, parts.drop_first());
        }
    }

    /// Removing an entry and then defining a new one reuses the vacated
    /// slot: the slot count does not grow, and the new entry occupies the
    /// very slot the removed entry held.
    pub proof fn lemma_slot_reuse(
        g0: Globals<V>,
        g1: Globals<V>,
        g2: Globals<V>,
        id: GlobalEntryId,
        parts: Seq<KeyPart>,
        value: V,
    )
        requires
            remove_step(g0, g1, id),
            define_step(g1, g2, parts, value),
        ensures
            g2.n_slots() == g0.n_slots(),
            g1.alloc_id() == id,
            g2.slot_at(id as int) == Some((parts, value)),
            g2.resolve(parts) == Some(id),
    {
    }

    /// An entry defined under two parts of different kinds is reachable
    /// through either part alone.  An entry that later claims one of the
    /// parts revokes exactly that part: the old entry stays reachable
    /// through the remaining part only.  An entry that then claims the
    /// remaining part deletes the old entry outright.
    pub proof fn lemma_part_revocation(
        g0: Globals<V>,
        g1: Globals<V>,
        g2: Globals<V>,
        g3: Globals<V>,
        p1: KeyPart,
        p2: KeyPart,
        v: V,
        w1: V,
        w2: V,
    )
        requires
            p1.kind != p2.kind,
            define_step(g0, g1, seq![p1, p2], v),
            define_step(g1, g2, seq![p1], w1),
            define_step(g2, g3, seq![p2], w2),
        ensures
            ({
                let id = g0.alloc_id();
                &&& g1.resolve(seq![p1]) == Some(id)
                &&& g1.resolve(seq![p2]) == Some(id)
                &&& g2.resolve(seq![p1]) == Some(g1.alloc_id()) && g1.alloc_id() != id
                &&& g2.resolve(seq![p2]) == Some(id)
                &&& g2.slot_at(id as int) == Some((seq![p2], v))
                &&& g3.slot_at(id as int) is None
                &&& g3.resolve(seq![p1]) == Some(g1.alloc_id())
                &&& g3.resolve(seq![p2]) == Some(g2.alloc_id()) && g2.alloc_id() != id
            }),
    {
        let id = g0.alloc_id();
        let parts = seq![p1, p2];
        assert(p1 != p2);
        assert(parts.contains(p1)) by {
            assert(parts[0] == p1);
        }
        assert(parts.contains(p2)) by {
            assert(parts[1] == p2);
        }
        assert(g1.idx(p1.kind, p1.value) == Some(id));
        assert(g1.idx(p2.kind, p2.value) == Some(id));
        assert(g1.resolve(seq![p1]) == Some(id)) by {
            assert(seq![p1][0] == p1);
        }
        assert(g1.resolve(seq![p2]) == Some(id)) by {
            assert(seq![p2][0] == p2);
        }
        // the second entry takes a different slot, since `id` is occupied
        let id2 = g1.alloc_id();
        assert(g1.slot_at(id as int) == Some((parts, v)));
        Self::lemma_alloc_id_not_occupied(g1, id);
        // claiming p1 strips exactly p1 from the first entry
        assert(seq![p1].contains(p1)) by {
            assert(seq![p1][0] == p1);
        }
        assert(!seq![p1].contains(p2)) by {
            if seq![p1].contains(p2) {
                let i = choose|i: int| 0 <= i < seq![p1].len() && seq![p1][i] == p2;
            }
        }
        assert(g2.slot_at(id as int) == strip_slot(g1.slot_at(id as int), key_set(seq![p1])));
        let ks1 = key_set(seq![p1]);
        assert(ks1.contains(p1) && !ks1.contains(p2));
        assert(strip_key(parts, ks1) =~= seq![p2]) by {
            assert(parts.drop_last() =~= seq![p1]);
            assert(parts.last() == p2);
            assert(seq![p1].drop_last() =~= Seq::<KeyPart>::empty());
            assert(strip_key(Seq::<KeyPart>::empty(), ks1) =~= Seq::<KeyPart>::empty());
            assert(strip_key(seq![p1], ks1) =~= Seq::<KeyPart>::empty());
        }
        assert(g2.slot_at(id as int) == Some((seq![p2], v)));
        assert(g2.idx(p2.kind, p2.value) == Some(id)) by {
            assert(p2 != p1);
        }
        assert(g2.resolve(seq![p2]) == Some(id)) by {
            assert(seq![p2][0] == p2);
        }
        assert(g2.resolve(seq![p1]) == Some(id2));
        // claiming p2 as well empties the first entry's key and deletes it
        let id3 = g2.alloc_id();
        Self::lemma_alloc_id_not_occupied(g2, id);
        let ks2 = key_set(seq![p2]);
        assert(ks2.contains(p2)) by {
            assert(seq![p2][0] == p2);
        }
        assert(g3.slot_at(id as int) == strip_slot(g2.slot_at(id as int), ks2));
        assert(strip_key(seq![p2], ks2) =~= Seq::<KeyPart>::empty()) by {
            assert(seq![p2].drop_last() =~= Seq::<KeyPart>::empty());
            assert(seq![p2].last() == p2);
            assert(strip_key(Seq::<KeyPart>::empty(), ks2) =~= Seq::<KeyPart>::empty());
        }
        assert(g3.slot_at(id as int) is None);
        assert(g3.resolve(seq![p2]) == Some(id3)) by {
            assert(seq![p2][0] == p2);
        }
        assert(g3.idx(p1.kind, p1.value) == Some(id2)) by {
            assert(!seq![p2].contains(p1)) by {
                if seq![p2].contains(p1) {
                    let i = choose|i: int| 0 <= i < seq![p2].len() && seq![p2][i] == p1;
                }
            }
        }
        assert(g3.resolve(seq![p1]) == Some(id2)) by {
            assert(seq![p1][0] == p1);
        }
    }

    /// Borrow the entry in slot `id`, or nothing when the slot is vacant.
    pub fn read_entry(&self, id: GlobalEntryId) -> (r: Option<&GlobalEntry<V>>)
        requires
            id < self.n_slots(),
        ensures
            match r {
                Some(e) => self.slot_at(id as int) == Some((e.key.parts@, e.value)),
                None => self.slot_at(id as int) is None,
            },
    {
        self.entries[id].as_ref()
    }

    /// Exclusive write to exactly the slot `id`: the stored value is
    /// replaced by `value` and handed back.  A vacant slot takes nothing
    /// and gives nothing back.
    pub fn write_entry(&mut self, id: GlobalEntryId, value: V) -> (r: Option<V>)
        requires
            old(self).wf(),
            id < old(self).n_slots(),
        ensures
            final(self).wf(),
            old(self).slot_at(id as int) is None ==> r is None && *final(self) == *old(self),
            old(self).slot_at(id as int) matches Some(pv) ==> {
                &&& r == Some(pv.1)
                &&& final(self).slot_at(id as int) == Some((pv.0, value))
                &&& forall|j: int| j != id ==> final(self).slot_at(j) == old(self).slot_at(j)
                &&& forall|k: u64, v: u64|
                    #[trigger] final(self).idx(k, v) == old(self).idx(k, v)
                &&& forall|k: u64| #[trigger] final(self).registered(k) == old(self).registered(k)
                &&& final(self).n_slots() == old(self).n_slots()
                &&& final(self).has_free() == old(self).has_free()
                &&& final(self).alloc_id() == old(self).alloc_id()
            },
    {
        let ghost pre = *self;
        if self.entries[id].is_none() {
            return None;
        }
        let slot = &mut self.entries[id];
        let taken = slot.take();
        match taken {
            Some(mut e) => {
                let mut v2 = value;
                core::mem::swap(&mut e.value, &mut v2);
                let slot2 = &mut self.entries[id];
                *slot2 = Some(e);
                proof {
                    assert(self.entries@ =~= pre.entries@.update(
                        id as int,
                        self.entries@[id as int],
                    ));
                    assert(self.entries@[id as int] is Some);
                    assert(self.entries@[id as int]->Some_0.key == pre.entries@[
                        id as int
                    ]->Some_0.key);
                    assert forall|k: u64, v: u64| #[trigger] self.idx(k, v) == pre.idx(k, v) by {
                        assert(self.accessors@ == pre.accessors@);
                    }
                    assert forall|k: u64| #[trigger] self.registered(k) == pre.registered(k) by {
                        assert(self.accessors@ == pre.accessors@);
                    }
                    assert(self.wf()) by {
                        assert forall|k: u64, v: u64| #[trigger] self.idx(k, v) is Some implies {
                            let j = self.idx(k, v)->Some_0;
                            &&& j < self.entries@.len()
                            &&& self.entries@[j as int] is Some
                            &&& self.entries@[j as int]->Some_0.key.parts@.contains(
                                KeyPart { kind: k, value: v },
                            )
                        } by {
                            assert(pre.idx(k, v) is Some);
                            let j = pre.idx(k, v)->Some_0;
                            assert(pre.entries@[j as int]->Some_0.key.parts@.contains(
                                KeyPart { kind: k, value: v },
                            ));
                            assert(self.entries@[j as int]->Some_0.key == pre.entries@[
                                j as int
                            ]->Some_0.key);
                        }
                        assert forall|j: GlobalEntryId|
                            j < self.entries@.len() && self.entries@[j as int] is Some implies {
                            let parts = (#[trigger] self.entries@[j as int])->Some_0.key.parts@;
                            &&& parts.len() > 0
                            &&& key_wf(parts)
                            &&& forall|pi: int|
                                0 <= pi < parts.len() ==> self.registered(
                                    (#[trigger] parts[pi]).kind,
                                ) && self.idx(parts[pi].kind, parts[pi].value) == Some(j)
                        } by {
                            assert(pre.entries@[j as int] is Some);
                            let parts = self.entries@[j as int]->Some_0.key.parts@;
                            assert(parts == pre.entries@[j as int]->Some_0.key.parts@);
                        }
                    }
                }
                Some(v2)
            },
            None => {
                proof {
                    assert(false);
                }
                None
            },
        }
    }

    /// Look `key` up and borrow the value it resolves to.
    pub fn get(&self, key: GlobalKey) -> (r: Option<&V>)
        requires
            self.wf(),
            forall|i: int|
                0 <= i < key.parts@.len() ==> self.registered((#[trigger] key.parts@[i]).kind),
        ensures
            match self.resolve(key.parts@) {
                None => r is None,
                Some(id) => r matches Some(v) && (self.slot_at(id as int) matches Some(pv) && *v
                    == pv.1),
            },
    {
        let ghost kparts = key.parts@;
        let id = match self.id_of(key) {
            Some(id) => id,
            None => {
                return None;
            },
        };
        proof {
            self.lemma_resolve_idx(kparts);
        }
        match self.entries[id].as_ref() {
            Some(e) => Some(&e.value),
            None => {
                proof {
                    assert(false);
                }
                None
            },
        }
    }
}

} // verus!
