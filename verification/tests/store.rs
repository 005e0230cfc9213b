use event_globals::globals::{GlobalEntry, Globals};
use event_globals::keys::{GlobalKey, IntoGlobalKey, KeyPart};
use event_globals::singleton::{Singleton, SingletonKey};

fn skey(tc: u64) -> GlobalKey {
    SingletonKey { type_code: tc }.into_global_key()
}

fn part_key(kind: u64, value: u64) -> GlobalKey {
    GlobalKey { parts: vec![KeyPart { kind, value }] }
}

#[test]
fn singleton_roundtrip() {
    let mut g: Globals<u64> = Globals::new();
    g.define(Singleton { type_code: 7, value: 42u64 });
    assert_eq!(g.get(skey(7)).copied(), Some(42));
    assert_eq!(g.get(skey(8)).copied(), None);
}

#[test]
fn singleton_replace_drops_old_value() {
    let mut g: Globals<u64> = Globals::new();
    g.define(Singleton { type_code: 7, value: 1u64 });
    g.define(Singleton { type_code: 7, value: 2u64 });
    assert_eq!(g.get(skey(7)).copied(), Some(2));
    // the first value is gone: removing yields only the second
    assert_eq!(g.remove(skey(7)), Some(2));
    assert_eq!(g.remove(skey(7)), None);
}

#[test]
fn remove_returns_value_and_unresolves() {
    let mut g: Globals<&'static str> = Globals::new();
    g.define(Singleton { type_code: 3, value: "hello" });
    let id = g.id_of(skey(3));
    assert!(id.is_some());
    assert_eq!(g.remove(skey(3)), Some("hello"));
    assert_eq!(g.id_of(skey(3)), None);
    assert_eq!(g.get(skey(3)), None);
}

#[test]
fn remove_miss_changes_nothing() {
    let mut g: Globals<u64> = Globals::new();
    g.define(Singleton { type_code: 1, value: 10u64 });
    let n = g.slot_count();
    assert_eq!(g.remove(skey(99)), None);
    assert_eq!(g.slot_count(), n);
    assert_eq!(g.get(skey(1)).copied(), Some(10));
}

#[test]
fn slot_reuse_keeps_count() {
    let mut g: Globals<u64> = Globals::new();
    for tc in 0..4u64 {
        g.define(Singleton { type_code: tc, value: tc * 10 });
    }
    assert_eq!(g.slot_count(), 4);
    assert_eq!(g.remove(skey(1)), Some(10));
    assert_eq!(g.remove(skey(2)), Some(20));
    g.define(Singleton { type_code: 8, value: 80u64 });
    g.define(Singleton { type_code: 9, value: 90u64 });
    // two removed, two defined: the vacated slots were reused
    assert_eq!(g.slot_count(), 4);
    assert_eq!(g.get(skey(8)).copied(), Some(80));
    assert_eq!(g.get(skey(9)).copied(), Some(90));
}

#[test]
fn stale_id_does_not_resolve_to_old_entry() {
    let mut g: Globals<u64> = Globals::new();
    g.define(Singleton { type_code: 5, value: 50u64 });
    let id = g.id_of(skey(5)).unwrap();
    assert_eq!(g.remove(skey(5)), Some(50));
    // the slot is vacant until something reuses it
    assert!(g.read_entry(id).is_none());
}

#[test]
fn two_part_entry_resolvable_by_either_part() {
    let mut g: Globals<u64> = Globals::new();
    g.register_kind(1);
    g.register_kind(2);
    let key = GlobalKey {
        parts: vec![KeyPart { kind: 1, value: 10 }, KeyPart { kind: 2, value: 20 }],
    };
    g.define(GlobalEntry { key, value: 77u64 });
    let by_first = g.id_of(part_key(1, 10));
    let by_second = g.id_of(part_key(2, 20));
    assert!(by_first.is_some());
    assert_eq!(by_first, by_second);
}

#[test]
fn revoking_parts_one_by_one_deletes_entry() {
    let mut g: Globals<u64> = Globals::new();
    g.register_kind(1);
    g.register_kind(2);
    let key = GlobalKey {
        parts: vec![KeyPart { kind: 1, value: 10 }, KeyPart { kind: 2, value: 20 }],
    };
    g.define(GlobalEntry { key, value: 100u64 });
    let old_id = g.id_of(part_key(1, 10)).unwrap();

    // a new entry claims the first part: the old entry keeps the second
    g.define(GlobalEntry { key: part_key(1, 10), value: 200u64 });
    assert_eq!(g.get(part_key(1, 10)).copied(), Some(200));
    assert_eq!(g.get(part_key(2, 20)).copied(), Some(100));
    assert_eq!(g.id_of(part_key(2, 20)), Some(old_id));

    // another entry claims the last part: the old entry is deleted
    g.define(GlobalEntry { key: part_key(2, 20), value: 300u64 });
    assert_eq!(g.get(part_key(2, 20)).copied(), Some(300));
    assert!(g.read_entry(old_id).is_none());
}

#[test]
fn write_entry_replaces_value_in_place() {
    let mut g: Globals<u64> = Globals::new();
    g.define(Singleton { type_code: 4, value: 11u64 });
    let id = g.id_of(skey(4)).unwrap();
    assert_eq!(g.write_entry(id, 12u64), Some(11));
    assert_eq!(g.get(skey(4)).copied(), Some(12));
    assert_eq!(g.remove(skey(4)), Some(12));
    // the slot is vacant now: writing takes nothing and stores nothing
    assert_eq!(g.write_entry(id, 13u64), None);
    assert!(g.read_entry(id).is_none());
}

#[test]
fn read_entry_exposes_key_and_value() {
    let mut g: Globals<u64> = Globals::new();
    g.define(Singleton { type_code: 6, value: 66u64 });
    let id = g.id_of(skey(6)).unwrap();
    let entry = g.read_entry(id).unwrap();
    assert_eq!(entry.value, 66);
    assert_eq!(entry.key.parts.len(), 1);
    assert_eq!(entry.key.parts[0].value, 6);
}

#[test]
fn bulk_define_inserts_all_in_order() {
    let mut g: Globals<u64> = Globals::new();
    g.register_kind(1);
    let entries = vec![
        GlobalEntry { key: part_key(1, 1), value: 11u64 },
        GlobalEntry { key: part_key(1, 2), value: 22u64 },
    ];
    g.define(entries);
    assert_eq!(g.get(part_key(1, 1)).copied(), Some(11));
    assert_eq!(g.get(part_key(1, 2)).copied(), Some(22));
    assert_eq!(g.slot_count(), 2);
}

#[test]
fn later_entry_in_batch_evicts_earlier() {
    let mut g: Globals<u64> = Globals::new();
    g.register_kind(1);
    let entries = vec![
        GlobalEntry { key: part_key(1, 5), value: 1u64 },
        GlobalEntry { key: part_key(1, 5), value: 2u64 },
    ];
    g.define(entries);
    // the second entry claimed the first one's only key part
    assert_eq!(g.get(part_key(1, 5)).copied(), Some(2));
}

#[test]
fn register_kind_twice_is_noop() {
    let mut g: Globals<u64> = Globals::new();
    g.register_kind(1);
    g.define(GlobalEntry { key: part_key(1, 10), value: 5u64 });
    g.register_kind(1);
    // the earlier accessor, with its mapping, is kept
    assert_eq!(g.get(part_key(1, 10)).copied(), Some(5));
}
