use event_globals::events::{EventId, EventQueue};

fn ev(kind: u64, value: u64) -> EventId {
    EventId { kind, value }
}

#[test]
fn drain_returns_pushed_events_in_order_once() {
    let mut q = EventQueue::new();
    q.push(ev(1, 1));
    q.push(ev(1, 2));
    q.push(ev(2, 1));
    assert_eq!(q.len(), 3);
    let batch = q.drain();
    assert_eq!(batch, vec![ev(1, 1), ev(1, 2), ev(2, 1)]);
    // a second drain with no intervening pushes is empty
    let again = q.drain();
    assert!(again.is_empty());
    assert_eq!(q.len(), 0);
}

#[test]
fn events_of_different_kinds_are_distinct() {
    assert_ne!(ev(1, 5), ev(2, 5));
    assert_ne!(ev(1, 5), ev(1, 6));
    assert_eq!(ev(3, 4), ev(3, 4));
}

#[test]
fn push_after_drain_starts_fresh() {
    let mut q = EventQueue::new();
    q.push(ev(9, 9));
    let _ = q.drain();
    q.push(ev(8, 8));
    assert_eq!(q.drain(), vec![ev(8, 8)]);
}
