use event_globals::events::{EventId, EventQueue};
use event_globals::globals::Globals;
use event_globals::keys::IntoGlobalKey;
use event_globals::singleton::{Singleton, SingletonKey};
use event_globals::systems::{Scheduler, System};

fn ev(kind: u64, value: u64) -> EventId {
    EventId { kind, value }
}

fn sys(handle: u64) -> System {
    System { handle, fallible: false }
}

#[test]
fn handlers_run_in_registration_order() {
    let mut s = Scheduler::new();
    s.on(ev(1, 0), sys(10));
    s.on(ev(1, 0), sys(11));
    s.on(ev(2, 0), sys(20));
    assert_eq!(s.handlers_of(ev(1, 0)), vec![sys(10), sys(11)]);
    assert_eq!(s.handlers_of(ev(2, 0)), vec![sys(20)]);
    assert_eq!(s.handlers_of(ev(3, 0)), vec![]);
}

#[test]
fn dispatch_plan_keeps_drain_order_and_drops_unhandled() {
    let mut s = Scheduler::new();
    s.on(ev(1, 0), sys(10));
    s.on(ev(2, 0), sys(20));
    s.on(ev(2, 0), sys(21));
    let batch = vec![ev(2, 0), ev(9, 9), ev(1, 0)];
    let plan = s.dispatch_plan(&batch);
    // one group per handled event, in drain order; the unhandled event is dropped
    assert_eq!(plan, vec![vec![sys(20), sys(21)], vec![sys(10)]]);
}

#[test]
fn terminal_only_when_batch_empty_and_pool_idle() {
    assert!(Scheduler::batch_is_terminal(0, true));
    assert!(!Scheduler::batch_is_terminal(0, false));
    assert!(!Scheduler::batch_is_terminal(3, true));
    assert!(!Scheduler::batch_is_terminal(3, false));
}

// A single-threaded run of the drain/dispatch loop: the handler on event A
// stores a value and pushes event B; the handler on B reads the value.  B's
// handler runs in a later dispatch cycle, after A's insertion is applied.
#[test]
fn end_to_end_ordering() {
    let event_a = ev(1, 0);
    let event_b = ev(2, 0);
    let mut scheduler = Scheduler::new();
    scheduler.on(event_a, sys(1));
    scheduler.on(event_b, sys(2));

    let mut globals: Globals<u64> = Globals::new();
    let mut queue = EventQueue::new();
    queue.push(event_a);

    let mut observed: Option<u64> = None;
    let mut cycles: u32 = 0;
    loop {
        let batch = queue.drain();
        if Scheduler::batch_is_terminal(batch.len(), true) {
            break;
        }
        for event in batch {
            for system in scheduler.handlers_of(event) {
                match system.handle {
                    1 => {
                        globals.define(Singleton { type_code: 40, value: 7u64 });
                        queue.push(event_b);
                    }
                    2 => {
                        let key = SingletonKey { type_code: 40 }.into_global_key();
                        observed = globals.get(key).copied();
                    }
                    _ => unreachable!(),
                }
            }
        }
        cycles += 1;
        assert!(cycles <= 3);
    }
    // B's handler saw the value A's handler stored
    assert_eq!(observed, Some(7));
}
