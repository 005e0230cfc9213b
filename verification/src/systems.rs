//! The scheduler registry: which handlers run on which event, and the
//! decisions of the drain/dispatch loop.  The runtime that owns threads,
//! locks and callbacks sits outside the verified library and consults
//! these functions for every decision.

use vstd::prelude::*;
use crate::events::EventId;

verus! {

/// A registered handler: an opaque handle the runtime maps to the real
/// callback, together with its declared fallibility.  A system is
/// immutable and shareable; it carries no state of its own.
#[derive(Clone, Copy, PartialEq, Eq, Structural, Debug)]
pub struct System {
    /// Handle the runtime resolves to the callback.
    pub handle: u64,
    /// Whether the callback reports failure through a result.
    pub fallible: bool,
}

spec fn evt_registered(s: Seq<(EventId, Vec<System>)>, e: EventId) -> bool {
    exists|i: int| 0 <= i < s.len() && (#[trigger] s[i]).0 == e
}

spec fn evt_at(s: Seq<(EventId, Vec<System>)>, e: EventId) -> int {
    choose|i: int| 0 <= i < s.len() && (#[trigger] s[i]).0 == e
}

spec fn evts_distinct(s: Seq<(EventId, Vec<System>)>) -> bool {
    forall|i: int, j: int| 0 <= i < j < s.len() ==> (#[trigger] s[i]).0 != (#[trigger] s[j]).0
}

proof fn lemma_evt_at(s: Seq<(EventId, Vec<System>)>, i: int)
    requires
        evts_distinct(s),
        0 <= i < s.len(),
    ensures
        evt_registered(s, s[i].0),
        evt_at(s, s[i].0) == i,
{
    assert(evt_registered(s, s[i].0));
    let j = evt_at(s, s[i].0);
    assert(0 <= j < s.len() && s[j].0 == s[i].0);
    if i < j {
        assert(s[i].0 != s[j].0);
    } else if j < i {
        assert(s[j].0 != s[i].0);
    }
}

/// The mapping from events to the handlers that run on them.  Built once
/// before the run loop and immutable while it runs.
pub struct Scheduler {
    systems: Vec<(EventId, Vec<System>)>,
}

impl Scheduler {
    /// Registry consistency: each event appears at most once.
    pub closed spec fn wf(&self) -> bool {
        evts_distinct(self.systems@)
    }

    /// The handlers registered on `e`, in registration order; empty when
    /// none were registered.
    pub closed spec fn systems_for(&self, e: EventId) -> Seq<System> {
        if evt_registered(self.systems@, e) {
            self.systems@[evt_at(self.systems@, e)].1@
        } else {
            Seq::empty()
        }
    }

    /// A fresh registry with nothing registered.
    pub fn new() -> (r: Scheduler)
        ensures
            r.wf(),
            forall|e: EventId| #[trigger] r.systems_for(e) =~= Seq::<System>::empty(),
    {
        let r = Scheduler { systems: Vec::new() };
        proof {
            assert forall|e: EventId| #[trigger] r.systems_for(e) =~= Seq::<System>::empty() by {
                assert(!evt_registered(r.systems@, e));
            }
        }
        r
    }

    /// Register `sys` to run on `event`, after everything registered on
    /// that event before it.  Other events are untouched.
    pub fn on(&mut self, event: EventId, sys: System)
        requires
            old(self).wf(),
        ensures
            final(self).wf(),
            final(self).systems_for(event) == old(self).systems_for(event).push(sys),
            forall|e: EventId|
                e != event ==> #[trigger] final(self).systems_for(e) == old(self).systems_for(e),
    {
        let ghost pre = *self;
        let n = self.systems.len();
        let mut i: usize = 0;
        while i < n
            invariant
                pre == *self,
                pre == *old(self),
                n == self.systems@.len(),
                i <= n,
                self.wf(),
                forall|j: int| 0 <= j < i ==> (#[trigger] self.systems@[j]).0 != event,
            decreases n - i,
        {
            if self.systems[i].0 == event {
                proof {
                    lemma_evt_at(self.systems@, i as int);
                }
                let pair = &mut self.systems[i];
                pair.1.push(sys);
                proof {
                    assert(self.systems@ =~= pre.systems@.update(
                        i as int,
                        self.systems@[i as int],
                    ));
                    assert(self.systems@[i as int].0 == event);
                    assert(evts_distinct(self.systems@)) by {
                        assert(forall|j: int|
                            0 <= j < self.systems@.len() ==> (#[trigger] self.systems@[j]).0
                                == pre.systems@[j].0);
                    }
                    lemma_evt_at(self.systems@, i as int);
                    assert(self.systems@[i as int].1@ == pre.systems@[i as int].1@.push(sys));
                    assert forall|e: EventId|
                        e != event implies #[trigger] self.systems_for(e) == pre.systems_for(
                        e,
                    ) by {
                        if evt_registered(pre.systems@, e) {
                            let j = evt_at(pre.systems@, e);
                            lemma_evt_at(pre.systems@, j);
                            assert(self.systems@[j].0 == e);
                            lemma_evt_at(self.systems@, j);
                            assert(j != i);
                        } else {
                            assert(!evt_registered(self.systems@, e)) by {
                                if evt_registered(self.systems@, e) {
                                    let j = evt_at(self.systems@, e);
                                    assert(pre.systems@[j].0 == e);
                                }
                            }
                        }
                    }
                }
                return ;
            }
            i += 1;
        }
        proof {
            assert(!evt_registered(pre.systems@, event));
        }
        let mut fresh: Vec<System> = Vec::new();
        fresh.push(sys);
        self.systems.push((event, fresh));
        proof {
            let m = pre.systems@.len() as int;
            assert(self.systems@ == pre.systems@.push((event, fresh)));
            assert(evts_distinct(self.systems@)) by {
                assert forall|a: int, b: int|
                    0 <= a < b < self.systems@.len() implies (#[trigger] self.systems@[a]).0 != (
                #[trigger] self.systems@[b]).0 by {
                    if b < m {
                        assert(pre.systems@[a].0 != pre.systems@[b].0);
                    } else {
                        assert(self.systems@[b].0 == event);
                        assert(self.systems@[a] == pre.systems@[a]);
                        assert(!evt_registered(pre.systems@, event));
                    }
                }
            }
            lemma_evt_at(self.systems@, m);
            assert(self.systems_for(event) == fresh@);
            assert(fresh@ =~= Seq::<System>::empty().push(sys));
            assert(pre.systems_for(event) =~= Seq::<System>::empty());
            assert forall|e: EventId|
                e != event implies #[trigger] self.systems_for(e) == pre.systems_for(e) by {
                if evt_registered(pre.systems@, e) {
                    let j = evt_at(pre.systems@, e);
                    lemma_evt_at(pre.systems@, j);
                    assert(self.systems@[j].0 == e);
                    lemma_evt_at(self.systems@, j);
                } else {
                    assert(!evt_registered(self.systems@, e)) by {
                        if evt_registered(self.systems@, e) {
                            let j = evt_at(self.systems@, e);
                            if j < m {
                                assert(pre.systems@[j].0 == e);
                            }
                        }
                    }
                }
            }
        }
    }

    /// The handlers registered on `event`, in registration order.
    pub fn handlers_of(&self, event: EventId) -> (r: Vec<System>)
        requires
            self.wf(),
        ensures
            r@ == self.systems_for(event),
    {
        let n = self.systems.len();
        let mut i: usize = 0;
        while i < n
            invariant
                n == self.systems@.len(),
                i <= n,
                self.wf(),
                forall|j: int| 0 <= j < i ==> (#[trigger] self.systems@[j]).0 != event,
            decreases n - i,
        {
            if self.systems[i].0 == event {
                proof {
                    lemma_evt_at(self.systems@, i as int);
                }
                return Self::copy_systems(&self.systems[i].1);
            }
            i += 1;
        }
        proof {
            assert(!evt_registered(self.systems@, event));
        }
        Vec::new()
    }

    fn copy_systems(v: &Vec<System>) -> (r: Vec<System>)
        ensures
            r@ == v@,
    {
        let n = v.len();
        let mut out: Vec<System> = Vec::new();
        let mut i: usize = 0;
        while i < n
            invariant
                n == v@.len(),
                i <= n,
                out@ == v@.take(i as int),
            decreases n - i,
        {
            out.push(v[i]);
            proof {
                assert(v@.take(i as int + 1) =~= v@.take(i as int).push(v@[i as int]));
            }
            i += 1;
        }
        proof {
            assert(v@.take(n as int) =~= v@);
        }
        out
    }

    /// The dispatch plan for one drained batch: one group of handlers per
    /// event that has any, in drain order; events nobody registered on
    /// are dropped silently.
    pub open spec fn plan_spec(&self, batch: Seq<EventId>) -> Seq<Seq<System>>
        decreases batch.len(),
    {
        if batch.len() == 0 {
            Seq::empty()
        } else {
            let rest = self.plan_spec(batch.drop_last());
            if self.systems_for(batch.last()).len() > 0 {
                rest.push(self.systems_for(batch.last()))
            } else {
                rest
            }
        }
    }

    /// The dispatch plan respects drain order: the plan of one batch of
    /// events followed by another is the plan of the first followed by
    /// the plan of the second.  Handlers of a later event never come
    /// before handlers of an earlier one.
    pub proof fn lemma_plan_orders(&self, b1: Seq<EventId>, b2: Seq<EventId>)
        ensures
            self.plan_spec(b1 + b2) == self.plan_spec(b1) + self.plan_spec(b2),
        decreases b2.len(),
    {
        if b2.len() == 0 {
            assert(b1 + b2 =~= b1);
            assert(self.plan_spec(b1) + self.plan_spec(b2) =~= self.plan_spec(b1));
        } else {
            assert((b1 + b2).drop_last() =~= b1 + b2.drop_last());
            assert((b1 + b2).last() == b2.last());
            self.lemma_plan_orders(b1, b2.drop_last());
            if self.systems_for(b2.last()).len() > 0 {
                assert(self.plan_spec(b1) + self.plan_spec(b2) =~= (self.plan_spec(b1)
                    + self.plan_spec(b2.drop_last())).push(self.systems_for(b2.last())));
            }
        }
    }

    /// Compute the dispatch plan for a drained batch.
    pub fn dispatch_plan(&self, batch: &Vec<EventId>) -> (r: Vec<Vec<System>>)
        requires
            self.wf(),
        ensures
            r@.map(|i: int, v: Vec<System>| v@) == self.plan_spec(batch@),
    {
        let n = batch.len();
        let mut out: Vec<Vec<System>> = Vec::new();
        proof {
            assert(batch@.take(0) =~= Seq::<EventId>::empty());
            assert(out@.map(|i: int, v: Vec<System>| v@) =~= self.plan_spec(batch@.take(0)));
        }
        let mut i: usize = 0;
        while i < n
            invariant
                self.wf(),
                n == batch@.len(),
                i <= n,
                out@.map(|i2: int, v: Vec<System>| v@) == self.plan_spec(batch@.take(i as int)),
            decreases n - i,
        {
            let handlers = self.handlers_of(batch[i]);
            let ghost before = out@;
            if handlers.len() > 0 {
                out.push(handlers);
            }
            proof {
                assert(batch@.take(i as int + 1).drop_last() =~= batch@.take(i as int));
                assert(batch@.take(i as int + 1).last() == batch@[i as int]);
                if self.systems_for(batch@[i as int]).len() > 0 {
                    assert(out@.map(|i2: int, v: Vec<System>| v@) =~= before.map(
                        |i2: int, v: Vec<System>| v@,
                    ).push(self.systems_for(batch@[i as int])));
                } else {
                    assert(out@ == before);
                }
            }
            i += 1;
        }
        proof {
            assert(batch@.take(n as int) =~= batch@);
        }
        out
    }

    /// The run loop's termination test: a drained batch ends the run
    /// exactly when it is empty and the worker pool has nothing left in
    /// flight.  An empty batch with work outstanding is not terminal:
    /// running handlers may still produce events.
    pub fn batch_is_terminal(batch_len: usize, pool_idle: bool) -> (r: bool)
        ensures
            r == (batch_len == 0 && pool_idle),
    {
        batch_len == 0 && pool_idle
    }
}

} // verus!
