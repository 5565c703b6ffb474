//! The two-generation event pools.
//!
//! Events posted during a tick accumulate in [`NewEvents`]; at the start of
//! the next tick they rotate into [`CurrentEvents`], the set visible to
//! wake-up rules. Phase marker events are inserted into the current set by
//! the phase machine itself, scoped to exactly one phase.

use vstd::prelude::*;

use crate::id::SchedulerEvent;

verus! {

broadcast use vstd::seq_lib::group_seq_properties;

/// Events posted during the running tick, visible from the next tick on.
#[derive(Debug)]
pub struct NewEvents {
    events: Vec<SchedulerEvent>,
}

impl View for NewEvents {
    type V = Set<SchedulerEvent>;

    closed spec fn view(&self) -> Set<SchedulerEvent> {
        self.events@.to_set()
    }
}

impl NewEvents {
    pub closed spec fn wf(&self) -> bool {
        self.events@.no_duplicates()
    }

    pub fn new() -> (r: NewEvents)
        ensures
            r.wf(),
            r@ == Set::<SchedulerEvent>::empty(),
    {
        let r = NewEvents { events: Vec::new() };
        proof {
            assert(r@ =~= Set::<SchedulerEvent>::empty());
        }
        r
    }

    /// Post an event. Returns true when the event was not yet present.
    pub fn insert(&mut self, event: SchedulerEvent) -> (fresh: bool)
        requires
            old(self).wf(),
        ensures
            final(self).wf(),
            final(self)@ == old(self)@.insert(event),
            fresh == !old(self)@.contains(event),
    {
        let already = contains_event(&self.events, &event);
        if !already {
            self.events.push(event);
            proof {
                assert(self.events@.drop_last() =~= old(self).events@);
                assert(self.events@.to_set() =~= old(self)@.insert(event));
            }
        } else {
            proof {
                assert(self@ =~= old(self)@.insert(event));
            }
        }
        !already
    }

    /// Empty the pool, handing its contents out.
    pub fn drain(&mut self) -> (drained: Vec<SchedulerEvent>)
        requires
            old(self).wf(),
        ensures
            final(self).wf(),
            final(self)@ == Set::<SchedulerEvent>::empty(),
            drained@.to_set() == old(self)@,
            drained@.no_duplicates(),
    {
        let mut out: Vec<SchedulerEvent> = Vec::new();
        core::mem::swap(&mut out, &mut self.events);
        proof {
            assert(self@ =~= Set::<SchedulerEvent>::empty());
        }
        out
    }
}

impl Default for NewEvents {
    fn default() -> (r: Self)
        ensures
            r.wf(),
            r@ == Set::<SchedulerEvent>::empty(),
    {
        NewEvents::new()
    }
}

/// The events visible to wake-up rules during the running tick.
#[derive(Debug)]
pub struct CurrentEvents {
    events: Vec<SchedulerEvent>,
}

impl View for CurrentEvents {
    type V = Set<SchedulerEvent>;

    closed spec fn view(&self) -> Set<SchedulerEvent> {
        self.events@.to_set()
    }
}

impl CurrentEvents {
    pub closed spec fn wf(&self) -> bool {
        self.events@.no_duplicates()
    }

    pub fn new() -> (r: CurrentEvents)
        ensures
            r.wf(),
            r@ == Set::<SchedulerEvent>::empty(),
    {
        let r = CurrentEvents { events: Vec::new() };
        proof {
            assert(r@ =~= Set::<SchedulerEvent>::empty());
        }
        r
    }

    /// Rotate: the current set becomes exactly what was newly posted, and
    /// the new-event pool empties.
    pub fn tick(&mut self, new_events: &mut NewEvents)
        requires
            old(self).wf(),
            old(new_events).wf(),
        ensures
            final(self).wf(),
            final(new_events).wf(),
            final(self)@ == old(new_events)@,
            final(new_events)@ == Set::<SchedulerEvent>::empty(),
    {
        self.events = new_events.drain();
    }

    pub fn insert(&mut self, event: SchedulerEvent)
        requires
            old(self).wf(),
        ensures
            final(self).wf(),
            final(self)@ == old(self)@.insert(event),
    {
        if !contains_event(&self.events, &event) {
            self.events.push(event);
            proof {
                assert(self.events@.drop_last() =~= old(self).events@);
                assert(self.events@.to_set() =~= old(self)@.insert(event));
            }
        } else {
            proof {
                assert(self@ =~= old(self)@.insert(event));
            }
        }
    }

    pub fn remove(&mut self, to_remove: &SchedulerEvent)
        requires
            old(self).wf(),
        ensures
            final(self).wf(),
            final(self)@ == old(self)@.remove(*to_remove),
    {
        let n = self.events.len();
        let mut kept: Vec<SchedulerEvent> = Vec::new();
        for i in 0..n
            invariant
                n == old(self).events@.len(),
                self.events@ == old(self).events@,
                old(self).events@.no_duplicates(),
                kept@.no_duplicates(),
                forall|j: int|
                    0 <= j < kept@.len() ==> old(self).events@.take(i as int).contains(
                        #[trigger] kept@[j],
                    ),
                forall|j: int|
                    0 <= j < i && old(self).events@[j] != to_remove ==> kept@.contains(
                        #[trigger] old(self).events@[j],
                    ),
                forall|j: int| 0 <= j < kept@.len() ==> #[trigger] kept@[j] != to_remove,
        {
            let e = self.events[i];
            if !(e == *to_remove) {
                proof {
                    if kept@.contains(e) {
                        let j = choose|j: int| 0 <= j < kept@.len() && kept@[j] == e;
                        let l = choose|l: int|
                            0 <= l < i && old(self).events@.take(i as int)[l] == e;
                        assert(old(self).events@[l] == e);
                        assert(old(self).events@[i as int] == e);
                    }
                }
                kept.push(e);
            }
            proof {
                assert(forall|j: int|
                    0 <= j < kept@.len() ==> old(self).events@.take(i + 1).contains(
                        #[trigger] kept@[j],
                    ));
            }
        }
        proof {
            assert(old(self).events@.take(n as int) =~= old(self).events@);
        }
        self.events = kept;
        proof {
            assert(self@ =~= old(self)@.remove(*to_remove));
        }
    }

    pub fn contains(&self, event: &SchedulerEvent) -> (r: bool)
        ensures
            r == self@.contains(*event),
    {
        contains_event(&self.events, event)
    }

    /// The visible events as a plain list, without repetition.
    pub fn events(&self) -> (r: &Vec<SchedulerEvent>)
        ensures
            r@.to_set() == self@,
            r@.no_duplicates() == self.wf(),
    {
        &self.events
    }
}

impl Default for CurrentEvents {
    fn default() -> (r: Self)
        ensures
            r.wf(),
            r@ == Set::<SchedulerEvent>::empty(),
    {
        CurrentEvents::new()
    }
}

/// Linear membership test over an event list.
pub fn contains_event(events: &Vec<SchedulerEvent>, event: &SchedulerEvent) -> (r: bool)
    ensures
        r == events@.contains(*event),
        r == events@.to_set().contains(*event),
{
    let n = events.len();
    for i in 0..n
        invariant
            n == events@.len(),
            forall|j: int| 0 <= j < i ==> events@[j] != event,
    {
        if events[i] == *event {
            return true;
        }
    }
    false
}

} // verus!
