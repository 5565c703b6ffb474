//! The boundary to the callables themselves.
//!
//! The scheduler core stores no function values; per-system bodies are
//! external collaborators reached through [`SystemRunner`], a trait its
//! users implement. A body observes the resource stores and hands its
//! effects back as plain data in a [`RunOutcome`]; the scheduler applies
//! those effects itself, so everything it guarantees holds for every
//! possible runner.

use vstd::prelude::*;

use crate::id::{SchedulerEvent, SystemId};
use crate::resources::ResourceMap;

verus! {

/// What one run of a system produced.
#[derive(Debug)]
pub struct RunOutcome<V> {
    /// False when the callable reported an error; the error is logged by
    /// the caller of the tick and execution of other systems continues.
    pub success: bool,
    /// Updates to resources the global store already owns, by tag. A write
    /// to a tag the store does not own is dropped: systems reach only
    /// resources that passed their criteria check.
    pub writes: Vec<(u64, V)>,
    /// Updates to resources of the running system's private store.
    pub system_writes: Vec<(u64, V)>,
    /// Events to post into the new-event pool, visible next tick.
    pub posted_events: Vec<SchedulerEvent>,
    /// Interrupt requests to post, effective next tick.
    pub posted_interrupts: Vec<SystemId>,
    /// Fresh resources to file for the `Movement` phase: a destination
    /// (`None` is the global store) and the new entry.
    pub new_resources: Vec<(Option<SystemId>, u64, V)>,
    /// How far to advance the tick counter beyond the built-in increment.
    /// A delta of one per tick is deliberately not an invariant.
    pub advance_tick: usize,
}

impl<V> RunOutcome<V> {
    /// An empty, successful outcome.
    pub fn ok() -> (r: RunOutcome<V>)
        ensures
            r.success,
            r.writes@ == Seq::<(u64, V)>::empty(),
            r.system_writes@ == Seq::<(u64, V)>::empty(),
            r.posted_events@ == Seq::<SchedulerEvent>::empty(),
            r.posted_interrupts@ == Seq::<SystemId>::empty(),
            r.new_resources@ == Seq::<(Option<SystemId>, u64, V)>::empty(),
            r.advance_tick == 0,
    {
        RunOutcome {
            success: true,
            writes: Vec::new(),
            system_writes: Vec::new(),
            posted_events: Vec::new(),
            posted_interrupts: Vec::new(),
            new_resources: Vec::new(),
            advance_tick: 0,
        }
    }
}

/// The scheduler's window onto the registered callables. Implementations
/// run the body registered under a [`SystemId`] and report its effects;
/// the scheduler assumes nothing about what they return.
pub trait SystemRunner<V>: Sized {
    /// Run a foreground system to completion against the global store and,
    /// when the system owns one, its private store. The dispatcher drives
    /// no suspension of its own: a body that needs to yield and be polled
    /// again models itself as a non-blocking background system, which the
    /// scheduler polls once per tick through
    /// [`SystemRunner::poll_background`] until it reports completion.
    fn run(
        &mut self,
        id: &SystemId,
        resources: &ResourceMap<V>,
        system_resources: Option<&ResourceMap<V>>,
    ) -> RunOutcome<V>;

    /// Launch a background system. Its effects are collected later, when
    /// [`SystemRunner::poll_background`] reports it finished.
    fn start_background(&mut self, id: &SystemId, resources: &ResourceMap<V>);

    /// Poll a launched background system: `None` while it still runs, its
    /// outcome once it finished.
    fn poll_background(&mut self, id: &SystemId, resources: &ResourceMap<V>) -> Option<
        RunOutcome<V>,
    >;
}

} // verus!
