//! Stored systems: a registered callable's bookkeeping shell.
//!
//! The callable itself lives outside the scheduler core, behind a
//! [`crate::runner::SystemRunner`]; what is stored here is everything the
//! scheduler decides with: the wake-up rule, the cached access
//! declarations, the ordering, the flags, and the status. The `system`
//! slot tracks whether the callable is currently held by the store -- it is
//! absent exactly while the system runs.

use vstd::prelude::*;

use crate::access::Accesses;
use crate::events::CurrentEvents;
use crate::id::{spec_phase_marker, SchedulerEvent};
use crate::ordering::SchedulerOrdering;
use crate::phase::Phase;

verus! {

broadcast use vstd::seq_lib::group_seq_properties;

/// The lifecycle of a system within one tick. Valid transitions:
/// `Init` to `Executing`, `Executing` to `Executed` or `Pending`,
/// `Pending` to `Executed`.
#[derive(Debug, PartialEq, Eq, Structural, Clone, Copy)]
pub enum SystemStatus {
    Init,
    Executing,
    Pending,
    Executed,
}

/// Per-system behaviour flags.
#[derive(Debug, PartialEq, Eq, Structural, Clone, Copy, Hash)]
pub enum SystemFlag {
    /// Foreground only.
    Blocking,
    /// Background only; mutually exclusive with `Blocking`.
    NonBlocking,
    /// A criteria failure panics instead of skipping.
    HasRequirements,
    /// A blacklist block panics instead of skipping.
    NotBlacklisted,
}

/// A wake-up rule over the current event set, as data.
#[derive(Debug, Clone)]
pub enum WakeRule {
    /// Wakes every tick.
    Always,
    /// Never wakes on its own; useful for systems driven purely by phase.
    Never,
    /// Wakes when the given event is visible.
    OnEvent(SchedulerEvent),
    /// Wakes when at least one of the listed events is visible.
    AnyOf(Vec<SchedulerEvent>),
    /// Wakes when every listed event is visible.
    AllOf(Vec<SchedulerEvent>),
}

impl WakeRule {
    pub open spec fn spec_matches(self, events: Set<SchedulerEvent>) -> bool {
        match self {
            WakeRule::Always => true,
            WakeRule::Never => false,
            WakeRule::OnEvent(e) => events.contains(e),
            WakeRule::AnyOf(list) => exists|i: int|
                0 <= i < list@.len() && events.contains(#[trigger] list@[i]),
            WakeRule::AllOf(list) => forall|i: int|
                0 <= i < list@.len() ==> events.contains(#[trigger] list@[i]),
        }
    }

    pub fn matches(&self, events: &CurrentEvents) -> (r: bool)
        ensures
            r == self.spec_matches(events@),
    {
        match self {
            WakeRule::Always => true,
            WakeRule::Never => false,
            WakeRule::OnEvent(e) => events.contains(e),
            WakeRule::AnyOf(list) => any_event_visible(events, list),
            WakeRule::AllOf(list) => all_events_visible(events, list),
        }
    }
}

/// Whether at least one listed event is visible.
fn any_event_visible(events: &CurrentEvents, list: &Vec<SchedulerEvent>) -> (r: bool)
    ensures
        r == exists|i: int| 0 <= i < list@.len() && events@.contains(#[trigger] list@[i]),
{
    let n = list.len();
    for i in 0..n
        invariant
            n == list@.len(),
            forall|j: int| 0 <= j < i ==> !events@.contains(#[trigger] list@[j]),
    {
        if events.contains(&list[i]) {
            proof {
                assert(events@.contains(list@[i as int]));
            }
            return true;
        }
    }
    false
}

/// Whether every listed event is visible.
fn all_events_visible(events: &CurrentEvents, list: &Vec<SchedulerEvent>) -> (r: bool)
    ensures
        r == forall|i: int| 0 <= i < list@.len() ==> events@.contains(#[trigger] list@[i]),
{
    let n = list.len();
    for i in 0..n
        invariant
            n == list@.len(),
            forall|j: int| 0 <= j < i ==> events@.contains(#[trigger] list@[j]),
    {
        if !events.contains(&list[i]) {
            proof {
                assert(!events@.contains(list@[i as int]));
            }
            return false;
        }
    }
    true
}

/// A system's effective wake-up predicate: its own rule, and, when the
/// system is pinned to a phase, that phase's marker must be visible too.
#[derive(Debug, Clone)]
pub struct Criteria {
    pub rule: WakeRule,
    pub phase: Option<Phase>,
}

impl Criteria {
    pub open spec fn spec_wakes(self, events: Set<SchedulerEvent>) -> bool {
        self.rule.spec_matches(events) && match self.phase {
            Some(p) => events.contains(spec_phase_marker(p)),
            None => true,
        }
    }

    pub fn wakes(&self, events: &CurrentEvents) -> (r: bool)
        ensures
            r == self.spec_wakes(events@),
    {
        if !self.rule.matches(events) {
            return false;
        }
        match &self.phase {
            Some(p) => events.contains(&crate::id::phase_marker(p)),
            None => true,
        }
    }
}

/// The stored callable's shape: whether it is synchronous, what it
/// declares to access, and whether it needs its private resource store.
#[derive(Debug, Clone)]
pub enum InnerStoredSystem {
    Sync { accesses: Accesses, needs_system_resource: bool },
    Async { accesses: Accesses, needs_system_resource: bool },
}

impl InnerStoredSystem {
    pub open spec fn spec_accesses(&self) -> Accesses {
        match self {
            InnerStoredSystem::Sync { accesses, .. } => *accesses,
            InnerStoredSystem::Async { accesses, .. } => *accesses,
        }
    }

    pub open spec fn spec_needs_system_resource(&self) -> bool {
        match self {
            InnerStoredSystem::Sync { needs_system_resource, .. } => *needs_system_resource,
            InnerStoredSystem::Async { needs_system_resource, .. } => *needs_system_resource,
        }
    }

    pub open spec fn wf(&self) -> bool {
        self.spec_accesses().wf()
    }

    pub fn stringify_system_kind(&self) -> (r: String)
        ensures
            (self is Sync ==> r@ == "Sync"@) && (self is Async ==> r@ == "Async"@),
    {
        match self {
            InnerStoredSystem::Sync { .. } => "Sync".to_owned(),
            InnerStoredSystem::Async { .. } => "Async".to_owned(),
        }
    }

    pub fn new_sync(accesses: Accesses, needs_system_resource: bool) -> (r: InnerStoredSystem)
        ensures
            r == (InnerStoredSystem::Sync { accesses, needs_system_resource }),
    {
        InnerStoredSystem::Sync { accesses, needs_system_resource }
    }

    pub fn new_async(accesses: Accesses, needs_system_resource: bool) -> (r: InnerStoredSystem)
        ensures
            r == (InnerStoredSystem::Async { accesses, needs_system_resource }),
    {
        InnerStoredSystem::Async { accesses, needs_system_resource }
    }

    pub fn accesses(&self) -> (r: &Accesses)
        ensures
            r == self.spec_accesses(),
    {
        match self {
            InnerStoredSystem::Sync { accesses, .. } => accesses,
            InnerStoredSystem::Async { accesses, .. } => accesses,
        }
    }

    pub fn needs_system_resource(&self) -> (r: bool)
        ensures
            r == self.spec_needs_system_resource(),
    {
        match self {
            InnerStoredSystem::Sync { needs_system_resource, .. } => *needs_system_resource,
            InnerStoredSystem::Async { needs_system_resource, .. } => *needs_system_resource,
        }
    }

    /// Whether the scheduler-global store owns every resource type this
    /// system's declarations name.
    pub fn criteria(&self, owned_resources: &Vec<u64>) -> (r: bool)
        requires
            self.wf(),
        ensures
            r == forall|t: u64|
                #[trigger] self.spec_accesses().spec_scheduler()@.dom().contains(t)
                    ==> owned_resources@.contains(t),
    {
        self.accesses().criteria(owned_resources)
    }
}

/// `a` and `b` agree on every observable field.
pub open spec fn spec_same_system(a: StoredSystem, b: StoredSystem) -> bool {
    &&& b.spec_system() == a.spec_system()
    &&& b.spec_criteria() == a.spec_criteria()
    &&& b.spec_display_name() == a.spec_display_name()
    &&& b.spec_ordering() == a.spec_ordering()
    &&& b.spec_flags() == a.spec_flags()
    &&& b.spec_accesses() == a.spec_accesses()
    &&& b.spec_needs_system_resource() == a.spec_needs_system_resource()
    &&& b.spec_status() == a.spec_status()
}

/// `a` and `b` agree on every field that survives a run: the wake rule,
/// name, ordering, flags, accesses, and the private-store need. The
/// callable slot and the status are left free.
pub open spec fn spec_executed_variant_fields(a: StoredSystem, b: StoredSystem) -> bool {
    &&& b.spec_criteria() == a.spec_criteria()
    &&& b.spec_display_name() == a.spec_display_name()
    &&& b.spec_ordering() == a.spec_ordering()
    &&& b.spec_flags() == a.spec_flags()
    &&& b.spec_accesses() == a.spec_accesses()
    &&& b.spec_needs_system_resource() == a.spec_needs_system_resource()
}

/// `b` is `a` after a completed run: every field kept, the callable slot
/// restored, only the status moved to `Executed`.
pub open spec fn spec_executed_variant(a: StoredSystem, b: StoredSystem) -> bool {
    &&& b.spec_system() == a.spec_system()
    &&& b.spec_criteria() == a.spec_criteria()
    &&& b.spec_display_name() == a.spec_display_name()
    &&& b.spec_ordering() == a.spec_ordering()
    &&& b.spec_flags() == a.spec_flags()
    &&& b.spec_accesses() == a.spec_accesses()
    &&& b.spec_needs_system_resource() == a.spec_needs_system_resource()
    &&& b.spec_status() == SystemStatus::Executed
}

/// A registered system with its bookkeeping.
#[derive(Debug)]
pub struct StoredSystem {
    system: Option<InnerStoredSystem>,
    wake_up_criteria: Criteria,
    display_name: String,
    ordering: SchedulerOrdering,
    status: SystemStatus,
    flags: Vec<SystemFlag>,
    cached_accesses: Accesses,
    needs_system_resource: bool,
}

impl StoredSystem {
    pub closed spec fn spec_system(&self) -> Option<InnerStoredSystem> {
        self.system
    }

    pub closed spec fn spec_criteria(&self) -> Criteria {
        self.wake_up_criteria
    }

    pub closed spec fn spec_display_name(&self) -> Seq<char> {
        self.display_name@
    }

    pub closed spec fn spec_ordering(&self) -> SchedulerOrdering {
        self.ordering
    }

    pub closed spec fn spec_status(&self) -> SystemStatus {
        self.status
    }

    pub closed spec fn spec_flags(&self) -> Seq<SystemFlag> {
        self.flags@
    }

    pub closed spec fn spec_accesses(&self) -> Accesses {
        self.cached_accesses
    }

    pub closed spec fn spec_needs_system_resource(&self) -> bool {
        self.needs_system_resource
    }

    pub open spec fn wf(&self) -> bool {
        &&& self.spec_accesses().wf()
        &&& self.spec_ordering().wf()
    }

    /// The callable slot is filled exactly while the system is at rest:
    /// in status `Init` or `Executed`.
    pub open spec fn status_consistent(&self) -> bool {
        self.spec_system() is Some <==> (self.spec_status() == SystemStatus::Init
            || self.spec_status() == SystemStatus::Executed)
    }

    pub fn new(
        system: InnerStoredSystem,
        wake_up_criteria: Criteria,
        display_name: String,
        ordering: SchedulerOrdering,
        flags: Vec<SystemFlag>,
    ) -> (r: StoredSystem)
        requires
            system.wf(),
            ordering.wf(),
        ensures
            r.wf(),
            r.status_consistent(),
            r.spec_system() == Some(system),
            r.spec_criteria() == wake_up_criteria,
            r.spec_display_name() == display_name@,
            r.spec_ordering() == ordering,
            r.spec_status() == SystemStatus::Init,
            r.spec_flags() == flags@,
            r.spec_accesses().same_as(&system.spec_accesses()),
            r.spec_needs_system_resource() == system.spec_needs_system_resource(),
    {
        let cached_accesses = system.accesses().clone();
        let needs_system_resource = system.needs_system_resource();
        StoredSystem {
            system: Some(system),
            wake_up_criteria,
            display_name,
            ordering,
            status: SystemStatus::Init,
            flags,
            cached_accesses,
            needs_system_resource,
        }
    }

    /// Whether the wake-up rule matches the visible events.
    pub fn wake_up(&self, events: &CurrentEvents) -> (r: bool)
        ensures
            r == self.spec_criteria().spec_wakes(events@),
    {
        self.wake_up_criteria.wakes(events)
    }

    /// Whether the global store owns every resource type this system needs.
    pub fn test_criteria(&self, resources: &Vec<u64>) -> (r: bool)
        requires
            self.wf(),
        ensures
            r == forall|t: u64|
                #[trigger] self.spec_accesses().spec_scheduler()@.dom().contains(t)
                    ==> resources@.contains(t),
    {
        self.cached_accesses.criteria(resources)
    }

    /// Take the callable out; the slot empties.
    pub fn take_system(&mut self) -> (r: Option<InnerStoredSystem>)
        ensures
            r == old(self).spec_system(),
            final(self).spec_system() is None,
            final(self).spec_criteria() == old(self).spec_criteria(),
            final(self).spec_display_name() == old(self).spec_display_name(),
            final(self).spec_ordering() == old(self).spec_ordering(),
            final(self).spec_status() == old(self).spec_status(),
            final(self).spec_flags() == old(self).spec_flags(),
            final(self).spec_accesses() == old(self).spec_accesses(),
            final(self).spec_needs_system_resource() == old(self).spec_needs_system_resource(),
            old(self).wf() ==> final(self).wf(),
    {
        self.system.take()
    }

    /// Put a callable back into the slot.
    pub fn insert_system(&mut self, system: InnerStoredSystem)
        ensures
            final(self).spec_system() == Some(system),
            final(self).spec_criteria() == old(self).spec_criteria(),
            final(self).spec_display_name() == old(self).spec_display_name(),
            final(self).spec_ordering() == old(self).spec_ordering(),
            final(self).spec_status() == old(self).spec_status(),
            final(self).spec_flags() == old(self).spec_flags(),
            final(self).spec_accesses() == old(self).spec_accesses(),
            final(self).spec_needs_system_resource() == old(self).spec_needs_system_resource(),
    {
        self.system = Some(system);
    }

    pub fn status(&self) -> (r: SystemStatus)
        ensures
            r == self.spec_status(),
    {
        self.status
    }

    /// Record a status change; the scheduler's phase code is responsible
    /// for making only the transitions the lifecycle allows.
    pub fn set_status(&mut self, status: SystemStatus)
        ensures
            final(self).spec_status() == status,
            final(self).spec_system() == old(self).spec_system(),
            final(self).spec_criteria() == old(self).spec_criteria(),
            final(self).spec_display_name() == old(self).spec_display_name(),
            final(self).spec_ordering() == old(self).spec_ordering(),
            final(self).spec_flags() == old(self).spec_flags(),
            final(self).spec_accesses() == old(self).spec_accesses(),
            final(self).spec_needs_system_resource() == old(self).spec_needs_system_resource(),
            old(self).wf() ==> final(self).wf(),
    {
        self.status = status;
    }

    pub fn display_name(&self) -> (r: &String)
        ensures
            r@ == self.spec_display_name(),
    {
        &self.display_name
    }

    pub fn ordering(&self) -> (r: &SchedulerOrdering)
        ensures
            r == self.spec_ordering(),
    {
        &self.ordering
    }

    pub fn cached_accesses(&self) -> (r: &Accesses)
        ensures
            r == self.spec_accesses(),
    {
        &self.cached_accesses
    }

    pub fn needs_system_resource(&self) -> (r: bool)
        ensures
            r == self.spec_needs_system_resource(),
    {
        self.needs_system_resource
    }

    pub fn has_flag(&self, flag: SystemFlag) -> (r: bool)
        ensures
            r == self.spec_flags().contains(flag),
    {
        let n = self.flags.len();
        for i in 0..n
            invariant
                n == self.flags@.len(),
                forall|j: int| 0 <= j < i ==> self.flags@[j] != flag,
        {
            if self.flags[i] == flag {
                return true;
            }
        }
        false
    }

    /// Whether this system belongs to the foreground candidate set: it is
    /// blocking, or carries neither the blocking nor the non-blocking flag.
    pub fn is_foreground(&self) -> (r: bool)
        ensures
            r == (self.spec_flags().contains(SystemFlag::Blocking) || !(self.spec_flags().contains(
                SystemFlag::Blocking,
            ) || self.spec_flags().contains(SystemFlag::NonBlocking))),
    {
        self.has_flag(SystemFlag::Blocking) || !self.has_flag(SystemFlag::NonBlocking)
    }
}

} // verus!
