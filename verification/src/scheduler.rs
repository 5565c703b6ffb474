//! The scheduler: state, registration surface, and the tick cycle.
//!
//! A scheduler owns the typed resource store, the registered systems, the
//! event and interrupt pools, the per-phase blacklists, and the background
//! reservation table. Each call to [`Scheduler::tick`] walks the seven
//! phases once; callables are reached through the caller's
//! [`SystemRunner`], so every guarantee stated here holds whatever the
//! registered bodies do.

use vstd::prelude::*;

use crate::access::{conflicting, Access, AccessMap, Accesses};
use crate::blacklist::{Blacklist, Blacklists};
use crate::events::{CurrentEvents, NewEvents};
use crate::graph::ExecutionGraph;
use crate::id::{hash_name, phase_marker, spec_phase_marker, Id, SchedulerEvent, SystemId};
use crate::interrupts::{CurrentInterrupts, NewInterrupts};
use crate::ordering::SchedulerOrdering;
use crate::phase::Phase;
use crate::reservations::Reservations;
use crate::resources::{NewResources, ResourceMap, SystemResource};
use crate::runner::{RunOutcome, SystemRunner};
use crate::system::{
    Criteria, InnerStoredSystem, StoredSystem, SystemFlag, SystemStatus, WakeRule,
};
use crate::tick::{tick_incrementor, CurrentTick, Lifetime, Tick};

verus! {

broadcast use vstd::seq_lib::group_seq_properties, vstd::std_specs::vec::axiom_spec_len;

/// Type tags reserved for the scheduler's own bookkeeping resources. User
/// resources use tags from [`FIRST_USER_TAG`] upward.
pub const TAG_BLACKLISTS: u64 = 1;

pub const TAG_CURRENT_TICK: u64 = 2;

pub const TAG_NEW_RESOURCES: u64 = 3;

pub const TAG_NEW_EVENTS: u64 = 4;

pub const TAG_CURRENT_EVENTS: u64 = 5;

pub const TAG_NEW_INTERRUPTS: u64 = 6;

pub const TAG_CURRENT_INTERRUPTS: u64 = 7;

pub const FIRST_USER_TAG: u64 = 8;

/// What one tick did: which systems ran, in order; which reported
/// failure (logged, non-fatal); which background systems were launched
/// and which were harvested.
#[derive(Debug)]
pub struct TickReport {
    pub executed: Vec<SystemId>,
    pub failed: Vec<SystemId>,
    pub background_started: Vec<SystemId>,
    pub background_finished: Vec<SystemId>,
}

/// A tick-driven, resource-injecting scheduler over user resources of
/// type `V`.
#[derive(Debug)]
pub struct Scheduler<V> {
    resources: ResourceMap<V>,
    system_resources: Vec<(SystemId, SystemResource<V>)>,
    systems: Vec<(SystemId, StoredSystem)>,
    bubbles: Vec<(Lifetime, SchedulerEvent, WakeRule)>,
    bubble_echoes: Vec<(Lifetime, (Lifetime, SchedulerEvent, WakeRule))>,
    catfishes: Vec<(SchedulerEvent, SchedulerEvent)>,
    default_systems: Vec<SystemId>,
    current_background_systems: Vec<(SystemId, InnerStoredSystem)>,
    background_accesses: Reservations,
    threads: usize,
    blacklists: Blacklists,
    current_tick: CurrentTick,
    new_resources: NewResources<V>,
    new_events: NewEvents,
    current_events: CurrentEvents,
    new_interrupts: NewInterrupts,
    current_interrupts: CurrentInterrupts,
}

impl<V> Scheduler<V> {
    pub closed spec fn spec_systems(&self) -> Seq<(SystemId, StoredSystem)> {
        self.systems@
    }

    pub closed spec fn spec_resources(&self) -> &ResourceMap<V> {
        &self.resources
    }

    pub closed spec fn spec_system_resources(&self) -> Seq<(SystemId, SystemResource<V>)> {
        self.system_resources@
    }

    pub closed spec fn spec_background(&self) -> Seq<(SystemId, InnerStoredSystem)> {
        self.current_background_systems@
    }

    pub closed spec fn spec_reservations(&self) -> &Reservations {
        &self.background_accesses
    }

    pub closed spec fn spec_blacklists(&self) -> &Blacklists {
        &self.blacklists
    }

    pub closed spec fn spec_current_tick(&self) -> CurrentTick {
        self.current_tick
    }

    pub closed spec fn spec_new_events(&self) -> Set<SchedulerEvent> {
        self.new_events@
    }

    pub closed spec fn spec_current_events(&self) -> Set<SchedulerEvent> {
        self.current_events@
    }

    pub closed spec fn spec_new_interrupts(&self) -> Set<SystemId> {
        self.new_interrupts@
    }

    pub closed spec fn spec_current_interrupts(&self) -> Set<SystemId> {
        self.current_interrupts@
    }

    pub closed spec fn spec_catfishes(&self) -> Seq<(SchedulerEvent, SchedulerEvent)> {
        self.catfishes@
    }

    pub closed spec fn spec_bubbles(&self) -> Seq<(Lifetime, SchedulerEvent, WakeRule)> {
        self.bubbles@
    }

    pub closed spec fn spec_bubble_echoes(&self) -> Seq<
        (Lifetime, (Lifetime, SchedulerEvent, WakeRule)),
    > {
        self.bubble_echoes@
    }

    pub closed spec fn spec_threads(&self) -> usize {
        self.threads
    }

    pub closed spec fn spec_default_systems(&self) -> Seq<SystemId> {
        self.default_systems@
    }

    pub closed spec fn spec_new_resources(&self) -> &NewResources<V> {
        &self.new_resources
    }

    /// The type tags the scheduler owns: its bookkeeping resources plus
    /// everything in the global store.
    pub open spec fn spec_owned_tags(&self) -> Set<u64> {
        self.spec_resources()@.dom().insert(TAG_BLACKLISTS).insert(TAG_CURRENT_TICK).insert(
            TAG_NEW_RESOURCES,
        ).insert(TAG_NEW_EVENTS).insert(TAG_CURRENT_EVENTS).insert(TAG_NEW_INTERRUPTS).insert(
            TAG_CURRENT_INTERRUPTS,
        )
    }

    /// The event and interrupt pools keep their set shape.
    pub closed spec fn spec_pools_wf(&self) -> bool {
        self.new_events.wf() && self.current_events.wf() && self.new_interrupts.wf()
            && self.current_interrupts.wf()
    }

    /// Whether a system is registered under this identifier.
    pub open spec fn spec_has_system(&self, id: SystemId) -> bool {
        exists|i: int|
            0 <= i < self.spec_systems().len() && (#[trigger] self.spec_systems()[i]).0 == id
    }

    pub open spec fn wf(&self) -> bool {
        &&& crate::tagmap::unique_keys(self.spec_systems())
        &&& forall|i: int|
            0 <= i < self.spec_systems().len() ==> (#[trigger] self.spec_systems()[i]).1.wf()
        &&& crate::tagmap::unique_keys(self.spec_system_resources())
        &&& forall|i: int|
            0 <= i < self.spec_system_resources().len() ==> (
            #[trigger] self.spec_system_resources()[i]).1.wf()
        &&& crate::tagmap::unique_keys(self.spec_background())
        &&& self.spec_reservations().wf()
        &&& self.spec_resources().wf()
        &&& self.spec_new_resources().wf()
        &&& self.spec_blacklists().wf()
        &&& self.spec_pools_wf()
        &&& self.spec_threads() >= 1
    }

    /// Between ticks every system is at rest: its callable slot is filled
    /// exactly when its status says so, and nothing is mid-run unless it
    /// runs in the background.
    pub open spec fn spec_at_rest(&self) -> bool {
        forall|i: int|
            0 <= i < self.spec_systems().len() ==> (#[trigger] self.spec_systems()[i]).1.status_consistent()
    }

    /// The identifier a display name registers under.
    pub open spec fn spec_id_for_name(name: Seq<char>) -> SystemId {
        SystemId(Id(crate::id::id_of(name)))
    }

    /// An empty scheduler: no systems, no user resources, empty pools,
    /// a worker pool of the given width.
    pub fn new_empty(threads: usize) -> (r: Scheduler<V>)
        requires
            threads >= 1,
        ensures
            r.wf(),
            r.spec_at_rest(),
            r.spec_systems() == Seq::<(SystemId, StoredSystem)>::empty(),
            r.spec_resources()@ == Map::<u64, V>::empty(),
            r.spec_current_tick().tick.0 == 0,
            r.spec_new_events() == Set::<SchedulerEvent>::empty(),
            r.spec_current_events() == Set::<SchedulerEvent>::empty(),
            r.spec_new_interrupts() == Set::<SystemId>::empty(),
            r.spec_current_interrupts() == Set::<SystemId>::empty(),
            r.spec_background() == Seq::<(SystemId, InnerStoredSystem)>::empty(),
            r.spec_reservations().spec_entries() == Seq::<(SystemId, AccessMap)>::empty(),
            r.spec_threads() == threads,
            r.spec_catfishes() == Seq::<(SchedulerEvent, SchedulerEvent)>::empty(),
            r.spec_bubbles() == Seq::<(Lifetime, SchedulerEvent, WakeRule)>::empty(),
            r.spec_default_systems() == Seq::<SystemId>::empty(),
            forall|p: Phase|
                (#[trigger] r.spec_blacklists().spec_for_phase(p)).spec_access_rules() == Seq::<
                    (Access, Lifetime),
                >::empty() && r.spec_blacklists().spec_for_phase(p).spec_typed_rules() == Seq::<
                    (u64, Access, Lifetime),
                >::empty(),
    {
        Scheduler {
            resources: ResourceMap::new(),
            system_resources: Vec::new(),
            systems: Vec::new(),
            bubbles: Vec::new(),
            bubble_echoes: Vec::new(),
            catfishes: Vec::new(),
            default_systems: Vec::new(),
            current_background_systems: Vec::new(),
            background_accesses: Reservations::new(),
            threads,
            blacklists: Blacklists::new(),
            current_tick: CurrentTick::default(),
            new_resources: NewResources::new(),
            new_events: NewEvents::new(),
            current_events: CurrentEvents::new(),
            new_interrupts: NewInterrupts::new(),
            current_interrupts: CurrentInterrupts::new(),
        }
    }

    /// The current tick counter value.
    pub fn current_tick(&self) -> (t: Tick)
        ensures
            t == self.spec_current_tick().tick,
    {
        self.current_tick.tick
    }

    /// Find a registered system's position.
    fn find_system(&self, id: &SystemId) -> (r: Option<usize>)
        ensures
            match r {
                Some(i) => i < self.spec_systems().len() && self.spec_systems()[i as int].0 == *id,
                None => !self.spec_has_system(*id),
            },
    {
        let n = self.systems.len();
        for i in 0..n
            invariant
                n == self.spec_systems().len(),
                forall|j: int| 0 <= j < i ==> (#[trigger] self.spec_systems()[j]).0 != *id,
        {
            if self.systems[i].0 == *id {
                return Some(i);
            }
        }
        None
    }

    /// Register a system under a display name. The returned identifier is
    /// the stable hash of the name; registering two names that collide
    /// under the hash replaces the earlier system, a documented hazard.
    /// When `phase` is given, the effective wake-up predicate also demands
    /// that phase's marker event.
    pub fn insert_system(
        &mut self,
        display_name: String,
        system: InnerStoredSystem,
        wake_up_criteria: WakeRule,
        ordering: SchedulerOrdering,
        flags: Vec<SystemFlag>,
        phase: Option<Phase>,
    ) -> (id: SystemId)
        requires
            old(self).wf(),
            system.wf(),
            ordering.wf(),
        ensures
            final(self).wf(),
            id == Self::spec_id_for_name(display_name@),
            final(self).spec_has_system(id),
            old(self).spec_at_rest() ==> final(self).spec_at_rest(),
            exists|i: int|
                0 <= i < final(self).spec_systems().len() && (#[trigger] final(self).spec_systems()[i]).0 == id && (final(self).spec_systems()[i].1.spec_criteria()
                    == (Criteria { rule: wake_up_criteria, phase })) && final(self).spec_systems()[i].1.spec_status() == SystemStatus::Init && final(self).spec_systems()[i].1.spec_accesses().same_as(&system.spec_accesses()) && final(self).spec_systems()[i].1.spec_ordering() == ordering && final(self).spec_systems()[i].1.spec_flags() == flags@,
            forall|other: SystemId|
                other != id ==> final(self).spec_has_system(other) == old(self).spec_has_system(
                    other,
                ),
            old(self).spec_systems().len() <= final(self).spec_systems().len() <= old(
                self,
            ).spec_systems().len() + 1,
            forall|j: int|
                0 <= j < old(self).spec_systems().len() && (#[trigger] old(
                    self,
                ).spec_systems()[j]).0 != id ==> final(self).spec_systems()[j] == old(
                    self,
                ).spec_systems()[j],
            final(self).spec_resources() == old(self).spec_resources(),
            final(self).spec_background() == old(self).spec_background(),
            final(self).spec_reservations() == old(self).spec_reservations(),
            final(self).spec_blacklists() == old(self).spec_blacklists(),
            final(self).spec_current_tick() == old(self).spec_current_tick(),
            final(self).spec_new_resources() == old(self).spec_new_resources(),
            final(self).spec_new_events() == old(self).spec_new_events(),
            final(self).spec_current_events() == old(self).spec_current_events(),
            final(self).spec_new_interrupts() == old(self).spec_new_interrupts(),
            final(self).spec_current_interrupts() == old(self).spec_current_interrupts(),
            final(self).spec_catfishes() == old(self).spec_catfishes(),
            final(self).spec_bubbles() == old(self).spec_bubbles(),
            final(self).spec_threads() == old(self).spec_threads(),
            final(self).spec_default_systems() == old(self).spec_default_systems(),
    {
        let system_id = SystemId(Id(hash_name(display_name.as_str())));
        let needs_private = system.needs_system_resource();
        let criteria = Criteria { rule: wake_up_criteria, phase };
        let stored = StoredSystem::new(system, criteria, display_name, ordering, flags);
        if needs_private {
            self.ensure_system_resource(&system_id);
        }
        let ghost pre = self.systems@;
        match self.find_system(&system_id) {
            Some(i) => {
                let slot = &mut self.systems[i];
                slot.1 = stored;
                proof {
                    assert forall|a: int, b: int|
                        0 <= a < b < self.systems@.len() implies (#[trigger] self.systems@[a]).0
                        != (#[trigger] self.systems@[b]).0 by {
                        assert(pre[a].0 == self.systems@[a].0);
                        assert(pre[b].0 == self.systems@[b].0);
                    }
                    assert(self.systems@[i as int].0 == system_id);
                    assert forall|j: int|
                        0 <= j < self.systems@.len() implies (
                    #[trigger] self.systems@[j]).1.wf() by {
                        if j != i {
                            assert(self.systems@[j] == pre[j]);
                        }
                    }
                }
            },
            None => {
                self.systems.push((system_id, stored));
                proof {
                    assert(self.systems@.drop_last() =~= pre);
                    assert(self.systems@.last().0 == system_id);
                    assert forall|a: int, b: int|
                        0 <= a < b < self.systems@.len() implies (#[trigger] self.systems@[a]).0
                        != (#[trigger] self.systems@[b]).0 by {
                        if b == self.systems@.len() - 1 {
                            assert(pre[a].0 != system_id);
                        }
                    }
                }
            },
        }
        proof {
            assert(self.spec_systems()[choose|i: int|
                0 <= i < self.spec_systems().len() && (#[trigger] self.spec_systems()[i]).0
                    == system_id].0 == system_id);
            assert forall|other: SystemId|
                other != system_id implies self.spec_has_system(other) == old(
                self,
            ).spec_has_system(other) by {
                if self.spec_has_system(other) {
                    let j = choose|j: int|
                        0 <= j < self.spec_systems().len() && (#[trigger] self.spec_systems()[j]).0
                            == other;
                    assert(pre[j].0 == other);
                }
                if old(self).spec_has_system(other) {
                    let j = choose|j: int|
                        0 <= j < pre.len() && (#[trigger] pre[j]).0 == other;
                    assert(self.spec_systems()[j].0 == other);
                }
            }
        }
        system_id
    }

    /// The perpetual lifetime the default blacklist rules carry.
    pub open spec fn spec_default_rule_life() -> Lifetime {
        Lifetime { start: Tick(0), age: Tick(0), expected_age: None }
    }

    /// The default protection rules: no unique access to the bookkeeping
    /// stores from any phase; during background start no unique access at
    /// all and no shared access to the blacklists; no unique access to the
    /// tick counter while `Processing` or `PostProcessing` runs.
    pub open spec fn spec_default_rules_installed(&self) -> bool {
        let life = Self::spec_default_rule_life();
        &&& forall|p: Phase|
            {
                let rules = (#[trigger] self.spec_blacklists().spec_for_phase(p)).spec_typed_rules();
                rules.contains((TAG_NEW_RESOURCES, Access::Unique, life)) && rules.contains(
                    (TAG_CURRENT_EVENTS, Access::Unique, life),
                ) && rules.contains((TAG_CURRENT_INTERRUPTS, Access::Unique, life))
                    && rules.contains((TAG_BLACKLISTS, Access::Unique, life))
            }
        &&& self.spec_blacklists().spec_for_phase(
            Phase::BackgroundStart,
        ).spec_access_rules().contains((Access::Unique, life))
        &&& self.spec_blacklists().spec_for_phase(
            Phase::BackgroundStart,
        ).spec_typed_rules().contains((TAG_BLACKLISTS, Access::Shared, life))
        &&& self.spec_blacklists().spec_for_phase(Phase::Processing).spec_typed_rules().contains(
            (TAG_CURRENT_TICK, Access::Unique, life),
        )
        &&& self.spec_blacklists().spec_for_phase(
            Phase::PostProcessing,
        ).spec_typed_rules().contains((TAG_CURRENT_TICK, Access::Unique, life))
    }

    /// A scheduler with its default bookkeeping installed: the built-in
    /// tick incrementor registered on the `PreProcessing` phase, and the
    /// default blacklist rules protecting the bookkeeping stores.
    #[verifier::rlimit(100)]
    pub fn new(threads: usize) -> (r: Scheduler<V>)
        requires
            threads >= 1,
        ensures
            r.wf(),
            r.spec_at_rest(),
            r.spec_threads() == threads,
            r.spec_current_tick().tick.0 == 0,
            r.spec_default_rules_installed(),
            r.spec_default_systems().len() == 1,
            r.spec_has_system(r.spec_default_systems()[0]),
            r.spec_default_systems()[0] == Self::spec_id_for_name("Standard Tick Accumulator"@),
            exists|i: int|
                0 <= i < r.spec_systems().len() && (#[trigger] r.spec_systems()[i]).0
                    == r.spec_default_systems()[0] && (r.spec_systems()[i].1.spec_criteria()
                    == (Criteria { rule: WakeRule::Always, phase: Some(Phase::PreProcessing) }))
                    && r.spec_systems()[i].1.spec_accesses().spec_scheduler()@ == Map::<
                    u64,
                    Access,
                >::empty().insert(TAG_CURRENT_TICK, Access::Unique)
                    && r.spec_systems()[i].1.spec_accesses().spec_system()@ == Map::<
                    u64,
                    Access,
                >::empty() && r.spec_systems()[i].1.spec_ordering().before@ == Seq::<
                    SystemId,
                >::empty() && r.spec_systems()[i].1.spec_ordering().after@ == Seq::<
                    SystemId,
                >::empty() && r.spec_systems()[i].1.spec_flags() == Seq::<SystemFlag>::empty()
                    && r.spec_systems()[i].1.spec_status() == SystemStatus::Init,
            r.spec_new_events() == Set::<SchedulerEvent>::empty(),
            r.spec_current_events() == Set::<SchedulerEvent>::empty(),
            r.spec_new_interrupts() == Set::<SystemId>::empty(),
            r.spec_current_interrupts() == Set::<SystemId>::empty(),
            r.spec_background() == Seq::<(SystemId, InnerStoredSystem)>::empty(),
            r.spec_reservations().spec_entries() == Seq::<(SystemId, AccessMap)>::empty(),
            r.spec_resources()@ == Map::<u64, V>::empty(),
    {
        let mut scheduler = Scheduler::<V>::new_empty(threads);
        let life = Lifetime::new_perpetual(Tick(0));
        let phases = Phase::all();
        let m = phases.len();
        for i in 0..m
            invariant
                m == phases@.len(),
                m == crate::phase::PHASE_COUNT,
                forall|j: int| 0 <= j < m ==> (#[trigger] phases@[j]).spec_index() == j,
                forall|j: int| 0 <= j < m ==> phases@[j] == #[trigger] Phase::spec_from_index(j),
                scheduler.wf(),
                scheduler.spec_at_rest(),
                scheduler.spec_threads() == threads,
                scheduler.spec_current_tick().tick.0 == 0,
                scheduler.spec_default_systems().len() == 0,
                scheduler.spec_new_events() == Set::<SchedulerEvent>::empty(),
                scheduler.spec_current_events() == Set::<SchedulerEvent>::empty(),
                scheduler.spec_new_interrupts() == Set::<SystemId>::empty(),
                scheduler.spec_current_interrupts() == Set::<SystemId>::empty(),
                scheduler.spec_background() == Seq::<(SystemId, InnerStoredSystem)>::empty(),
                scheduler.spec_reservations().spec_entries() == Seq::<
                    (SystemId, AccessMap),
                >::empty(),
                scheduler.spec_resources()@ == Map::<u64, V>::empty(),
                life == Self::spec_default_rule_life(),
                forall|j: int|
                    0 <= j < i ==> {
                        let rules = (#[trigger] scheduler.spec_blacklists().spec_lists()[j]).spec_typed_rules();
                        rules.contains((TAG_NEW_RESOURCES, Access::Unique, life)) && rules.contains(
                            (TAG_CURRENT_EVENTS, Access::Unique, life),
                        ) && rules.contains((TAG_CURRENT_INTERRUPTS, Access::Unique, life))
                            && rules.contains((TAG_BLACKLISTS, Access::Unique, life))
                    },
        {
            let ghost lists_before = scheduler.spec_blacklists().spec_lists();
            let phase = phases[i];
            let list = scheduler.blacklists.get_mut(phase);
            list.insert_typed_blacklist(TAG_NEW_RESOURCES, Access::Unique, life);
            list.insert_typed_blacklist(TAG_CURRENT_EVENTS, Access::Unique, life);
            list.insert_typed_blacklist(TAG_CURRENT_INTERRUPTS, Access::Unique, life);
            list.insert_typed_blacklist(TAG_BLACKLISTS, Access::Unique, life);
            proof {
                assert(phase.spec_index() == i as int);
                assert forall|j: int|
                    0 <= j < i + 1 implies {
                    let rules = (
                    #[trigger] scheduler.spec_blacklists().spec_lists()[j]).spec_typed_rules();
                    rules.contains((TAG_NEW_RESOURCES, Access::Unique, life)) && rules.contains(
                        (TAG_CURRENT_EVENTS, Access::Unique, life),
                    ) && rules.contains((TAG_CURRENT_INTERRUPTS, Access::Unique, life))
                        && rules.contains((TAG_BLACKLISTS, Access::Unique, life))
                } by {
                    if j < i {
                        assert(scheduler.spec_blacklists().spec_lists()[j] == lists_before[j]);
                    } else {
                        let rules = scheduler.spec_blacklists().spec_lists()[j].spec_typed_rules();
                        assert(rules[rules.len() - 4] == (TAG_NEW_RESOURCES, Access::Unique, life));
                        assert(rules[rules.len() - 3] == (TAG_CURRENT_EVENTS, Access::Unique, life));
                        assert(rules[rules.len() - 2] == (
                            TAG_CURRENT_INTERRUPTS,
                            Access::Unique,
                            life,
                        ));
                        assert(rules[rules.len() - 1] == (TAG_BLACKLISTS, Access::Unique, life));
                    }
                }
            }
        }
        let ghost lists_a = scheduler.spec_blacklists().spec_lists();
        let background = scheduler.blacklists.get_mut(Phase::BackgroundStart);
        background.insert_access_blacklist(Access::Unique, life);
        background.insert_typed_blacklist(TAG_BLACKLISTS, Access::Shared, life);
        let ghost lists_b = scheduler.spec_blacklists().spec_lists();
        let executing = scheduler.blacklists.get_mut(Phase::Processing);
        executing.insert_typed_blacklist(TAG_CURRENT_TICK, Access::Unique, life);
        let ghost lists_c = scheduler.spec_blacklists().spec_lists();
        let finishing = scheduler.blacklists.get_mut(Phase::PostProcessing);
        finishing.insert_typed_blacklist(TAG_CURRENT_TICK, Access::Unique, life);
        proof {
            let lists_d = scheduler.spec_blacklists().spec_lists();
            assert(lists_b == lists_a.update(
                Phase::BackgroundStart.spec_index(),
                lists_b[Phase::BackgroundStart.spec_index()],
            ));
            assert forall|p: Phase|
                {
                    let rules = (#[trigger] scheduler.spec_blacklists().spec_for_phase(
                        p,
                    )).spec_typed_rules();
                    rules.contains((TAG_NEW_RESOURCES, Access::Unique, life)) && rules.contains(
                        (TAG_CURRENT_EVENTS, Access::Unique, life),
                    ) && rules.contains((TAG_CURRENT_INTERRUPTS, Access::Unique, life))
                        && rules.contains((TAG_BLACKLISTS, Access::Unique, life))
                } by {
                let j = p.spec_index();
                let base = lists_a[j].spec_typed_rules();
                assert(base.contains((TAG_NEW_RESOURCES, Access::Unique, life)));
                assert(lists_d[j].spec_typed_rules() == base || lists_d[j].spec_typed_rules()
                    == base.push((TAG_BLACKLISTS, Access::Shared, life)) || lists_d[j].spec_typed_rules()
                    == base.push((TAG_CURRENT_TICK, Access::Unique, life)));
            }
            assert(scheduler.spec_blacklists().spec_for_phase(
                Phase::BackgroundStart,
            ).spec_access_rules().contains((Access::Unique, life))) by {
                let rules = scheduler.spec_blacklists().spec_for_phase(
                    Phase::BackgroundStart,
                ).spec_access_rules();
                assert(rules[rules.len() - 1] == (Access::Unique, life));
            }
            assert(scheduler.spec_blacklists().spec_for_phase(
                Phase::BackgroundStart,
            ).spec_typed_rules().contains((TAG_BLACKLISTS, Access::Shared, life))) by {
                let rules = scheduler.spec_blacklists().spec_for_phase(
                    Phase::BackgroundStart,
                ).spec_typed_rules();
                assert(rules[rules.len() - 1] == (TAG_BLACKLISTS, Access::Shared, life));
            }
            assert(scheduler.spec_blacklists().spec_for_phase(
                Phase::Processing,
            ).spec_typed_rules().contains((TAG_CURRENT_TICK, Access::Unique, life))) by {
                let rules = scheduler.spec_blacklists().spec_for_phase(
                    Phase::Processing,
                ).spec_typed_rules();
                assert(rules[rules.len() - 1] == (TAG_CURRENT_TICK, Access::Unique, life));
            }
            assert(scheduler.spec_blacklists().spec_for_phase(
                Phase::PostProcessing,
            ).spec_typed_rules().contains((TAG_CURRENT_TICK, Access::Unique, life))) by {
                let rules = scheduler.spec_blacklists().spec_for_phase(
                    Phase::PostProcessing,
                ).spec_typed_rules();
                assert(rules[rules.len() - 1] == (TAG_CURRENT_TICK, Access::Unique, life));
            }
        }
        let mut tick_access = AccessMap::new();
        tick_access.declare(TAG_CURRENT_TICK, Access::Unique);
        let accesses = Accesses::new(tick_access, AccessMap::new());
        let ghost acc_g = accesses;
        let base_ordering = SchedulerOrdering::new();
        let ghost base_ord = base_ordering;
        let no_flags: Vec<SystemFlag> = Vec::new();
        let ghost no_flags_view = no_flags@;
        let tick_system = InnerStoredSystem::new_sync(accesses, false);
        let ghost tick_system_g = tick_system;
        let tick_id = scheduler.insert_system(
            "Standard Tick Accumulator".to_owned(),
            tick_system,
            WakeRule::Always,
            base_ordering,
            no_flags,
            Some(Phase::PreProcessing),
        );
        let ghost sys_before = scheduler.spec_systems();
        scheduler.default_systems.push(tick_id);
        proof {
            assert(scheduler.spec_default_systems() =~= Seq::<SystemId>::empty().push(tick_id));
            assert(scheduler.spec_default_systems()[0] == tick_id);
            assert(scheduler.spec_systems() == sys_before);
            let i = choose|i: int|
                0 <= i < sys_before.len() && (#[trigger] sys_before[i]).0 == tick_id && (
                sys_before[i].1.spec_criteria() == (Criteria {
                    rule: WakeRule::Always,
                    phase: Some(Phase::PreProcessing),
                })) && sys_before[i].1.spec_status() == SystemStatus::Init
                    && sys_before[i].1.spec_accesses().same_as(&tick_system_g.spec_accesses())
                    && sys_before[i].1.spec_ordering() == base_ord
                    && sys_before[i].1.spec_flags() == no_flags_view;
            assert(tick_system_g.spec_accesses() == acc_g);
            assert(sys_before[i].1.spec_accesses().same_as(&acc_g));
            assert(scheduler.spec_systems()[i].0 == tick_id);
            scheduler.spec_systems()[i].1.spec_accesses().spec_scheduler().lemma_entries();
            acc_g.spec_scheduler().lemma_entries();
            assert(scheduler.spec_systems()[i].1.spec_accesses().spec_scheduler()@
                == acc_g.spec_scheduler()@);
            assert(acc_g.spec_scheduler()@ == Map::<u64, Access>::empty().insert(
                TAG_CURRENT_TICK,
                Access::Unique,
            ));
            scheduler.spec_systems()[i].1.spec_accesses().spec_system().lemma_entries();
            acc_g.spec_system().lemma_entries();
            assert(scheduler.spec_systems()[i].1.spec_accesses().spec_system()@
                == acc_g.spec_system()@);
            assert(scheduler.spec_systems()[i].1.spec_accesses().spec_system()@ == Map::<
                u64,
                Access,
            >::empty());
            assert(scheduler.spec_systems()[i].1.spec_ordering().before@ == Seq::<
                SystemId,
            >::empty());
            assert(scheduler.spec_systems()[i].1.spec_ordering().after@ == Seq::<
                SystemId,
            >::empty());
            assert(scheduler.spec_systems()[i].1.spec_flags() == Seq::<SystemFlag>::empty());
            assert(exists|i2: int|
                0 <= i2 < scheduler.spec_systems().len() && (
                #[trigger] scheduler.spec_systems()[i2]).0 == scheduler.spec_default_systems()[0]
                    && (scheduler.spec_systems()[i2].1.spec_criteria() == (Criteria {
                    rule: WakeRule::Always,
                    phase: Some(Phase::PreProcessing),
                })) && scheduler.spec_systems()[i2].1.spec_accesses().spec_scheduler()@ == Map::<
                    u64,
                    Access,
                >::empty().insert(TAG_CURRENT_TICK, Access::Unique)
                    && scheduler.spec_systems()[i2].1.spec_accesses().spec_system()@ == Map::<
                    u64,
                    Access,
                >::empty() && scheduler.spec_systems()[i2].1.spec_ordering().before@ == Seq::<
                    SystemId,
                >::empty() && scheduler.spec_systems()[i2].1.spec_ordering().after@ == Seq::<
                    SystemId,
                >::empty() && scheduler.spec_systems()[i2].1.spec_flags() == Seq::<
                    SystemFlag,
                >::empty() && scheduler.spec_systems()[i2].1.spec_status()
                    == SystemStatus::Init);
        }
        scheduler
    }

    /// Make sure a private resource store exists for a system.
    fn ensure_system_resource(&mut self, id: &SystemId)
        requires
            old(self).wf(),
        ensures
            final(self).wf(),
            final(self).systems@ == old(self).systems@,
            final(self).resources == old(self).resources,
            final(self).bubbles@ == old(self).bubbles@,
            final(self).catfishes@ == old(self).catfishes@,
            final(self).default_systems@ == old(self).default_systems@,
            final(self).current_background_systems@ == old(self).current_background_systems@,
            final(self).background_accesses == old(self).background_accesses,
            final(self).threads == old(self).threads,
            final(self).blacklists == old(self).blacklists,
            final(self).current_tick == old(self).current_tick,
            final(self).new_resources == old(self).new_resources,
            final(self).new_events == old(self).new_events,
            final(self).current_events == old(self).current_events,
            final(self).new_interrupts == old(self).new_interrupts,
            final(self).current_interrupts == old(self).current_interrupts,
    {
        let n = self.system_resources.len();
        for i in 0..n
            invariant
                n == self.system_resources@.len(),
                *self == *old(self),
                self.wf(),
                forall|j: int| 0 <= j < i ==> (#[trigger] self.system_resources@[j]).0 != *id,
        {
            if self.system_resources[i].0 == *id {
                return ;
            }
        }
        let ghost pre = self.system_resources@;
        self.system_resources.push((*id, SystemResource::new()));
        proof {
            assert(self.system_resources@.drop_last() =~= pre);
            assert forall|a: int, b: int|
                0 <= a < b < self.system_resources@.len() implies (
            #[trigger] self.system_resources@[a]).0 != (#[trigger] self.system_resources@[b]).0 by {
                if b == self.system_resources@.len() - 1 {
                    assert(pre[a].0 != *id);
                }
            }
        }
    }

    /// A bubble that lives one tick: when its rule fires, an event named
    /// after it is posted, but no code runs.
    pub fn insert_bubble(&mut self, display_name: String, wake_up_criteria: WakeRule)
        requires
            old(self).wf(),
        ensures
            final(self).wf(),
            final(self).spec_bubbles().len() == old(self).spec_bubbles().len() + 1,
            final(self).spec_bubbles().last().1 == SchedulerEvent(
                Id(crate::id::id_of(display_name@)),
            ),
            final(self).spec_bubbles().last().2 == wake_up_criteria,
            forall|i: int|
                0 <= i < old(self).spec_bubbles().len() ==> final(self).spec_bubbles()[i] == old(
                    self,
                ).spec_bubbles()[i],
    {
        let lifetime = Lifetime::new(self.current_tick.tick, Tick(1));
        self.insert_bubble_column(lifetime, display_name, wake_up_criteria);
    }

    /// A bubble that lives for the given lifetime.
    pub fn insert_bubble_column(
        &mut self,
        lifetime: Lifetime,
        display_name: String,
        wake_up_criteria: WakeRule,
    )
        requires
            old(self).wf(),
        ensures
            final(self).wf(),
            final(self).spec_bubbles() == old(self).spec_bubbles().push(
                (lifetime, SchedulerEvent(Id(crate::id::id_of(display_name@))), wake_up_criteria),
            ),
    {
        let event = SchedulerEvent(Id(hash_name(display_name.as_str())));
        self.bubbles.push((lifetime, event, wake_up_criteria));
    }

    /// A bubble that first waits out an echo lifetime. The wait machinery
    /// is reserved; entries are recorded and not yet processed.
    pub fn insert_bubble_echo(
        &mut self,
        echo_lifetime: Lifetime,
        bubble_lifetime: Lifetime,
        display_name: String,
        wake_up_criteria: WakeRule,
    )
        requires
            old(self).wf(),
        ensures
            final(self).wf(),
            final(self).spec_bubbles() == old(self).spec_bubbles(),
            final(self).spec_bubble_echoes() == old(self).spec_bubble_echoes().push(
                (
                    echo_lifetime,
                    (
                        bubble_lifetime,
                        SchedulerEvent(Id(crate::id::id_of(display_name@))),
                        wake_up_criteria,
                    ),
                ),
            ),
    {
        let event = SchedulerEvent(Id(hash_name(display_name.as_str())));
        self.bubble_echoes.push((echo_lifetime, (bubble_lifetime, event, wake_up_criteria)));
    }

    /// Catfish an event: whenever `target_event` is observed in the
    /// current set at the start of a tick, `to_insert` is added as well.
    pub fn catfish(&mut self, target_event: SchedulerEvent, to_insert: SchedulerEvent)
        requires
            old(self).wf(),
        ensures
            final(self).wf(),
            final(self).spec_catfishes() == old(self).spec_catfishes().push(
                (target_event, to_insert),
            ),
    {
        self.catfishes.push((target_event, to_insert));
    }

    /// Post an event; it becomes visible to wake-up rules next tick.
    pub fn insert_new_event(&mut self, event: SchedulerEvent)
        requires
            old(self).wf(),
        ensures
            final(self).wf(),
            final(self).spec_new_events() == old(self).spec_new_events().insert(event),
            final(self).spec_current_events() == old(self).spec_current_events(),
    {
        let _ = self.new_events.insert(event);
    }

    /// Request that a system be skipped next tick. Asking again for the
    /// same system changes nothing.
    pub fn insert_interrupt(&mut self, system_id: SystemId)
        requires
            old(self).wf(),
        ensures
            final(self).wf(),
            final(self).spec_new_interrupts() == old(self).spec_new_interrupts().insert(
                system_id,
            ),
            final(self).spec_current_interrupts() == old(self).spec_current_interrupts(),
    {
        let _ = self.new_interrupts.insert(system_id);
    }

    /// Install a user resource directly, replacing and returning any value
    /// the tag already held. User tags start at [`FIRST_USER_TAG`]; the
    /// smaller tags name the scheduler's own bookkeeping stores.
    pub fn insert(&mut self, type_id: u64, resource: V) -> (r: Option<V>)
        requires
            old(self).wf(),
            type_id >= FIRST_USER_TAG,
        ensures
            final(self).wf(),
            final(self).spec_resources()@ == old(self).spec_resources()@.insert(
                type_id,
                resource,
            ),
            match r {
                Some(prev) => old(self).spec_resources()@.dom().contains(type_id) && old(
                    self,
                ).spec_resources()@[type_id] == prev,
                None => !old(self).spec_resources()@.dom().contains(type_id),
            },
    {
        self.resources.insert(type_id, resource)
    }

    /// An access-checked read view over the global store, honouring the
    /// background reservations, for reading scheduler state between ticks.
    pub fn resolve(&self) -> (r: crate::resources::AccessCheckedResourceMap<V>)
        ensures
            r.spec_map() == self.spec_resources(),
            r.spec_reservations() == self.spec_reservations(),
    {
        crate::resources::AccessCheckedResourceMap::new(
            &self.resources,
            &self.background_accesses,
        )
    }

    /// Read a copy of a user resource, unchecked against reservations;
    /// sound because nothing is borrowed.
    pub fn resolve_owned(&self, tag: u64) -> (r: Option<V>) where V: Copy
        requires
            self.wf(),
        ensures
            match r {
                Some(v) => self.spec_resources()@.dom().contains(tag) && self.spec_resources()@[tag]
                    == v,
                None => !self.spec_resources()@.dom().contains(tag),
            },
    {
        match self.resources.get(tag) {
            Some(v) => Some(*v),
            None => None,
        }
    }

    /// The tags the scheduler owns, bookkeeping stores included.
    fn owned_keys(&self) -> (keys: Vec<u64>)
        requires
            self.wf(),
        ensures
            forall|t: u64| keys@.contains(t) <==> self.spec_owned_tags().contains(t),
    {
        let mut keys = self.resources.keys();
        let ghost user = keys@;
        keys.push(TAG_BLACKLISTS);
        keys.push(TAG_CURRENT_TICK);
        keys.push(TAG_NEW_RESOURCES);
        keys.push(TAG_NEW_EVENTS);
        keys.push(TAG_CURRENT_EVENTS);
        keys.push(TAG_NEW_INTERRUPTS);
        keys.push(TAG_CURRENT_INTERRUPTS);
        proof {
            assert(keys@ =~= user + seq![
                TAG_BLACKLISTS,
                TAG_CURRENT_TICK,
                TAG_NEW_RESOURCES,
                TAG_NEW_EVENTS,
                TAG_CURRENT_EVENTS,
                TAG_NEW_INTERRUPTS,
                TAG_CURRENT_INTERRUPTS,
            ]);
            assert forall|t: u64| keys@.contains(t) implies self.spec_owned_tags().contains(
                t,
            ) by {
                let j = choose|j: int| 0 <= j < keys@.len() && keys@[j] == t;
                if j < user.len() {
                    assert(user[j] == t);
                    assert(user.contains(t));
                }
            }
            assert forall|t: u64| self.spec_owned_tags().contains(t) implies keys@.contains(
                t,
            ) by {
                if self.spec_resources()@.dom().contains(t) {
                    assert(user.contains(t));
                    let j = choose|j: int| 0 <= j < user.len() && (#[trigger] user[j]) == t;
                    assert(keys@[j] == t);
                } else {
                    if t == TAG_BLACKLISTS {
                        assert(keys@[user.len() as int] == t);
                    } else if t == TAG_CURRENT_TICK {
                        assert(keys@[user.len() as int + 1] == t);
                    } else if t == TAG_NEW_RESOURCES {
                        assert(keys@[user.len() as int + 2] == t);
                    } else if t == TAG_NEW_EVENTS {
                        assert(keys@[user.len() as int + 3] == t);
                    } else if t == TAG_CURRENT_INTERRUPTS {
                        assert(keys@[user.len() as int + 6] == t);
                    } else if t == TAG_NEW_INTERRUPTS {
                        assert(keys@[user.len() as int + 5] == t);
                    } else {
                        assert(keys@[user.len() as int + 4] == t);
                    }
                }
            }
        }
        keys
    }

    /// Whether the system at one position would be a foreground candidate
    /// for a phase with the given events visible: foreground-flagged, not
    /// interrupted, awake on those events, its resource demands owned, and
    /// not blacklisted.
    pub open spec fn spec_foreground_candidate_with_events(
        &self,
        phase: Phase,
        events: Set<SchedulerEvent>,
        i: int,
    ) -> bool {
        let entry = self.spec_systems()[i];
        &&& 0 <= i < self.spec_systems().len()
        &&& (entry.1.spec_flags().contains(SystemFlag::Blocking) || !(entry.1.spec_flags().contains(
            SystemFlag::Blocking,
        ) || entry.1.spec_flags().contains(SystemFlag::NonBlocking)))
        &&& !self.spec_current_interrupts().contains(entry.0)
        &&& entry.1.spec_criteria().spec_wakes(events)
        &&& (forall|t: u64|
            #[trigger] entry.1.spec_accesses().spec_scheduler()@.dom().contains(t)
                ==> self.spec_owned_tags().contains(t))
        &&& !self.spec_blacklists().spec_for_phase(phase).spec_blocked(
            entry.1.spec_accesses().spec_scheduler()@,
        )
    }

    /// Whether the system at one position is a foreground candidate for a
    /// phase, against the events currently visible.
    pub open spec fn spec_foreground_candidate(&self, phase: Phase, i: int) -> bool {
        self.spec_foreground_candidate_with_events(phase, self.spec_current_events(), i)
    }

    /// Whether the system at one position is a background candidate: as
    /// for the foreground, but only non-blocking systems qualify.
    pub open spec fn spec_background_candidate(&self, i: int) -> bool {
        let entry = self.spec_systems()[i];
        &&& 0 <= i < self.spec_systems().len()
        &&& entry.1.spec_flags().contains(SystemFlag::NonBlocking)
        &&& !self.spec_current_interrupts().contains(entry.0)
        &&& entry.1.spec_criteria().spec_wakes(self.spec_current_events())
        &&& (forall|t: u64|
            #[trigger] entry.1.spec_accesses().spec_scheduler()@.dom().contains(t)
                ==> self.spec_owned_tags().contains(t))
        &&& !self.spec_blacklists().spec_for_phase(Phase::BackgroundStart).spec_blocked(
            entry.1.spec_accesses().spec_scheduler()@,
        )
    }

    /// Whether the system at one position is eligible for a background
    /// launch, stated over the state the `BackgroundStart` phase begins
    /// from: non-blocking, outside the interrupt set as extended by the
    /// already-running background systems, awake on the visible events
    /// with the phase's marker, its resource demands owned, and not
    /// blocked by the phase's rules.
    pub open spec fn spec_background_launch_candidate(&self, i: int) -> bool {
        let entry = self.spec_systems()[i];
        &&& 0 <= i < self.spec_systems().len()
        &&& entry.1.spec_flags().contains(SystemFlag::NonBlocking)
        &&& !self.spec_current_interrupts().union(self.spec_background_ids()).contains(entry.0)
        &&& entry.1.spec_criteria().spec_wakes(
            self.spec_current_events().insert(spec_phase_marker(Phase::BackgroundStart)),
        )
        &&& (forall|t: u64|
            #[trigger] entry.1.spec_accesses().spec_scheduler()@.dom().contains(t)
                ==> self.spec_owned_tags().contains(t))
        &&& !self.spec_blacklists().spec_for_phase(Phase::BackgroundStart).spec_blocked(
            entry.1.spec_accesses().spec_scheduler()@,
        )
    }

    /// The foreground candidate positions for a phase, in table order.
    fn collect_foreground_candidates(&self, phase: Phase) -> (r: Vec<usize>)
        requires
            self.wf(),
        ensures
            forall|j: int|
                0 <= j < r@.len() ==> self.spec_foreground_candidate(
                    phase,
                    (#[trigger] r@[j]) as int,
                ),
            forall|i: int|
                0 <= i < self.spec_systems().len() && self.spec_foreground_candidate(phase, i)
                    ==> r@.contains(i as usize),
            r@.no_duplicates(),
            forall|j: int| 0 <= j < r@.len() ==> (#[trigger] r@[j]) < self.spec_systems().len(),
    {
        let keys = self.owned_keys();
        let blacklist = self.blacklists.get(phase);
        let n = self.systems.len();
        let mut r: Vec<usize> = Vec::new();
        for i in 0..n
            invariant
                n == self.spec_systems().len(),
                self.wf(),
                forall|t: u64| keys@.contains(t) <==> self.spec_owned_tags().contains(t),
                blacklist == self.spec_blacklists().spec_for_phase(phase),
                forall|j: int|
                    0 <= j < r@.len() ==> self.spec_foreground_candidate(
                        phase,
                        (#[trigger] r@[j]) as int,
                    ),
                forall|i2: int|
                    0 <= i2 < i && self.spec_foreground_candidate(phase, i2) ==> r@.contains(
                        i2 as usize,
                    ),
                r@.no_duplicates(),
                forall|j: int| 0 <= j < r@.len() ==> (#[trigger] r@[j]) < i,
        {
            let entry = &self.systems[i];
            let chosen = entry.1.is_foreground() && !self.current_interrupts.contains(&entry.0)
                && entry.1.wake_up(&self.current_events) && entry.1.test_criteria(&keys)
                && !blacklist.check_blocked(entry.1.cached_accesses().scheduler());
            let ghost r_before = r@;
            if chosen {
                r.push(i);
                proof {
                    assert(r@.drop_last() =~= r_before);
                    assert(r@.last() == i);
                    assert(self.spec_foreground_candidate(phase, i as int));
                    assert forall|a: int, b: int| 0 <= a < b < r@.len() implies r@[a] != r@[b] by {
                        if b == r@.len() - 1 {
                            assert(r@[a] == r_before[a]);
                            assert(r@[a] < i);
                        }
                    }
                }
            }
            proof {
                assert forall|i2: int|
                    0 <= i2 < i + 1 && self.spec_foreground_candidate(phase, i2) implies r@.contains(
                    i2 as usize,
                ) by {
                    if i2 < i {
                        assert(r_before.contains(i2 as usize));
                        let j = choose|j: int|
                            0 <= j < r_before.len() && (#[trigger] r_before[j]) == i2 as usize;
                        assert(r@[j] == i2 as usize);
                    } else {
                        assert(r@[r@.len() - 1] == i2 as usize);
                    }
                }
            }
        }
        r
    }

    /// The background candidate positions, in table order.
    fn collect_background_candidates(&self) -> (r: Vec<usize>)
        requires
            self.wf(),
        ensures
            forall|j: int|
                0 <= j < r@.len() ==> self.spec_background_candidate((#[trigger] r@[j]) as int),
            forall|i: int|
                0 <= i < self.spec_systems().len() && self.spec_background_candidate(i)
                    ==> r@.contains(i as usize),
            r@.no_duplicates(),
            forall|j: int| 0 <= j < r@.len() ==> (#[trigger] r@[j]) < self.spec_systems().len(),
    {
        let keys = self.owned_keys();
        let blacklist = self.blacklists.get(Phase::BackgroundStart);
        let n = self.systems.len();
        let mut r: Vec<usize> = Vec::new();
        for i in 0..n
            invariant
                n == self.spec_systems().len(),
                self.wf(),
                forall|t: u64| keys@.contains(t) <==> self.spec_owned_tags().contains(t),
                blacklist == self.spec_blacklists().spec_for_phase(Phase::BackgroundStart),
                forall|j: int|
                    0 <= j < r@.len() ==> self.spec_background_candidate((#[trigger] r@[j]) as int),
                forall|i2: int|
                    0 <= i2 < i && self.spec_background_candidate(i2) ==> r@.contains(i2 as usize),
                r@.no_duplicates(),
                forall|j: int| 0 <= j < r@.len() ==> (#[trigger] r@[j]) < i,
        {
            let entry = &self.systems[i];
            let chosen = entry.1.has_flag(SystemFlag::NonBlocking) && !self.current_interrupts.contains(
                &entry.0,
            ) && entry.1.wake_up(&self.current_events) && entry.1.test_criteria(&keys)
                && !blacklist.check_blocked(entry.1.cached_accesses().scheduler());
            let ghost r_before = r@;
            if chosen {
                r.push(i);
                proof {
                    assert(r@.drop_last() =~= r_before);
                    assert(r@.last() == i);
                    assert(self.spec_background_candidate(i as int));
                    assert forall|a: int, b: int| 0 <= a < b < r@.len() implies r@[a] != r@[b] by {
                        if b == r@.len() - 1 {
                            assert(r@[a] == r_before[a]);
                            assert(r@[a] < i);
                        }
                    }
                }
            }
            proof {
                assert forall|i2: int|
                    0 <= i2 < i + 1 && self.spec_background_candidate(i2) implies r@.contains(
                    i2 as usize,
                ) by {
                    if i2 < i {
                        assert(r_before.contains(i2 as usize));
                        let j = choose|j: int|
                            0 <= j < r_before.len() && (#[trigger] r_before[j]) == i2 as usize;
                        assert(r@[j] == i2 as usize);
                    } else {
                        assert(r@[r@.len() - 1] == i2 as usize);
                    }
                }
            }
        }
        r
    }

    /// Apply one run's reported effects: writes land on the stores the
    /// scheduler owns (later writes winning, unowned tags dropped, the key
    /// sets unchanged), posted events and interrupts join the new pools,
    /// fresh resources are filed for the `Movement` phase, and the tick
    /// advance is applied, held at the top of the range.
    fn apply_outcome(&mut self, id: &SystemId, outcome: RunOutcome<V>) -> (ok: bool)
        requires
            old(self).wf(),
        ensures
            final(self).wf(),
            ok == outcome.success,
            final(self).spec_resources()@ == crate::resources::spec_apply_writes(
                old(self).spec_resources()@,
                outcome.writes@,
            ),
            final(self).spec_resources()@.dom() == old(self).spec_resources()@.dom(),
            final(self).spec_new_events() == old(self).spec_new_events().union(
                outcome.posted_events@.to_set(),
            ),
            final(self).spec_new_interrupts() == old(self).spec_new_interrupts().union(
                outcome.posted_interrupts@.to_set(),
            ),
            forall|t: int|
                0 <= t < outcome.new_resources@.len() ==> final(self).spec_new_resources().spec_has_bucket((#[trigger] outcome.new_resources@[t]).0)
                    && final(self).spec_new_resources().spec_bucket_map(
                    outcome.new_resources@[t].0,
                ).dom().contains(outcome.new_resources@[t].1),
            final(self).spec_current_tick().tick.0 == crate::tick::spec_bump_by(
                old(self).spec_current_tick().tick.0,
                outcome.advance_tick,
            ),
            final(self).spec_current_events() == old(self).spec_current_events(),
            final(self).spec_current_interrupts() == old(self).spec_current_interrupts(),
            final(self).spec_systems() == old(self).spec_systems(),
            final(self).spec_blacklists() == old(self).spec_blacklists(),
            final(self).spec_reservations() == old(self).spec_reservations(),
            final(self).spec_background() == old(self).spec_background(),
            final(self).spec_catfishes() == old(self).spec_catfishes(),
            final(self).spec_bubbles() == old(self).spec_bubbles(),
            final(self).spec_default_systems() == old(self).spec_default_systems(),
            final(self).spec_threads() == old(self).spec_threads(),
            final(self).spec_system_resources().len() == old(self).spec_system_resources().len(),
            forall|j: int|
                0 <= j < old(self).spec_system_resources().len() ==> (#[trigger] final(self).spec_system_resources()[j]).0 == old(self).spec_system_resources()[j].0,
            forall|j: int|
                0 <= j < old(self).spec_system_resources().len() && (#[trigger] old(
                    self,
                ).spec_system_resources()[j]).0 == *id ==> final(self).spec_system_resources()[j].1.spec_resources()@
                    == crate::resources::spec_apply_writes(
                    old(self).spec_system_resources()[j].1.spec_resources()@,
                    outcome.system_writes@,
                ),
            forall|j: int|
                0 <= j < old(self).spec_system_resources().len() && (#[trigger] old(
                    self,
                ).spec_system_resources()[j]).0 != *id ==> final(self).spec_system_resources()[j]
                    == old(self).spec_system_resources()[j],
    {
        let RunOutcome {
            success,
            writes,
            system_writes,
            mut posted_events,
            mut posted_interrupts,
            mut new_resources,
            advance_tick,
        } = outcome;
        crate::resources::apply_writes_to(&mut self.resources, writes);
        match self.find_store(id) {
            Some(j) => {
                let ghost srs_before = self.spec_system_resources();
                let store = &mut self.system_resources[j];
                crate::resources::apply_writes_to(store.1.resources_mut(), system_writes);
                proof {
                    assert forall|l: int|
                        0 <= l < old(self).spec_system_resources().len() && (#[trigger] old(
                            self,
                        ).spec_system_resources()[l]).0 != *id implies self.spec_system_resources()[l]
                        == old(self).spec_system_resources()[l] by {
                        if l != j {
                            assert(self.spec_system_resources()[l] == srs_before[l]);
                        }
                    }
                    assert forall|l: int|
                        0 <= l < self.spec_system_resources().len() implies (
                    #[trigger] self.spec_system_resources()[l]).1.wf() by {
                        if l != j {
                            assert(self.spec_system_resources()[l] == srs_before[l]);
                        }
                    }
                    assert forall|a: int, b: int|
                        0 <= a < b < self.spec_system_resources().len() implies (
                    #[trigger] self.spec_system_resources()[a]).0 != (
                    #[trigger] self.spec_system_resources()[b]).0 by {
                        assert(self.spec_system_resources()[a].0 == srs_before[a].0);
                        assert(self.spec_system_resources()[b].0 == srs_before[b].0);
                    }
                    assert forall|l: int|
                        0 <= l < old(self).spec_system_resources().len() && (#[trigger] old(
                            self,
                        ).spec_system_resources()[l]).0 == *id implies self.spec_system_resources()[l].1.spec_resources()@
                        == crate::resources::spec_apply_writes(
                        old(self).spec_system_resources()[l].1.spec_resources()@,
                        outcome.system_writes@,
                    ) by {
                        if l != j {
                            assert(srs_before[l].0 != srs_before[j as int].0);
                        }
                    }
                }
            },
            None => {
                proof {
                    assert(self.spec_system_resources() == old(self).spec_system_resources());
                    assert forall|l: int|
                        0 <= l < old(self).spec_system_resources().len() && (#[trigger] old(
                            self,
                        ).spec_system_resources()[l]).0 == *id implies false by {
                        assert((self.spec_system_resources()[l]).0 != *id);
                    }
                }
            },
        }
        let ghost posted0 = posted_events@;
        while posted_events.len() > 0
            invariant
                self.wf(),
                posted_events@.len() <= posted0.len(),
                posted_events@ == posted0.take(posted_events@.len() as int),
                self.spec_new_events() == old(self).spec_new_events().union(
                    posted0.skip(posted_events@.len() as int).to_set(),
                ),
                self.spec_resources()@ == crate::resources::spec_apply_writes(
                    old(self).spec_resources()@,
                    outcome.writes@,
                ),
                self.spec_new_interrupts() == old(self).spec_new_interrupts(),
                self.spec_current_events() == old(self).spec_current_events(),
                self.spec_current_interrupts() == old(self).spec_current_interrupts(),
                self.spec_systems() == old(self).spec_systems(),
                self.spec_blacklists() == old(self).spec_blacklists(),
                self.spec_reservations() == old(self).spec_reservations(),
                self.spec_background() == old(self).spec_background(),
                self.spec_catfishes() == old(self).spec_catfishes(),
                self.spec_bubbles() == old(self).spec_bubbles(),
                self.spec_default_systems() == old(self).spec_default_systems(),
                self.spec_threads() == old(self).spec_threads(),
                self.spec_current_tick() == old(self).spec_current_tick(),
                self.spec_new_resources() == old(self).spec_new_resources(),
                self.spec_system_resources().len() == old(self).spec_system_resources().len(),
                forall|l: int|
                    0 <= l < old(self).spec_system_resources().len() ==> (
                    #[trigger] self.spec_system_resources()[l]).0 == old(
                        self,
                    ).spec_system_resources()[l].0,
                forall|l: int|
                    0 <= l < old(self).spec_system_resources().len() && (#[trigger] old(
                        self,
                    ).spec_system_resources()[l]).0 == *id ==> self.spec_system_resources()[l].1.spec_resources()@
                        == crate::resources::spec_apply_writes(
                        old(self).spec_system_resources()[l].1.spec_resources()@,
                        outcome.system_writes@,
                    ),
                forall|l: int|
                    0 <= l < old(self).spec_system_resources().len() && (#[trigger] old(
                        self,
                    ).spec_system_resources()[l]).0 != *id ==> self.spec_system_resources()[l]
                        == old(self).spec_system_resources()[l],
            decreases posted_events@.len(),
        {
            let ghost m = posted_events@.len() as int;
            proof {
                assert(posted_events@ == posted0.take(m));
            }
            let e = posted_events.pop().unwrap();
            proof {
                assert(e == posted0.take(m)[m - 1]);
                assert(posted0.take(m)[m - 1] == posted0[m - 1]);
                assert(posted_events@ =~= posted0.take(m - 1));
            }
            let _ = self.new_events.insert(e);
            proof {
                assert(posted0.skip(m - 1).to_set() =~= posted0.skip(m).to_set().insert(
                    posted0[m - 1],
                )) by {
                    assert forall|x: SchedulerEvent|
                        #![trigger posted0.skip(m - 1).to_set().contains(x)]
                        posted0.skip(m - 1).to_set().contains(x) implies posted0.skip(
                        m,
                    ).to_set().insert(posted0[m - 1]).contains(x) by {
                        let q = choose|q: int|
                            0 <= q < posted0.skip(m - 1).len() && (#[trigger] posted0.skip(
                                m - 1,
                            )[q]) == x;
                        if q > 0 {
                            assert(posted0.skip(m)[q - 1] == x);
                        }
                    }
                    assert forall|x: SchedulerEvent|
                        #![trigger posted0.skip(m - 1).to_set().contains(x)]
                        posted0.skip(m).to_set().insert(posted0[m - 1]).contains(x) implies posted0.skip(
                        m - 1,
                    ).to_set().contains(x) by {
                        if x == posted0[m - 1] {
                            assert(posted0.skip(m - 1)[0] == x);
                        } else {
                            let q = choose|q: int|
                                0 <= q < posted0.skip(m).len() && (#[trigger] posted0.skip(m)[q])
                                    == x;
                            assert(posted0.skip(m - 1)[q + 1] == x);
                        }
                    }
                }
                assert(self.spec_new_events() =~= old(self).spec_new_events().union(
                    posted0.skip(m - 1).to_set(),
                ));
            }
        }
        proof {
            assert(posted0.skip(0) =~= posted0);
        }
        let ghost ints0 = posted_interrupts@;
        while posted_interrupts.len() > 0
            invariant
                self.wf(),
                posted_interrupts@.len() <= ints0.len(),
                posted_interrupts@ == ints0.take(posted_interrupts@.len() as int),
                self.spec_new_interrupts() == old(self).spec_new_interrupts().union(
                    ints0.skip(posted_interrupts@.len() as int).to_set(),
                ),
                self.spec_new_events() == old(self).spec_new_events().union(posted0.to_set()),
                self.spec_resources()@ == crate::resources::spec_apply_writes(
                    old(self).spec_resources()@,
                    outcome.writes@,
                ),
                self.spec_current_events() == old(self).spec_current_events(),
                self.spec_current_interrupts() == old(self).spec_current_interrupts(),
                self.spec_systems() == old(self).spec_systems(),
                self.spec_blacklists() == old(self).spec_blacklists(),
                self.spec_reservations() == old(self).spec_reservations(),
                self.spec_background() == old(self).spec_background(),
                self.spec_catfishes() == old(self).spec_catfishes(),
                self.spec_bubbles() == old(self).spec_bubbles(),
                self.spec_default_systems() == old(self).spec_default_systems(),
                self.spec_threads() == old(self).spec_threads(),
                self.spec_current_tick() == old(self).spec_current_tick(),
                self.spec_new_resources() == old(self).spec_new_resources(),
                self.spec_system_resources().len() == old(self).spec_system_resources().len(),
                forall|l: int|
                    0 <= l < old(self).spec_system_resources().len() ==> (
                    #[trigger] self.spec_system_resources()[l]).0 == old(
                        self,
                    ).spec_system_resources()[l].0,
                forall|l: int|
                    0 <= l < old(self).spec_system_resources().len() && (#[trigger] old(
                        self,
                    ).spec_system_resources()[l]).0 == *id ==> self.spec_system_resources()[l].1.spec_resources()@
                        == crate::resources::spec_apply_writes(
                        old(self).spec_system_resources()[l].1.spec_resources()@,
                        outcome.system_writes@,
                    ),
                forall|l: int|
                    0 <= l < old(self).spec_system_resources().len() && (#[trigger] old(
                        self,
                    ).spec_system_resources()[l]).0 != *id ==> self.spec_system_resources()[l]
                        == old(self).spec_system_resources()[l],
            decreases posted_interrupts@.len(),
        {
            let ghost m = posted_interrupts@.len() as int;
            proof {
                assert(posted_interrupts@ == ints0.take(m));
            }
            let i = posted_interrupts.pop().unwrap();
            proof {
                assert(i == ints0.take(m)[m - 1]);
                assert(ints0.take(m)[m - 1] == ints0[m - 1]);
                assert(posted_interrupts@ =~= ints0.take(m - 1));
            }
            let _ = self.new_interrupts.insert(i);
            proof {
                assert(ints0.skip(m - 1).to_set() =~= ints0.skip(m).to_set().insert(
                    ints0[m - 1],
                )) by {
                    assert forall|x: SystemId|
                        #![trigger ints0.skip(m - 1).to_set().contains(x)]
                        ints0.skip(m - 1).to_set().contains(x) implies ints0.skip(
                        m,
                    ).to_set().insert(ints0[m - 1]).contains(x) by {
                        let q = choose|q: int|
                            0 <= q < ints0.skip(m - 1).len() && (#[trigger] ints0.skip(
                                m - 1,
                            )[q]) == x;
                        if q > 0 {
                            assert(ints0.skip(m)[q - 1] == x);
                        }
                    }
                    assert forall|x: SystemId|
                        #![trigger ints0.skip(m - 1).to_set().contains(x)]
                        ints0.skip(m).to_set().insert(ints0[m - 1]).contains(x) implies ints0.skip(
                        m - 1,
                    ).to_set().contains(x) by {
                        if x == ints0[m - 1] {
                            assert(ints0.skip(m - 1)[0] == x);
                        } else {
                            let q = choose|q: int|
                                0 <= q < ints0.skip(m).len() && (#[trigger] ints0.skip(m)[q])
                                    == x;
                            assert(ints0.skip(m - 1)[q + 1] == x);
                        }
                    }
                }
                assert(self.spec_new_interrupts() =~= old(self).spec_new_interrupts().union(
                    ints0.skip(m - 1).to_set(),
                ));
            }
        }
        proof {
            assert(ints0.skip(0) =~= ints0);
        }
        let ghost nr0 = new_resources@;
        while new_resources.len() > 0
            invariant
                self.wf(),
                new_resources@.len() <= nr0.len(),
                new_resources@ == nr0.take(new_resources@.len() as int),
                forall|t: int|
                    new_resources@.len() <= t < nr0.len() ==> self.spec_new_resources().spec_has_bucket(
                        (#[trigger] nr0[t]).0,
                    ) && self.spec_new_resources().spec_bucket_map(nr0[t].0).dom().contains(
                        nr0[t].1,
                    ),
                self.spec_new_events() == old(self).spec_new_events().union(posted0.to_set()),
                self.spec_new_interrupts() == old(self).spec_new_interrupts().union(
                    ints0.to_set(),
                ),
                self.spec_resources()@ == crate::resources::spec_apply_writes(
                    old(self).spec_resources()@,
                    outcome.writes@,
                ),
                self.spec_current_events() == old(self).spec_current_events(),
                self.spec_current_interrupts() == old(self).spec_current_interrupts(),
                self.spec_systems() == old(self).spec_systems(),
                self.spec_blacklists() == old(self).spec_blacklists(),
                self.spec_reservations() == old(self).spec_reservations(),
                self.spec_background() == old(self).spec_background(),
                self.spec_catfishes() == old(self).spec_catfishes(),
                self.spec_bubbles() == old(self).spec_bubbles(),
                self.spec_default_systems() == old(self).spec_default_systems(),
                self.spec_threads() == old(self).spec_threads(),
                self.spec_current_tick() == old(self).spec_current_tick(),
                self.spec_system_resources().len() == old(self).spec_system_resources().len(),
                forall|l: int|
                    0 <= l < old(self).spec_system_resources().len() ==> (
                    #[trigger] self.spec_system_resources()[l]).0 == old(
                        self,
                    ).spec_system_resources()[l].0,
                forall|l: int|
                    0 <= l < old(self).spec_system_resources().len() && (#[trigger] old(
                        self,
                    ).spec_system_resources()[l]).0 == *id ==> self.spec_system_resources()[l].1.spec_resources()@
                        == crate::resources::spec_apply_writes(
                        old(self).spec_system_resources()[l].1.spec_resources()@,
                        outcome.system_writes@,
                    ),
                forall|l: int|
                    0 <= l < old(self).spec_system_resources().len() && (#[trigger] old(
                        self,
                    ).spec_system_resources()[l]).0 != *id ==> self.spec_system_resources()[l]
                        == old(self).spec_system_resources()[l],
            decreases new_resources@.len(),
        {
            let ghost m = new_resources@.len() as int;
            proof {
                assert(new_resources@ == nr0.take(m));
            }
            let (owner, k, v) = new_resources.pop().unwrap();
            proof {
                assert((owner, k, v) == nr0.take(m)[m - 1]);
                assert(nr0.take(m)[m - 1] == nr0[m - 1]);
                assert(new_resources@ =~= nr0.take(m - 1));
            }
            let mut bucket: ResourceMap<V> = ResourceMap::new();
            let _ = bucket.insert(k, v);
            let ghost bucket_view = bucket@;
            let ghost pool_before = *self.spec_new_resources();
            let filed_rejected = self.new_resources.insert(owner, bucket);
            proof {
                let post = self.spec_new_resources();
                assert(bucket_view.dom().contains(k));
                assert forall|t: int|
                    m - 1 <= t < nr0.len() implies post.spec_has_bucket((#[trigger] nr0[t]).0)
                    && post.spec_bucket_map(nr0[t].0).dom().contains(nr0[t].1) by {
                    if !pool_before.spec_has_bucket(owner) {
                        let last = post.spec_buckets().len() - 1;
                        assert(post.spec_buckets()[last] == (owner, post.spec_buckets()[last].1));
                        assert(post.spec_buckets()[last].0 == owner);
                        assert(post.spec_buckets()[last].1@ == bucket_view);
                        if t == m - 1 {
                            post.lemma_bucket_map(last);
                            assert(post.spec_has_bucket(owner));
                        } else {
                            let i2 = choose|i2: int|
                                0 <= i2 < pool_before.spec_buckets().len() && (
                                #[trigger] pool_before.spec_buckets()[i2]).0 == nr0[t].0;
                            assert(post.spec_buckets()[i2] == pool_before.spec_buckets()[i2]);
                            assert(post.spec_has_bucket(nr0[t].0));
                            post.lemma_bucket_map(i2);
                            pool_before.lemma_bucket_map(i2);
                        }
                    } else {
                        let i = choose|i: int|
                            {
                                &&& 0 <= i < pool_before.spec_buckets().len()
                                &&& (#[trigger] pool_before.spec_buckets()[i]).0 == owner
                                &&& post.spec_buckets().len()
                                    == pool_before.spec_buckets().len()
                                &&& forall|j2: int|
                                    0 <= j2 < pool_before.spec_buckets().len() && j2 != i
                                        ==> post.spec_buckets()[j2]
                                        == pool_before.spec_buckets()[j2]
                                &&& post.spec_buckets()[i].0 == owner
                                &&& crate::resources::merge_outcome(
                                    pool_before.spec_buckets()[i].1@,
                                    bucket_view,
                                    post.spec_buckets()[i].1@,
                                    filed_rejected@,
                                )
                            };
                        if t == m - 1 {
                            assert(post.spec_has_bucket(owner));
                            post.lemma_bucket_map(i);
                            assert(post.spec_buckets()[i].1@.dom().contains(k));
                        } else {
                            if nr0[t].0 == owner {
                                post.lemma_bucket_map(i);
                                pool_before.lemma_bucket_map(i);
                                assert(pool_before.spec_buckets()[i].1@.dom().contains(nr0[t].1));
                                assert(post.spec_buckets()[i].1@.dom().contains(nr0[t].1));
                                assert(post.spec_has_bucket(owner));
                            } else {
                                let i2 = choose|i2: int|
                                    0 <= i2 < pool_before.spec_buckets().len() && (
                                    #[trigger] pool_before.spec_buckets()[i2]).0 == nr0[t].0;
                                assert(i2 != i);
                                assert(post.spec_buckets()[i2] == pool_before.spec_buckets()[i2]);
                                assert(post.spec_has_bucket(nr0[t].0));
                                post.lemma_bucket_map(i2);
                                pool_before.lemma_bucket_map(i2);
                            }
                        }
                    }
                }
            }
        }
        if advance_tick > 0 {
            let t = self.current_tick.tick.0;
            self.current_tick.tick.0 = if advance_tick > usize::MAX - t {
                usize::MAX
            } else {
                t + advance_tick
            };
        }
        proof {
            crate::resources::lemma_apply_writes_dom(
                old(self).spec_resources()@,
                outcome.writes@,
            );
        }
        success
    }


    /// Find a system's private store.
    fn find_store(&self, id: &SystemId) -> (r: Option<usize>)
        ensures
            match r {
                Some(j) => j < self.spec_system_resources().len() && self.spec_system_resources()[j as int].0
                    == *id,
                None => forall|j: int|
                    0 <= j < self.spec_system_resources().len() ==> (
                    #[trigger] self.spec_system_resources()[j]).0 != *id,
            },
    {
        let n = self.system_resources.len();
        for j in 0..n
            invariant
                n == self.spec_system_resources().len(),
                forall|l: int|
                    0 <= l < j ==> (#[trigger] self.spec_system_resources()[l]).0 != *id,
        {
            if self.system_resources[j].0 == *id {
                return Some(j);
            }
        }
        None
    }

    /// Agreement of the whole system table, entry for entry.
    pub open spec fn spec_same_systems(a: Seq<(SystemId, StoredSystem)>, b: Seq<(SystemId, StoredSystem)>) -> bool {
        b.len() == a.len() && forall|j: int|
            0 <= j < a.len() ==> (#[trigger] b[j]).0 == (#[trigger] a[j]).0
                && crate::system::spec_same_system(a[j].1, b[j].1)
    }

    /// Fields the dispatcher leaves alone, and the monotone pools.
    pub open spec fn spec_dispatch_frame(pre: &Scheduler<V>, post: &Scheduler<V>) -> bool {
        &&& Self::spec_same_systems(pre.spec_systems(), post.spec_systems())
        &&& post.spec_resources()@.dom() == pre.spec_resources()@.dom()
        &&& pre.spec_new_events().subset_of(post.spec_new_events())
        &&& pre.spec_new_interrupts().subset_of(post.spec_new_interrupts())
        &&& post.spec_current_events() == pre.spec_current_events()
        &&& post.spec_current_interrupts() == pre.spec_current_interrupts()
        &&& post.spec_blacklists() == pre.spec_blacklists()
        &&& post.spec_reservations() == pre.spec_reservations()
        &&& post.spec_background() == pre.spec_background()
        &&& post.spec_catfishes() == pre.spec_catfishes()
        &&& post.spec_bubbles() == pre.spec_bubbles()
        &&& post.spec_default_systems() == pre.spec_default_systems()
        &&& post.spec_threads() == pre.spec_threads()
        &&& post.spec_current_tick().tick.0 >= pre.spec_current_tick().tick.0
        &&& post.spec_system_resources().len() == pre.spec_system_resources().len()
        &&& forall|j: int|
            0 <= j < pre.spec_system_resources().len() ==> (
            #[trigger] post.spec_system_resources()[j]).0 == pre.spec_system_resources()[j].0
    }

    /// Dispatch one execution graph. The dispatcher repeatedly claims a
    /// leaf; a leaf whose accesses conflict with a held reservation is
    /// skipped for this tick (its node completes without running), any
    /// other leaf runs to completion and completes its node, freeing its
    /// successors. The returned order lists the systems that ran, oldest
    /// first; within the graph, every edge's source runs before its
    /// target. A ghost run record rides along: one success flag per run,
    /// and one order position per entry this call pushed onto `failed`,
    /// pinning every recorded failure to the failed run it reports and
    /// every failed run to a recorded failure.
    #[verifier::rlimit(100)]
    fn execute_graph<R: SystemRunner<V>>(
        &mut self,
        graph: &mut ExecutionGraph,
        runner: &mut R,
        failed: &mut Vec<SystemId>,
    ) -> (res: (Vec<SystemId>, Ghost<Seq<bool>>, Ghost<Seq<int>>))
        requires
            old(self).wf(),
            old(graph).wf(),
            forall|v: int|
                0 <= v < old(graph).spec_ids().len() ==> old(graph).spec_status()[v]
                    == crate::graph::NodeStatus::Ready,
            forall|v: int, si: int|
                0 <= v < old(graph).spec_ids().len() && 0 <= si < old(self).spec_systems().len()
                    && (#[trigger] old(self).spec_systems()[si]).0 == (#[trigger] old(
                    graph,
                ).spec_ids()[v]) ==> old(self).spec_systems()[si].1.spec_status()
                    == SystemStatus::Init && old(self).spec_systems()[si].1.status_consistent(),
            forall|v: int|
                0 <= v < old(graph).spec_ids().len() ==> old(self).spec_has_system(
                    #[trigger] old(graph).spec_ids()[v],
                ),
        ensures
            final(self).wf(),
            Self::spec_dispatch_frame(old(self), final(self)),
            final(graph).wf(),
            final(graph).spec_ids() == old(graph).spec_ids(),
            final(graph).spec_preds() == old(graph).spec_preds(),
            res.0@.no_duplicates(),
            forall|j: int| 0 <= j < res.0@.len() ==> old(graph).spec_ids().contains(#[trigger] res.0@[j]),
            forall|j: int, si: int|
                0 <= j < res.0@.len() && 0 <= si < final(self).spec_systems().len() && (
                #[trigger] final(self).spec_systems()[si]).0 == (#[trigger] res.0@[j]) ==> !old(
                    self,
                ).spec_reservations().spec_any_conflict(
                    final(self).spec_systems()[si].1.spec_accesses().spec_scheduler()@,
                ),
            forall|u: int, v: int, j1: int, j2: int|
                #![trigger res.0@[j1], res.0@[j2], old(graph).spec_ids()[u], old(graph).spec_ids()[v]]
                old(graph).spec_has_edge(u, v) && 0 <= u < old(graph).spec_ids().len() && 0 <= v
                    < old(graph).spec_ids().len() && 0 <= j1 <= j2 < res.0@.len() && res.0@[j1]
                    == old(graph).spec_ids()[v] && res.0@[j2] == old(graph).spec_ids()[u]
                    ==> false,
            forall|v: int| 0 <= v < old(graph).spec_ids().len() ==> !final(graph).spec_is_leaf(v),
            forall|v: int|
                0 <= v < old(graph).spec_ids().len() && res.0@.contains(
                    #[trigger] old(graph).spec_ids()[v],
                ) ==> final(graph).spec_status()[v] == crate::graph::NodeStatus::Complete,
            forall|v: int, si: int|
                #![trigger final(graph).spec_status()[v], final(self).spec_systems()[si]]
                0 <= v < old(graph).spec_ids().len() && 0 <= si < final(self).spec_systems().len()
                    && final(self).spec_systems()[si].0 == old(graph).spec_ids()[v] && final(graph).spec_status()[v] == crate::graph::NodeStatus::Complete && !old(
                    self,
                ).spec_reservations().spec_any_conflict(
                    final(self).spec_systems()[si].1.spec_accesses().spec_scheduler()@,
                ) ==> res.0@.contains(old(graph).spec_ids()[v]),
            forall|v: int, si: int|
                #![trigger final(graph).spec_status()[v], final(self).spec_systems()[si]]
                0 <= v < old(graph).spec_ids().len() && 0 <= si < final(self).spec_systems().len()
                    && final(self).spec_systems()[si].0 == old(graph).spec_ids()[v] && final(graph).spec_status()[v] == crate::graph::NodeStatus::Complete && !res.0@.contains(
                    old(graph).spec_ids()[v],
                ) ==> old(self).spec_reservations().spec_any_conflict(
                    final(self).spec_systems()[si].1.spec_accesses().spec_scheduler()@,
                ),
            old(failed)@.is_prefix_of(final(failed)@),
            forall|j: int|
                old(failed)@.len() <= j < final(failed)@.len() ==> res.0@.contains(
                    #[trigger] final(failed)@[j],
                ),
            forall|j: int|
                0 <= j < res.0@.len() && old(self).spec_default_systems().contains(
                    #[trigger] res.0@[j],
                ) ==> final(self).spec_current_tick().tick.0 >= crate::tick::spec_bump(
                    old(self).spec_current_tick().tick.0,
                ),
            res.1@.len() == res.0@.len(),
            forall|q: int|
                0 <= q < res.0@.len() && !(#[trigger] res.1@[q]) ==> final(failed)@.contains(
                    res.0@[q],
                ),
            res.2@.len() == final(failed)@.len() - old(failed)@.len(),
            forall|t: int|
                0 <= t < res.2@.len() ==> 0 <= (#[trigger] res.2@[t]) < res.0@.len()
                    && res.0@[res.2@[t]] == final(failed)@[old(failed)@.len() + t]
                    && !res.1@[res.2@[t]],
    {
        let mut order: Vec<SystemId> = Vec::new();
        let ghost mut oks: Seq<bool> = Seq::empty();
        let ghost mut fpos: Seq<int> = Seq::empty();
        loop
            invariant
                self.wf(),
                graph.wf(),
                Self::spec_dispatch_frame(old(self), self),
                Self::spec_same_systems(old(self).spec_systems(), self.spec_systems()),
                graph.spec_ids() == old(graph).spec_ids(),
                graph.spec_preds() == old(graph).spec_preds(),
                forall|v: int, si: int|
                    0 <= v < graph.spec_ids().len() && 0 <= si < self.spec_systems().len() && (
                    #[trigger] self.spec_systems()[si]).0 == (#[trigger] graph.spec_ids()[v])
                        ==> self.spec_systems()[si].1.spec_status() == SystemStatus::Init
                        && self.spec_systems()[si].1.status_consistent(),
                forall|v: int|
                    0 <= v < graph.spec_ids().len() ==> self.spec_has_system(
                        #[trigger] graph.spec_ids()[v],
                    ),
                order@.no_duplicates(),
                forall|j: int|
                    0 <= j < order@.len() ==> graph.spec_ids().contains(#[trigger] order@[j]),
                forall|v: int|
                    0 <= v < graph.spec_ids().len() && order@.contains(
                        #[trigger] graph.spec_ids()[v],
                    ) ==> graph.spec_status()[v] == crate::graph::NodeStatus::Complete,
                forall|v: int, l: int|
                    0 <= v < graph.spec_ids().len() && order@.contains(
                        #[trigger] graph.spec_ids()[v],
                    ) && 0 <= l < graph.spec_preds()[v].len() ==> graph.spec_status()[(
                    #[trigger] graph.spec_preds()[v][l]) as int]
                        == crate::graph::NodeStatus::Complete,
                forall|j: int, si: int|
                    0 <= j < order@.len() && 0 <= si < self.spec_systems().len() && (
                    #[trigger] self.spec_systems()[si]).0 == (#[trigger] order@[j]) ==> !old(
                        self,
                    ).spec_reservations().spec_any_conflict(
                        self.spec_systems()[si].1.spec_accesses().spec_scheduler()@,
                    ),
                forall|u: int, v: int, j1: int, j2: int|
                    #![trigger order@[j1], order@[j2], graph.spec_ids()[u], graph.spec_ids()[v]]
                    graph.spec_has_edge(u, v) && 0 <= u < graph.spec_ids().len() && 0 <= v
                        < graph.spec_ids().len() && 0 <= j1 <= j2 < order@.len() && order@[j1]
                        == graph.spec_ids()[v] && order@[j2] == graph.spec_ids()[u] ==> false,
                forall|v: int, si: int|
                    #![trigger graph.spec_status()[v], self.spec_systems()[si]]
                    0 <= v < graph.spec_ids().len() && 0 <= si < self.spec_systems().len()
                        && self.spec_systems()[si].0 == graph.spec_ids()[v]
                        && graph.spec_status()[v] == crate::graph::NodeStatus::Complete && !old(
                        self,
                    ).spec_reservations().spec_any_conflict(
                        self.spec_systems()[si].1.spec_accesses().spec_scheduler()@,
                    ) ==> order@.contains(graph.spec_ids()[v]),
                forall|v: int, si: int|
                    #![trigger graph.spec_status()[v], self.spec_systems()[si]]
                    0 <= v < graph.spec_ids().len() && 0 <= si < self.spec_systems().len()
                        && self.spec_systems()[si].0 == graph.spec_ids()[v]
                        && graph.spec_status()[v] == crate::graph::NodeStatus::Complete
                        && !order@.contains(graph.spec_ids()[v]) ==> old(
                        self,
                    ).spec_reservations().spec_any_conflict(
                        self.spec_systems()[si].1.spec_accesses().spec_scheduler()@,
                    ),
                old(failed)@.is_prefix_of(failed@),
                forall|j: int|
                    old(failed)@.len() <= j < failed@.len() ==> order@.contains(
                        #[trigger] failed@[j],
                    ),
                oks.len() == order@.len(),
                forall|q: int|
                    0 <= q < order@.len() && !(#[trigger] oks[q]) ==> failed@.contains(order@[q]),
                fpos.len() == failed@.len() - old(failed)@.len(),
                forall|t: int|
                    0 <= t < fpos.len() ==> 0 <= (#[trigger] fpos[t]) < order@.len()
                        && order@[fpos[t]] == failed@[old(failed)@.len() + t] && !oks[fpos[t]],
                forall|j: int|
                    0 <= j < order@.len() && old(self).spec_default_systems().contains(
                        #[trigger] order@[j],
                    ) ==> self.spec_current_tick().tick.0 >= crate::tick::spec_bump(
                        old(self).spec_current_tick().tick.0,
                    ),
            ensures
                forall|v: int| 0 <= v < graph.spec_ids().len() ==> !graph.spec_is_leaf(v),
            decreases crate::graph::count_incomplete(graph.spec_status()),
        {
            let leaves = graph.leaves();
            if leaves.len() == 0 {
                proof {
                    assert forall|v: int|
                        0 <= v < graph.spec_ids().len() implies !graph.spec_is_leaf(v) by {
                        if graph.spec_is_leaf(v) {
                            assert(leaves@.contains(v as usize));
                        }
                    }
                }
                break ;
            }
            let v = leaves[0];
            proof {
                assert(graph.spec_is_leaf(v as int));
            }
            let id = graph.id_at(v);
            let ghost status_before = graph.spec_status();
            proof {
                assert(!order@.contains(id)) by {
                    if order@.contains(id) {
                        assert(graph.spec_status()[v as int]
                            == crate::graph::NodeStatus::Complete);
                    }
                }
            }
            let si = match self.find_system(&id) {
                Some(si) => si,
                None => {
                    proof {
                        assert(self.spec_has_system(id));
                    }
                    vstd::pervasive::unreached()
                },
            };
            let conflict = self.background_accesses.any_conflict(
                self.systems[si].1.cached_accesses().scheduler(),
            );
            if conflict {
                let ghost reservations_now = *self.spec_reservations();
                graph.mark_as_complete(v);
                proof {
                    lemma_dispatch_statuses_grow(status_before, graph.spec_status(), v as int);
                    crate::graph::lemma_count_incomplete_update(status_before, v as int);
                    assert(reservations_now == *old(self).spec_reservations());
                    assert forall|v2: int, si2: int|
                        #![trigger graph.spec_status()[v2], self.spec_systems()[si2]]
                        0 <= v2 < graph.spec_ids().len() && 0 <= si2 < self.spec_systems().len()
                            && self.spec_systems()[si2].0 == graph.spec_ids()[v2]
                            && graph.spec_status()[v2] == crate::graph::NodeStatus::Complete
                            && !order@.contains(graph.spec_ids()[v2]) implies old(
                        self,
                    ).spec_reservations().spec_any_conflict(
                        self.spec_systems()[si2].1.spec_accesses().spec_scheduler()@,
                    ) by {
                        if v2 == v as int {
                            assert(si2 == si as int) by {
                                if si2 != si as int {
                                    assert(self.spec_systems()[si2].0 != self.spec_systems()[
                                    si as int].0);
                                }
                            }
                        } else {
                            assert(status_before[v2] == crate::graph::NodeStatus::Complete);
                        }
                    }
                    assert forall|v2: int, si2: int|
                        #![trigger graph.spec_status()[v2], self.spec_systems()[si2]]
                        0 <= v2 < graph.spec_ids().len() && 0 <= si2 < self.spec_systems().len()
                            && self.spec_systems()[si2].0 == graph.spec_ids()[v2]
                            && graph.spec_status()[v2] == crate::graph::NodeStatus::Complete
                            && !old(self).spec_reservations().spec_any_conflict(
                            self.spec_systems()[si2].1.spec_accesses().spec_scheduler()@,
                        ) implies order@.contains(graph.spec_ids()[v2]) by {
                        if v2 == v as int {
                            assert(si2 == si as int) by {
                                if si2 != si as int {
                                    assert(self.spec_systems()[si2].0 != self.spec_systems()[
                                    si as int].0);
                                }
                            }
                        } else {
                            assert(status_before[v2] == crate::graph::NodeStatus::Complete);
                        }
                    }
                }
                continue ;
            }
            let ghost sys_before = self.spec_systems();
            let slot = &mut self.systems[si];
            slot.1.set_status(SystemStatus::Executing);
            let inner_opt = slot.1.take_system();
            let inner = match inner_opt {
                Some(inner) => inner,
                None => vstd::pervasive::unreached(),
            };
            let needs_store = inner.needs_system_resource();
            let is_default = crate::interrupts::contains_system(&self.default_systems, &id);
            let ghost mid = *self;
            let run_ok: bool;
            if is_default {
                tick_incrementor(&mut self.current_tick);
                run_ok = true;
            } else {
                let outcome = if needs_store {
                    match self.find_store(&id) {
                        Some(j) => runner.run(
                            &id,
                            &self.resources,
                            Some(self.system_resources[j].1.resources()),
                        ),
                        None => runner.run(&id, &self.resources, None),
                    }
                } else {
                    runner.run(&id, &self.resources, None)
                };
                run_ok = self.apply_outcome(&id, outcome);
            }
            let ghost failed_before = failed@;
            if !run_ok {
                failed.push(id);
            }
            let slot = &mut self.systems[si];
            slot.1.insert_system(inner);
            slot.1.set_status(SystemStatus::Init);
            proof {
                assert forall|j: int|
                    0 <= j < sys_before.len() implies (#[trigger] self.spec_systems()[j]).0
                    == sys_before[j].0 && crate::system::spec_same_system(
                    sys_before[j].1,
                    self.spec_systems()[j].1,
                ) by {
                    if j != si {
                        assert(self.spec_systems()[j] == mid.spec_systems()[j]);
                        assert(mid.spec_systems()[j] == sys_before[j]);
                    }
                }
                assert forall|a: int, b: int|
                    0 <= a < b < self.spec_systems().len() implies (
                #[trigger] self.spec_systems()[a]).0 != (#[trigger] self.spec_systems()[b]).0 by {
                    assert(self.spec_systems()[a].0 == sys_before[a].0);
                    assert(self.spec_systems()[b].0 == sys_before[b].0);
                }
                assert forall|j: int|
                    0 <= j < self.spec_systems().len() implies (
                #[trigger] self.spec_systems()[j]).1.wf() by {
                    assert(crate::system::spec_same_system(
                        sys_before[j].1,
                        self.spec_systems()[j].1,
                    ));
                }
                assert forall|j: int|
                    0 <= j < old(self).spec_systems().len() implies (
                #[trigger] self.spec_systems()[j]).0 == (#[trigger] old(
                    self,
                ).spec_systems()[j]).0 && crate::system::spec_same_system(
                    old(self).spec_systems()[j].1,
                    self.spec_systems()[j].1,
                ) by {
                    assert(crate::system::spec_same_system(
                        old(self).spec_systems()[j].1,
                        sys_before[j].1,
                    ));
                    assert(crate::system::spec_same_system(
                        sys_before[j].1,
                        self.spec_systems()[j].1,
                    ));
                }
                assert forall|v2: int|
                    0 <= v2 < graph.spec_ids().len() implies self.spec_has_system(
                    #[trigger] graph.spec_ids()[v2],
                ) by {
                    let j = choose|j: int|
                        0 <= j < sys_before.len() && (#[trigger] sys_before[j]).0
                            == graph.spec_ids()[v2];
                    assert(self.spec_systems()[j].0 == graph.spec_ids()[v2]);
                }
                assert forall|v2: int, si2: int|
                    0 <= v2 < graph.spec_ids().len() && 0 <= si2 < self.spec_systems().len() && (
                    #[trigger] self.spec_systems()[si2]).0 == (
                    #[trigger] graph.spec_ids()[v2]) implies self.spec_systems()[si2].1.spec_status()
                    == SystemStatus::Init && self.spec_systems()[si2].1.status_consistent() by {
                    assert(sys_before[si2].0 == self.spec_systems()[si2].0);
                    assert(sys_before[si2].1.spec_status() == SystemStatus::Init);
                    assert(sys_before[si2].1.status_consistent());
                    assert(crate::system::spec_same_system(
                        sys_before[si2].1,
                        self.spec_systems()[si2].1,
                    ));
                }
            }
            let ghost order_before = order@;
            graph.mark_as_complete(v);
            order.push(id);
            proof {
                let ghost oks_before = oks;
                let ghost fpos_before = fpos;
                oks = oks.push(run_ok);
                if !run_ok {
                    fpos = fpos.push(order@.len() - 1);
                }
                lemma_dispatch_statuses_grow(status_before, graph.spec_status(), v as int);
                crate::graph::lemma_count_incomplete_update(status_before, v as int);
                assert(order@.drop_last() =~= order_before);
                assert(order@.last() == id);
                assert forall|j: int|
                    0 <= j < order@.len() implies graph.spec_ids().contains(
                    #[trigger] order@[j],
                ) by {
                    if j == order@.len() - 1 {
                        assert(graph.spec_ids()[v as int] == id);
                    }
                }
                assert forall|w: int|
                    0 <= w < graph.spec_ids().len() && order@.contains(
                        #[trigger] graph.spec_ids()[w],
                    ) implies graph.spec_status()[w] == crate::graph::NodeStatus::Complete by {
                    let j = choose|j: int| 0 <= j < order@.len() && order@[j] == graph.spec_ids()[w];
                    if j < order@.len() - 1 {
                        assert(order_before[j] == graph.spec_ids()[w]);
                        assert(order_before.contains(graph.spec_ids()[w]));
                        assert(status_before[w] == crate::graph::NodeStatus::Complete);
                    } else {
                        assert(graph.spec_ids()[w] == id);
                        assert(w == v as int) by {
                            if w != v as int {
                                assert(graph.spec_ids()[w] != graph.spec_ids()[v as int]);
                            }
                        }
                    }
                }
                assert forall|w: int, l: int|
                    0 <= w < graph.spec_ids().len() && order@.contains(
                        #[trigger] graph.spec_ids()[w],
                    ) && 0 <= l < graph.spec_preds()[w].len() implies graph.spec_status()[(
                #[trigger] graph.spec_preds()[w][l]) as int]
                    == crate::graph::NodeStatus::Complete by {
                    let j = choose|j: int| 0 <= j < order@.len() && order@[j] == graph.spec_ids()[w];
                    if j < order@.len() - 1 {
                        assert(order_before[j] == graph.spec_ids()[w]);
                        assert(order_before.contains(graph.spec_ids()[w]));
                        assert(status_before[(graph.spec_preds()[w][l]) as int]
                            == crate::graph::NodeStatus::Complete);
                    } else {
                        assert(graph.spec_ids()[w] == id);
                        assert(w == v as int) by {
                            if w != v as int {
                                assert(graph.spec_ids()[w] != graph.spec_ids()[v as int]);
                            }
                        }
                        assert(status_before[(graph.spec_preds()[w][l]) as int]
                            == crate::graph::NodeStatus::Complete);
                    }
                }
                assert forall|a: int, b: int| 0 <= a < b < order@.len() implies order@[a]
                    != order@[b] by {
                    if b == order@.len() - 1 {
                        assert(order@[a] == order_before[a]);
                        assert(order_before.contains(order@[a]));
                    }
                }
                assert forall|u: int, w: int, j1: int, j2: int|
                    #![trigger order@[j1], order@[j2], graph.spec_ids()[u], graph.spec_ids()[w]]
                    graph.spec_has_edge(u, w) && 0 <= u < graph.spec_ids().len() && 0 <= w
                        < graph.spec_ids().len() && 0 <= j1 <= j2 < order@.len() && order@[j1]
                        == graph.spec_ids()[w] && order@[j2] == graph.spec_ids()[u] implies false by {
                    if j2 < order@.len() - 1 {
                        assert(order_before[j1] == graph.spec_ids()[w]);
                        assert(order_before[j2] == graph.spec_ids()[u]);
                    } else {
                        assert(order@[j2] == id);
                        assert(u == v as int) by {
                            if u != v as int {
                                assert(graph.spec_ids()[u] != graph.spec_ids()[v as int]);
                            }
                        }
                        let l = choose|l: int|
                            0 <= l < graph.spec_preds()[w].len() && (
                            #[trigger] graph.spec_preds()[w][l]) == u;
                        if j1 < order@.len() - 1 {
                            assert(order_before[j1] == graph.spec_ids()[w]);
                            assert(order_before.contains(graph.spec_ids()[w]));
                            assert(status_before[u] == crate::graph::NodeStatus::Complete);
                        } else {
                            assert(graph.spec_ids()[w] == id);
                            assert(w == v as int) by {
                                if w != v as int {
                                    assert(graph.spec_ids()[w] != graph.spec_ids()[v as int]);
                                }
                            }
                            assert(status_before[u] == crate::graph::NodeStatus::Complete);
                        }
                    }
                }
                assert forall|j: int, si2: int|
                    0 <= j < order@.len() && 0 <= si2 < self.spec_systems().len() && (
                    #[trigger] self.spec_systems()[si2]).0 == (#[trigger] order@[j]) implies !old(
                        self,
                    ).spec_reservations().spec_any_conflict(
                        self.spec_systems()[si2].1.spec_accesses().spec_scheduler()@,
                    ) by {
                    if j < order@.len() - 1 {
                        assert(order_before[j] == order@[j]);
                    } else {
                        assert(self.spec_systems()[si2].0 == id);
                        assert(si2 == si as int) by {
                            if si2 != si as int {
                                assert(self.spec_systems()[si2].0 != self.spec_systems()[
                                si as int].0);
                            }
                        }
                        assert(crate::system::spec_same_system(
                            sys_before[si as int].1,
                            self.spec_systems()[si as int].1,
                        ));
                    }
                }
                assert forall|v2: int, si2: int|
                    #![trigger graph.spec_status()[v2], self.spec_systems()[si2]]
                    0 <= v2 < graph.spec_ids().len() && 0 <= si2 < self.spec_systems().len()
                        && self.spec_systems()[si2].0 == graph.spec_ids()[v2]
                        && graph.spec_status()[v2] == crate::graph::NodeStatus::Complete && !old(
                        self,
                    ).spec_reservations().spec_any_conflict(
                        self.spec_systems()[si2].1.spec_accesses().spec_scheduler()@,
                    ) implies order@.contains(graph.spec_ids()[v2]) by {
                    if v2 == v as int {
                        assert(order@[order@.len() - 1] == graph.spec_ids()[v2]);
                    } else {
                        assert(status_before[v2] == crate::graph::NodeStatus::Complete);
                        assert(sys_before[si2].0 == self.spec_systems()[si2].0);
                        assert(crate::system::spec_same_system(
                            sys_before[si2].1,
                            self.spec_systems()[si2].1,
                        ));
                        assert(order_before.contains(graph.spec_ids()[v2]));
                        let q = choose|q: int|
                            0 <= q < order_before.len() && order_before[q] == graph.spec_ids()[v2];
                        assert(order@[q] == graph.spec_ids()[v2]);
                    }
                }
                assert forall|v2: int, si2: int|
                    #![trigger graph.spec_status()[v2], self.spec_systems()[si2]]
                    0 <= v2 < graph.spec_ids().len() && 0 <= si2 < self.spec_systems().len()
                        && self.spec_systems()[si2].0 == graph.spec_ids()[v2]
                        && graph.spec_status()[v2] == crate::graph::NodeStatus::Complete
                        && !order@.contains(graph.spec_ids()[v2]) implies old(
                    self,
                ).spec_reservations().spec_any_conflict(
                    self.spec_systems()[si2].1.spec_accesses().spec_scheduler()@,
                ) by {
                    if v2 == v as int {
                        assert(order@[order@.len() - 1] == graph.spec_ids()[v2]);
                    } else {
                        assert(status_before[v2] == crate::graph::NodeStatus::Complete);
                        assert(sys_before[si2].0 == self.spec_systems()[si2].0);
                        assert(crate::system::spec_same_system(
                            sys_before[si2].1,
                            self.spec_systems()[si2].1,
                        ));
                        if order_before.contains(graph.spec_ids()[v2]) {
                            let q = choose|q: int|
                                0 <= q < order_before.len() && order_before[q] == graph.spec_ids()[
                                v2];
                            assert(order@[q] == graph.spec_ids()[v2]);
                        }
                    }
                }
                assert(old(failed)@.is_prefix_of(failed@)) by {
                    assert(forall|q: int|
                        0 <= q < failed_before.len() ==> failed@[q] == failed_before[q]);
                }
                assert forall|j: int|
                    old(failed)@.len() <= j < failed@.len() implies order@.contains(
                    #[trigger] failed@[j],
                ) by {
                    if j < failed_before.len() {
                        assert(failed@[j] == failed_before[j]);
                        assert(order_before.contains(failed_before[j]));
                        let q = choose|q: int|
                            0 <= q < order_before.len() && order_before[q] == failed_before[j];
                        assert(order@[q] == failed_before[j]);
                    } else {
                        assert(failed@[j] == id);
                        assert(order@[order@.len() - 1] == id);
                    }
                }
                assert forall|j: int|
                    0 <= j < order@.len() && old(self).spec_default_systems().contains(
                        #[trigger] order@[j],
                    ) implies self.spec_current_tick().tick.0 >= crate::tick::spec_bump(
                    old(self).spec_current_tick().tick.0,
                ) by {
                    if j == order@.len() - 1 {
                        assert(order@[j] == id);
                        if is_default {
                            crate::tick::lemma_bump_monotone(
                                old(self).spec_current_tick().tick.0,
                                mid.spec_current_tick().tick.0,
                            );
                        } else {
                            assert(mid.spec_default_systems() == old(
                                self,
                            ).spec_default_systems());
                            assert(!old(self).spec_default_systems().contains(id));
                        }
                    } else {
                        assert(order@[j] == order_before[j]);
                    }
                }
                assert forall|q: int|
                    0 <= q < order@.len() && !(#[trigger] oks[q]) implies failed@.contains(
                    order@[q],
                ) by {
                    if q < order@.len() - 1 {
                        assert(oks[q] == oks_before[q]);
                        assert(order@[q] == order_before[q]);
                        assert(failed_before.contains(order_before[q]));
                        let t = choose|t: int|
                            0 <= t < failed_before.len() && failed_before[t] == order_before[q];
                        assert(failed@[t] == order_before[q]);
                    } else {
                        assert(failed@[failed@.len() - 1] == id);
                    }
                }
                assert forall|t: int|
                    0 <= t < fpos.len() implies 0 <= (#[trigger] fpos[t]) < order@.len() && order@[
                    fpos[t]] == failed@[old(failed)@.len() + t] && !oks[fpos[t]] by {
                    if t < fpos_before.len() {
                        assert(fpos[t] == fpos_before[t]);
                        assert(order@[fpos[t]] == order_before[fpos[t]]);
                        assert(failed@[old(failed)@.len() + t] == failed_before[old(failed)@.len()
                            + t]);
                        assert(oks[fpos[t]] == oks_before[fpos[t]]);
                    } else {
                        assert(fpos[t] == order@.len() - 1);
                        assert(order@[fpos[t]] == id);
                        assert(failed@[old(failed)@.len() + t] == id);
                    }
                }
            }
        }
        proof {
            assert(forall|v: int| 0 <= v < graph.spec_ids().len() ==> !graph.spec_is_leaf(v));
        }
        let ghost pre_finish = *graph;
        graph.set_finished();
        proof {
            assert forall|v: int|
                0 <= v < graph.spec_ids().len() implies !graph.spec_is_leaf(v) by {
                assert(graph.spec_status() == pre_finish.spec_status());
                assert(graph.spec_preds() == pre_finish.spec_preds());
                assert(graph.spec_ids() == pre_finish.spec_ids());
                assert(!pre_finish.spec_is_leaf(v));
            }
        }
        (order, Ghost(oks), Ghost(fpos))
    }

    /// No system appears twice across a list of graphs.
    pub open spec fn spec_graphs_disjoint(graphs: Seq<ExecutionGraph>) -> bool {
        forall|g1: int, g2: int, v1: int, v2: int|
            #![trigger graphs[g1].spec_ids()[v1], graphs[g2].spec_ids()[v2]]
            0 <= g1 < graphs.len() && 0 <= g2 < graphs.len() && 0 <= v1 < graphs[g1].spec_ids().len()
                && 0 <= v2 < graphs[g2].spec_ids().len() && (g1 != g2 || v1 != v2)
                ==> graphs[g1].spec_ids()[v1] != graphs[g2].spec_ids()[v2]
    }

    /// Dispatch a list of execution graphs, one after the other. The
    /// returned order concatenates the graphs' own execution orders, so
    /// within each graph every edge's source still runs before its target.
    /// The ghost run record carries one success flag per run and, for each
    /// entry pushed onto `failed`, the order position of the failed run it
    /// reports.
    pub fn execute_graphs<R: SystemRunner<V>>(
        &mut self,
        graphs: &mut Vec<ExecutionGraph>,
        runner: &mut R,
        failed: &mut Vec<SystemId>,
    ) -> (res: (Vec<SystemId>, Ghost<Seq<(int, int)>>, Ghost<Seq<bool>>, Ghost<Seq<int>>))
        requires
            old(self).wf(),
            forall|g: int|
                0 <= g < old(graphs)@.len() ==> (#[trigger] old(graphs)@[g]).wf(),
            forall|g: int, v: int|
                #![trigger old(graphs)@[g].spec_status()[v]]
                0 <= g < old(graphs)@.len() && 0 <= v < old(graphs)@[g].spec_ids().len()
                    ==> old(graphs)@[g].spec_status()[v] == crate::graph::NodeStatus::Ready,
            Self::spec_graphs_disjoint(old(graphs)@),
            forall|g: int, v: int, si: int|
                #![trigger old(self).spec_systems()[si], old(graphs)@[g].spec_ids()[v]]
                0 <= g < old(graphs)@.len() && 0 <= v < old(graphs)@[g].spec_ids().len() && 0 <= si
                    < old(self).spec_systems().len() && old(self).spec_systems()[si].0 == old(
                    graphs,
                )@[g].spec_ids()[v] ==> old(self).spec_systems()[si].1.spec_status()
                    == SystemStatus::Init && old(self).spec_systems()[si].1.status_consistent(),
            forall|g: int, v: int|
                #![trigger old(graphs)@[g].spec_ids()[v]]
                0 <= g < old(graphs)@.len() && 0 <= v < old(graphs)@[g].spec_ids().len() ==> old(
                    self,
                ).spec_has_system(old(graphs)@[g].spec_ids()[v]),
        ensures
            final(self).wf(),
            Self::spec_dispatch_frame(old(self), final(self)),
            final(graphs)@.len() == old(graphs)@.len(),
            forall|g: int|
                0 <= g < old(graphs)@.len() ==> (#[trigger] final(graphs)@[g]).spec_ids() == old(
                    graphs,
                )@[g].spec_ids() && final(graphs)@[g].spec_preds() == old(graphs)@[g].spec_preds(),
            res.0@.no_duplicates(),
            res.1@.len() == res.0@.len(),
            forall|j: int|
                0 <= j < res.0@.len() ==> 0 <= (#[trigger] res.1@[j]).0 < old(graphs)@.len() && 0
                    <= res.1@[j].1 < old(graphs)@[res.1@[j].0].spec_ids().len() && old(
                    graphs,
                )@[res.1@[j].0].spec_ids()[res.1@[j].1] == res.0@[j],
            forall|j: int, si: int|
                0 <= j < res.0@.len() && 0 <= si < final(self).spec_systems().len() && (
                #[trigger] final(self).spec_systems()[si]).0 == (#[trigger] res.0@[j]) ==> !old(
                    self,
                ).spec_reservations().spec_any_conflict(
                    final(self).spec_systems()[si].1.spec_accesses().spec_scheduler()@,
                ),
            forall|g: int, u: int, v: int, j1: int, j2: int|
                #![trigger res.0@[j1], res.0@[j2], old(graphs)@[g].spec_ids()[u], old(graphs)@[g].spec_ids()[v]]
                0 <= g < old(graphs)@.len() && old(graphs)@[g].spec_has_edge(u, v) && 0 <= u < old(
                    graphs,
                )@[g].spec_ids().len() && 0 <= v < old(graphs)@[g].spec_ids().len() && 0 <= j1 <= j2
                    < res.0@.len() && res.0@[j1] == old(graphs)@[g].spec_ids()[v] && res.0@[j2]
                    == old(graphs)@[g].spec_ids()[u] ==> false,
            forall|g: int, v: int|
                #![trigger final(graphs)@[g].spec_status()[v]]
                0 <= g < old(graphs)@.len() && 0 <= v < old(graphs)@[g].spec_ids().len() ==> !final(graphs)@[g].spec_is_leaf(v),
            forall|g: int, v: int|
                #![trigger final(graphs)@[g].spec_status()[v]]
                0 <= g < old(graphs)@.len() && 0 <= v < old(graphs)@[g].spec_ids().len()
                    && res.0@.contains(old(graphs)@[g].spec_ids()[v]) ==> final(graphs)@[g].spec_status()[v]
                    == crate::graph::NodeStatus::Complete,
            forall|g: int, v: int, si: int|
                #![trigger final(graphs)@[g].spec_status()[v], final(self).spec_systems()[si]]
                0 <= g < old(graphs)@.len() && 0 <= v < old(graphs)@[g].spec_ids().len() && 0 <= si
                    < final(self).spec_systems().len() && final(self).spec_systems()[si].0 == old(
                    graphs,
                )@[g].spec_ids()[v] && final(graphs)@[g].spec_status()[v]
                    == crate::graph::NodeStatus::Complete && !old(
                    self,
                ).spec_reservations().spec_any_conflict(
                    final(self).spec_systems()[si].1.spec_accesses().spec_scheduler()@,
                ) ==> res.0@.contains(old(graphs)@[g].spec_ids()[v]),
            forall|g: int, v: int, si: int|
                #![trigger final(graphs)@[g].spec_status()[v], final(self).spec_systems()[si]]
                0 <= g < old(graphs)@.len() && 0 <= v < old(graphs)@[g].spec_ids().len() && 0 <= si
                    < final(self).spec_systems().len() && final(self).spec_systems()[si].0 == old(
                    graphs,
                )@[g].spec_ids()[v] && final(graphs)@[g].spec_status()[v]
                    == crate::graph::NodeStatus::Complete && !res.0@.contains(
                    old(graphs)@[g].spec_ids()[v],
                ) ==> old(self).spec_reservations().spec_any_conflict(
                    final(self).spec_systems()[si].1.spec_accesses().spec_scheduler()@,
                ),
            old(failed)@.is_prefix_of(final(failed)@),
            forall|j: int|
                old(failed)@.len() <= j < final(failed)@.len() ==> res.0@.contains(
                    #[trigger] final(failed)@[j],
                ),
            res.2@.len() == res.0@.len(),
            forall|q: int|
                0 <= q < res.0@.len() && !(#[trigger] res.2@[q]) ==> final(failed)@.contains(
                    res.0@[q],
                ),
            res.3@.len() == final(failed)@.len() - old(failed)@.len(),
            forall|t: int|
                0 <= t < res.3@.len() ==> 0 <= (#[trigger] res.3@[t]) < res.0@.len()
                    && res.0@[res.3@[t]] == final(failed)@[old(failed)@.len() + t]
                    && !res.2@[res.3@[t]],
            forall|j: int|
                0 <= j < res.0@.len() && old(self).spec_default_systems().contains(
                    #[trigger] res.0@[j],
                ) ==> final(self).spec_current_tick().tick.0 >= crate::tick::spec_bump(
                    old(self).spec_current_tick().tick.0,
                ),
    {
        let mut order: Vec<SystemId> = Vec::new();
        let ghost mut sources: Seq<(int, int)> = Seq::empty();
        let ghost mut oks: Seq<bool> = Seq::empty();
        let ghost mut fpos: Seq<int> = Seq::empty();
        let gn = graphs.len();
        for gi in 0..gn
            invariant
                sources.len() == order@.len(),
                forall|j: int|
                    0 <= j < order@.len() ==> 0 <= (#[trigger] sources[j]).0 < gi && 0
                        <= sources[j].1 < old(graphs)@[sources[j].0].spec_ids().len() && old(
                        graphs,
                    )@[sources[j].0].spec_ids()[sources[j].1] == order@[j],
                gn == old(graphs)@.len(),
                graphs@.len() == old(graphs)@.len(),
                self.wf(),
                old(self).wf(),
                Self::spec_dispatch_frame(old(self), self),
                Self::spec_graphs_disjoint(old(graphs)@),
                forall|g: int, v: int, si: int|
                    #![trigger old(self).spec_systems()[si], old(graphs)@[g].spec_ids()[v]]
                    0 <= g < old(graphs)@.len() && 0 <= v < old(graphs)@[g].spec_ids().len() && 0
                        <= si < old(self).spec_systems().len() && old(self).spec_systems()[si].0
                        == old(graphs)@[g].spec_ids()[v] ==> old(
                        self,
                    ).spec_systems()[si].1.spec_status() == SystemStatus::Init && old(
                        self,
                    ).spec_systems()[si].1.status_consistent(),
                forall|g: int, v: int|
                    #![trigger old(graphs)@[g].spec_ids()[v]]
                    0 <= g < old(graphs)@.len() && 0 <= v < old(graphs)@[g].spec_ids().len()
                        ==> old(self).spec_has_system(old(graphs)@[g].spec_ids()[v]),
                forall|g: int|
                    0 <= g < old(graphs)@.len() ==> (#[trigger] graphs@[g]).wf()
                        && graphs@[g].spec_ids() == old(graphs)@[g].spec_ids() && graphs@[g].spec_preds()
                        == old(graphs)@[g].spec_preds(),
                forall|g: int, v: int|
                    #![trigger graphs@[g].spec_status()[v]]
                    gi <= g < old(graphs)@.len() && 0 <= v < graphs@[g].spec_ids().len()
                        ==> graphs@[g].spec_status()[v] == crate::graph::NodeStatus::Ready,
                order@.no_duplicates(),

                forall|j: int, si: int|
                    0 <= j < order@.len() && 0 <= si < self.spec_systems().len() && (
                    #[trigger] self.spec_systems()[si]).0 == (#[trigger] order@[j]) ==> !old(
                        self,
                    ).spec_reservations().spec_any_conflict(
                        self.spec_systems()[si].1.spec_accesses().spec_scheduler()@,
                    ),
                forall|g: int, u: int, v: int, j1: int, j2: int|
                    #![trigger order@[j1], order@[j2], old(graphs)@[g].spec_ids()[u], old(graphs)@[g].spec_ids()[v]]
                    0 <= g < old(graphs)@.len() && old(graphs)@[g].spec_has_edge(u, v) && 0 <= u
                        < old(graphs)@[g].spec_ids().len() && 0 <= v < old(
                        graphs,
                    )@[g].spec_ids().len() && 0 <= j1 <= j2 < order@.len() && order@[j1] == old(
                        graphs,
                    )@[g].spec_ids()[v] && order@[j2] == old(graphs)@[g].spec_ids()[u] ==> false,
                forall|g: int, v: int|
                    #![trigger graphs@[g].spec_status()[v]]
                    0 <= g < gi && 0 <= v < old(graphs)@[g].spec_ids().len()
                        ==> !graphs@[g].spec_is_leaf(v),
                forall|g: int, v: int|
                    #![trigger graphs@[g].spec_status()[v]]
                    0 <= g < gi && 0 <= v < old(graphs)@[g].spec_ids().len() && order@.contains(
                        old(graphs)@[g].spec_ids()[v],
                    ) ==> graphs@[g].spec_status()[v] == crate::graph::NodeStatus::Complete,
                forall|g: int, v: int, si: int|
                    #![trigger graphs@[g].spec_status()[v], self.spec_systems()[si]]
                    0 <= g < gi && 0 <= v < old(graphs)@[g].spec_ids().len() && 0 <= si
                        < self.spec_systems().len() && self.spec_systems()[si].0 == old(
                        graphs,
                    )@[g].spec_ids()[v] && graphs@[g].spec_status()[v]
                        == crate::graph::NodeStatus::Complete && !old(
                        self,
                    ).spec_reservations().spec_any_conflict(
                        self.spec_systems()[si].1.spec_accesses().spec_scheduler()@,
                    ) ==> order@.contains(old(graphs)@[g].spec_ids()[v]),
                forall|g: int, v: int, si: int|
                    #![trigger graphs@[g].spec_status()[v], self.spec_systems()[si]]
                    0 <= g < gi && 0 <= v < old(graphs)@[g].spec_ids().len() && 0 <= si
                        < self.spec_systems().len() && self.spec_systems()[si].0 == old(
                        graphs,
                    )@[g].spec_ids()[v] && graphs@[g].spec_status()[v]
                        == crate::graph::NodeStatus::Complete && !order@.contains(
                        old(graphs)@[g].spec_ids()[v],
                    ) ==> old(self).spec_reservations().spec_any_conflict(
                        self.spec_systems()[si].1.spec_accesses().spec_scheduler()@,
                    ),
                old(failed)@.is_prefix_of(failed@),
                forall|j: int|
                    old(failed)@.len() <= j < failed@.len() ==> order@.contains(
                        #[trigger] failed@[j],
                    ),
                oks.len() == order@.len(),
                forall|q: int|
                    0 <= q < order@.len() && !(#[trigger] oks[q]) ==> failed@.contains(order@[q]),
                fpos.len() == failed@.len() - old(failed)@.len(),
                forall|t: int|
                    0 <= t < fpos.len() ==> 0 <= (#[trigger] fpos[t]) < order@.len()
                        && order@[fpos[t]] == failed@[old(failed)@.len() + t] && !oks[fpos[t]],
                forall|j: int|
                    0 <= j < order@.len() && old(self).spec_default_systems().contains(
                        #[trigger] order@[j],
                    ) ==> self.spec_current_tick().tick.0 >= crate::tick::spec_bump(
                        old(self).spec_current_tick().tick.0,
                    ),
        {
            let ghost self_mid = *self;
            let ghost order_before = order@;
            let ghost graphs_before = graphs@;
            proof {
                assert forall|v: int, si: int|
                    0 <= v < graphs@[gi as int].spec_ids().len() && 0 <= si
                        < self.spec_systems().len() && (#[trigger] self.spec_systems()[si]).0 == (
                    #[trigger] graphs@[gi as int].spec_ids()[v]) implies self.spec_systems()[si].1.spec_status()
                    == SystemStatus::Init && self.spec_systems()[si].1.status_consistent() by {
                    assert(graphs@[gi as int].wf());
                    assert(graphs@[gi as int].spec_ids() == old(graphs)@[gi as int].spec_ids());
                    assert(old(self).spec_systems()[si].0 == self.spec_systems()[si].0);
                    assert(crate::system::spec_same_system(
                        old(self).spec_systems()[si].1,
                        self.spec_systems()[si].1,
                    ));
                    assert(old(graphs)@[gi as int].spec_ids()[v] == graphs@[gi as int].spec_ids()[v]);
                    assert(old(self).spec_systems()[si].0 == old(
                        graphs,
                    )@[gi as int].spec_ids()[v]);
                    assert(old(self).spec_systems()[si].1.spec_status() == SystemStatus::Init);
                    assert(old(self).spec_systems()[si].1.status_consistent());
                }
                assert forall|v: int|
                    0 <= v < graphs@[gi as int].spec_ids().len() implies self.spec_has_system(
                    #[trigger] graphs@[gi as int].spec_ids()[v],
                ) by {
                    assert(old(self).spec_has_system(old(graphs)@[gi as int].spec_ids()[v]));
                    let j = choose|j: int|
                        0 <= j < old(self).spec_systems().len() && (#[trigger] old(
                            self,
                        ).spec_systems()[j]).0 == old(graphs)@[gi as int].spec_ids()[v];
                    assert(self.spec_systems()[j].0 == graphs@[gi as int].spec_ids()[v]);
                }
            }
            let ghost failed_at_call = failed@;
            let ghost tick_at_call = self.spec_current_tick().tick.0;
            let sub = {
                let graph = &mut graphs[gi];
                self.execute_graph(graph, runner, failed)
            };
            let ghost sub_view = sub.0@;
            let ghost sub_oks = sub.1@;
            let ghost sub_fpos = sub.2@;
            let suborder = sub.0;
            let mut rest = suborder;
            let sn = rest.len();
            let mut k: usize = 0;
            while k < sn
                invariant
                    sn == sub_view.len(),
                    rest@ == sub_view,
                    k <= sn,
                    order@ == order_before + sub_view.take(k as int),
                decreases sn - k,
            {
                order.push(rest[k]);
                proof {
                    assert(order@ =~= order_before + sub_view.take(k + 1));
                }
                k = k + 1;
            }
            proof {
                assert(sub_view.take(sn as int) =~= sub_view);
                assert(order@ == order_before + sub_view);
                let offset = order_before.len() as int;
                let ghost sources_before = sources;
                sources = sources + Seq::new(
                    sub_view.len(),
                    |k: int|
                        (
                            gi as int,
                            choose|v2: int|
                                0 <= v2 < graphs_before[gi as int].spec_ids().len() && (
                                #[trigger] graphs_before[gi as int].spec_ids()[v2]) == sub_view[k],
                        ),
                );
                assert forall|j: int|
                    0 <= j < order@.len() implies 0 <= (#[trigger] sources[j]).0 < gi + 1 && 0
                    <= sources[j].1 < old(graphs)@[sources[j].0].spec_ids().len() && old(
                    graphs,
                )@[sources[j].0].spec_ids()[sources[j].1] == order@[j] by {
                    if j < offset {
                        assert(sources[j] == sources_before[j]);
                        assert(order@[j] == order_before[j]);
                    } else {
                        assert(graphs_before[gi as int].spec_ids().contains(sub_view[j - offset]));
                        let v2 = choose|v2: int|
                            0 <= v2 < graphs_before[gi as int].spec_ids().len() && (
                            #[trigger] graphs_before[gi as int].spec_ids()[v2]) == sub_view[j
                                - offset];
                        assert(sources[j] == (gi as int, v2));
                        assert(old(graphs)@[gi as int].spec_ids()[v2] == order@[j]);
                    }
                }
                assert forall|a: int, b: int|
                    0 <= a < b < order@.len() implies order@[a] != order@[b] by {
                    if b < offset {
                        assert(order@[a] == order_before[a] && order@[b] == order_before[b]);
                    } else if a >= offset {
                        assert(order@[a] == sub_view[a - offset] && order@[b] == sub_view[b
                            - offset]);
                    } else {
                        let (g1, v1) = sources[a];
                        let (g2, v2) = sources[b];
                        assert(old(graphs)@[g1].spec_ids()[v1] == order@[a]);
                        assert(old(graphs)@[g2].spec_ids()[v2] == order@[b]);
                        assert(g1 < gi && g2 == gi as int);
                        assert(old(graphs)@[g1].spec_ids()[v1] != old(
                            graphs,
                        )@[g2].spec_ids()[v2]);
                    }
                }
                assert forall|j: int, si: int|
                    0 <= j < order@.len() && 0 <= si < self.spec_systems().len() && (
                    #[trigger] self.spec_systems()[si]).0 == (#[trigger] order@[j]) implies !old(
                        self,
                    ).spec_reservations().spec_any_conflict(
                        self.spec_systems()[si].1.spec_accesses().spec_scheduler()@,
                    ) by {
                    if j < offset {
                        assert(self_mid.spec_systems()[si].0 == self.spec_systems()[si].0);
                        assert(crate::system::spec_same_system(
                            self_mid.spec_systems()[si].1,
                            self.spec_systems()[si].1,
                        ));
                        assert(order_before[j] == order@[j]);
                    } else {
                        assert(sub_view[j - offset] == order@[j]);
                        assert(self_mid.spec_reservations() == old(self).spec_reservations());
                    }
                }
                assert forall|g: int, u: int, v: int, j1: int, j2: int|
                    #![trigger order@[j1], order@[j2], old(graphs)@[g].spec_ids()[u], old(graphs)@[g].spec_ids()[v]]
                    0 <= g < old(graphs)@.len() && old(graphs)@[g].spec_has_edge(u, v) && 0 <= u
                        < old(graphs)@[g].spec_ids().len() && 0 <= v < old(
                        graphs,
                    )@[g].spec_ids().len() && 0 <= j1 <= j2 < order@.len() && order@[j1] == old(
                        graphs,
                    )@[g].spec_ids()[v] && order@[j2] == old(graphs)@[g].spec_ids()[u] implies false by {
                    if j2 < offset {
                        assert(order@[j1] == order_before[j1] && order@[j2] == order_before[j2]);
                    } else if j1 >= offset {
                        let (g1, v1) = (g, v);
                        if g != gi as int {
                            let v2 = choose|v2: int|
                                0 <= v2 < graphs_before[gi as int].spec_ids().len() && (
                                #[trigger] graphs_before[gi as int].spec_ids()[v2]) == sub_view[j1
                                    - offset];
                            assert(old(graphs)@[gi as int].spec_ids()[v2] == old(
                                graphs,
                            )@[g].spec_ids()[v]);
                        } else {
                            assert(graphs_before[gi as int].spec_has_edge(u, v));
                            assert(sub_view[j1 - offset] == graphs_before[gi as int].spec_ids()[v]);
                            assert(sub_view[j2 - offset] == graphs_before[gi as int].spec_ids()[u]);
                        }
                    } else {
                        assert(order@[j1] == order_before[j1]);
                        let (g1, v1) = sources[j1];
                        assert(old(graphs)@[g1].spec_ids()[v1] == order@[j1] && g1 < gi);
                        if g == gi as int {
                            let v2 = choose|v2: int|
                                0 <= v2 < graphs_before[gi as int].spec_ids().len() && (
                                #[trigger] graphs_before[gi as int].spec_ids()[v2]) == sub_view[j2
                                    - offset];
                            assert(old(graphs)@[g1].spec_ids()[v1] == old(
                                graphs,
                            )@[g].spec_ids()[v]);
                        } else {
                            let v2 = choose|v2: int|
                                0 <= v2 < graphs_before[gi as int].spec_ids().len() && (
                                #[trigger] graphs_before[gi as int].spec_ids()[v2]) == sub_view[j2
                                    - offset];
                            assert(old(graphs)@[gi as int].spec_ids()[v2] == old(
                                graphs,
                            )@[g].spec_ids()[u]);
                        }
                    }
                }
                assert forall|j: int|
                    0 <= j < old(self).spec_systems().len() implies (
                #[trigger] self.spec_systems()[j]).0 == (#[trigger] old(self).spec_systems()[j]).0
                    && crate::system::spec_same_system(
                    old(self).spec_systems()[j].1,
                    self.spec_systems()[j].1,
                ) by {
                    assert(crate::system::spec_same_system(
                        old(self).spec_systems()[j].1,
                        self_mid.spec_systems()[j].1,
                    ));
                    assert(crate::system::spec_same_system(
                        self_mid.spec_systems()[j].1,
                        self.spec_systems()[j].1,
                    ));
                }
                assert forall|g: int, v: int|
                    #![trigger graphs@[g].spec_status()[v]]
                    0 <= g < gi + 1 && 0 <= v < old(graphs)@[g].spec_ids().len() implies !graphs@[g].spec_is_leaf(
                    v,
                ) by {
                    if g < gi {
                        assert(graphs@[g] == graphs_before[g]);
                    }
                }
                assert forall|g: int, v: int|
                    #![trigger graphs@[g].spec_status()[v]]
                    0 <= g < gi + 1 && 0 <= v < old(graphs)@[g].spec_ids().len()
                        && order@.contains(old(graphs)@[g].spec_ids()[v]) implies graphs@[g].spec_status()[v]
                    == crate::graph::NodeStatus::Complete by {
                    let x = old(graphs)@[g].spec_ids()[v];
                    let j = choose|j: int| 0 <= j < order@.len() && order@[j] == x;
                    if g == gi as int {
                        assert(!order_before.contains(x)) by {
                            if order_before.contains(x) {
                                let q0 = choose|q0: int|
                                    0 <= q0 < order_before.len() && order_before[q0] == x;
                                let (g1, v1) = sources_before[q0];
                                assert(old(graphs)@[g1].spec_ids()[v1] == x);
                                assert(g1 != gi as int);
                                assert(old(graphs)@[g1].spec_ids()[v1] != old(
                                    graphs,
                                )@[gi as int].spec_ids()[v]);
                            }
                        }
                        assert(j >= offset);
                        assert(sub_view[j - offset] == x);
                        assert(sub_view.contains(x));
                    } else {
                        assert(graphs@[g] == graphs_before[g]);
                        assert(order_before.contains(x)) by {
                            if j < offset {
                                assert(order_before[j] == x);
                            } else {
                                assert(sub_view[j - offset] == x);
                                assert(graphs_before[gi as int].spec_ids().contains(x));
                                let v2 = choose|v2: int|
                                    0 <= v2 < graphs_before[gi as int].spec_ids().len() && (
                                    #[trigger] graphs_before[gi as int].spec_ids()[v2]) == x;
                                assert(old(graphs)@[gi as int].spec_ids()[v2] == old(
                                    graphs,
                                )@[g].spec_ids()[v]);
                            }
                        }
                    }
                }
                assert forall|g: int, v: int, si: int|
                    #![trigger graphs@[g].spec_status()[v], self.spec_systems()[si]]
                    0 <= g < gi + 1 && 0 <= v < old(graphs)@[g].spec_ids().len() && 0 <= si
                        < self.spec_systems().len() && self.spec_systems()[si].0 == old(
                        graphs,
                    )@[g].spec_ids()[v] && graphs@[g].spec_status()[v]
                        == crate::graph::NodeStatus::Complete && !old(
                        self,
                    ).spec_reservations().spec_any_conflict(
                        self.spec_systems()[si].1.spec_accesses().spec_scheduler()@,
                    ) implies order@.contains(old(graphs)@[g].spec_ids()[v]) by {
                    if g == gi as int {
                        assert(sub_view.contains(old(graphs)@[g].spec_ids()[v]));
                        let q = choose|q: int|
                            0 <= q < sub_view.len() && sub_view[q] == old(graphs)@[g].spec_ids()[
                            v];
                        assert(order@[offset + q] == old(graphs)@[g].spec_ids()[v]);
                    } else {
                        assert(graphs@[g] == graphs_before[g]);
                        assert(self_mid.spec_systems()[si].0 == self.spec_systems()[si].0);
                        assert(crate::system::spec_same_system(
                            self_mid.spec_systems()[si].1,
                            self.spec_systems()[si].1,
                        ));
                        assert(order_before.contains(old(graphs)@[g].spec_ids()[v]));
                        let q = choose|q: int|
                            0 <= q < order_before.len() && order_before[q] == old(
                                graphs,
                            )@[g].spec_ids()[v];
                        assert(order@[q] == old(graphs)@[g].spec_ids()[v]);
                    }
                }
                assert forall|g: int, v: int, si: int|
                    #![trigger graphs@[g].spec_status()[v], self.spec_systems()[si]]
                    0 <= g < gi + 1 && 0 <= v < old(graphs)@[g].spec_ids().len() && 0 <= si
                        < self.spec_systems().len() && self.spec_systems()[si].0 == old(
                        graphs,
                    )@[g].spec_ids()[v] && graphs@[g].spec_status()[v]
                        == crate::graph::NodeStatus::Complete && !order@.contains(
                        old(graphs)@[g].spec_ids()[v],
                    ) implies old(self).spec_reservations().spec_any_conflict(
                        self.spec_systems()[si].1.spec_accesses().spec_scheduler()@,
                    ) by {
                    assert(!order_before.contains(old(graphs)@[g].spec_ids()[v])) by {
                        if order_before.contains(old(graphs)@[g].spec_ids()[v]) {
                            let q = choose|q: int|
                                0 <= q < order_before.len() && order_before[q] == old(
                                    graphs,
                                )@[g].spec_ids()[v];
                            assert(order@[q] == old(graphs)@[g].spec_ids()[v]);
                        }
                    }
                    if g == gi as int {
                        assert(!sub_view.contains(old(graphs)@[g].spec_ids()[v])) by {
                            if sub_view.contains(old(graphs)@[g].spec_ids()[v]) {
                                let q = choose|q: int|
                                    0 <= q < sub_view.len() && sub_view[q] == old(
                                        graphs,
                                    )@[g].spec_ids()[v];
                                assert(order@[offset + q] == old(graphs)@[g].spec_ids()[v]);
                            }
                        }
                        assert(self_mid.spec_reservations() == old(self).spec_reservations());
                    } else {
                        assert(graphs@[g] == graphs_before[g]);
                        assert(self_mid.spec_systems()[si].0 == self.spec_systems()[si].0);
                        assert(crate::system::spec_same_system(
                            self_mid.spec_systems()[si].1,
                            self.spec_systems()[si].1,
                        ));
                    }
                }
                assert(old(failed)@.is_prefix_of(failed@)) by {
                    assert(forall|q: int|
                        0 <= q < old(failed)@.len() ==> failed@[q] == failed_at_call[q]);
                }
                assert forall|j: int|
                    old(failed)@.len() <= j < failed@.len() implies order@.contains(
                    #[trigger] failed@[j],
                ) by {
                    if j < failed_at_call.len() {
                        assert(failed@[j] == failed_at_call[j]);
                        assert(order_before.contains(failed_at_call[j]));
                        let q = choose|q: int|
                            0 <= q < order_before.len() && order_before[q] == failed_at_call[j];
                        assert(order@[q] == failed_at_call[j]);
                    } else {
                        assert(sub_view.contains(failed@[j]));
                        let q = choose|q: int| 0 <= q < sub_view.len() && sub_view[q] == failed@[j];
                        assert(order@[offset + q] == failed@[j]);
                    }
                }
                assert forall|j: int|
                    0 <= j < order@.len() && old(self).spec_default_systems().contains(
                        #[trigger] order@[j],
                    ) implies self.spec_current_tick().tick.0 >= crate::tick::spec_bump(
                    old(self).spec_current_tick().tick.0,
                ) by {
                    if j >= offset {
                        assert(order@[j] == sub_view[j - offset]);
                        assert(self_mid.spec_default_systems() == old(
                            self,
                        ).spec_default_systems());
                        crate::tick::lemma_bump_monotone(
                            old(self).spec_current_tick().tick.0,
                            tick_at_call,
                        );
                    } else {
                        assert(order@[j] == order_before[j]);
                    }
                }
                let ghost oks_before = oks;
                let ghost fpos_before = fpos;
                oks = oks + sub_oks;
                fpos = fpos + Seq::new(sub_fpos.len(), |t: int| sub_fpos[t] + offset);
                assert forall|q: int|
                    0 <= q < order@.len() && !(#[trigger] oks[q]) implies failed@.contains(
                    order@[q],
                ) by {
                    if q < offset {
                        assert(oks[q] == oks_before[q]);
                        assert(order@[q] == order_before[q]);
                        assert(failed_at_call.contains(order_before[q]));
                        let t = choose|t: int|
                            0 <= t < failed_at_call.len() && failed_at_call[t] == order_before[q];
                        assert(failed@[t] == failed_at_call[t]);
                    } else {
                        assert(oks[q] == sub_oks[q - offset]);
                        assert(order@[q] == sub_view[q - offset]);
                    }
                }
                assert forall|t: int|
                    0 <= t < fpos.len() implies 0 <= (#[trigger] fpos[t]) < order@.len() && order@[
                    fpos[t]] == failed@[old(failed)@.len() + t] && !oks[fpos[t]] by {
                    if t < fpos_before.len() {
                        assert(fpos[t] == fpos_before[t]);
                        assert(order@[fpos[t]] == order_before[fpos[t]]);
                        assert(failed@[old(failed)@.len() + t] == failed_at_call[old(failed)@.len()
                            + t]);
                        assert(oks[fpos[t]] == oks_before[fpos[t]]);
                    } else {
                        let x = t - fpos_before.len();
                        assert(fpos[t] == sub_fpos[x] + offset);
                        assert(order@[fpos[t]] == sub_view[sub_fpos[x]]);
                        assert(sub_view[sub_fpos[x]] == failed@[failed_at_call.len() + x]);
                        assert(failed_at_call.len() + x == old(failed)@.len() + t);
                        assert(oks[fpos[t]] == sub_oks[sub_fpos[x]]);
                    }
                }
            }
        }
        (order, Ghost(sources), Ghost(oks), Ghost(fpos))
    }

    /// One foreground step: insert the phase's marker event, filter the
    /// candidates, post their wake events and the triggered bubble events,
    /// build the execution graph, dispatch it, and remove the marker so it
    /// scopes exactly this phase. Systems listed in the current interrupt
    /// set never run here.
    #[verifier::rlimit(100)]
    fn run_foreground_phase<R: SystemRunner<V>>(
        &mut self,
        phase: Phase,
        runner: &mut R,
        failed: &mut Vec<SystemId>,
    ) -> (order: Vec<SystemId>)
        requires
            old(self).wf(),
            !old(self).spec_current_events().contains(spec_phase_marker(phase)),
            forall|si: int|
                0 <= si < old(self).spec_systems().len() && !old(
                    self,
                ).spec_current_interrupts().contains((#[trigger] old(self).spec_systems()[si]).0)
                    ==> old(self).spec_systems()[si].1.spec_status() == SystemStatus::Init && old(
                    self,
                ).spec_systems()[si].1.status_consistent(),
        ensures
            final(self).wf(),
            Self::spec_dispatch_frame(old(self), final(self)),
            final(self).spec_current_events() == old(self).spec_current_events(),
            order@.no_duplicates(),
            forall|j: int|
                0 <= j < order@.len() ==> !old(self).spec_current_interrupts().contains(
                    #[trigger] order@[j],
                ),
            forall|j: int, si: int|
                0 <= j < order@.len() && 0 <= si < final(self).spec_systems().len() && (
                #[trigger] final(self).spec_systems()[si]).0 == (#[trigger] order@[j]) ==> !old(
                    self,
                ).spec_reservations().spec_any_conflict(
                    final(self).spec_systems()[si].1.spec_accesses().spec_scheduler()@,
                ),
            old(failed)@.is_prefix_of(final(failed)@),
            forall|j: int|
                old(failed)@.len() <= j < final(failed)@.len() ==> order@.contains(
                    #[trigger] final(failed)@[j],
                ),
            forall|j: int|
                0 <= j < order@.len() && old(self).spec_default_systems().contains(
                    #[trigger] order@[j],
                ) ==> final(self).spec_current_tick().tick.0 >= crate::tick::spec_bump(
                    old(self).spec_current_tick().tick.0,
                ),
            forall|si: int|
                #![trigger old(self).spec_systems()[si]]
                old(self).spec_foreground_candidate_with_events(
                    phase,
                    old(self).spec_current_events().insert(spec_phase_marker(phase)),
                    si,
                ) && !old(self).spec_reservations().spec_any_conflict(
                    old(self).spec_systems()[si].1.spec_accesses().spec_scheduler()@,
                ) ==> order@.contains(old(self).spec_systems()[si].0) || (exists|sj: int|
                    0 <= sj < old(self).spec_systems().len() && #[trigger] old(
                        self,
                    ).spec_foreground_candidate_with_events(
                        phase,
                        old(self).spec_current_events().insert(spec_phase_marker(phase)),
                        sj,
                    ) && (old(self).spec_systems()[sj].1.spec_ordering().before@.contains(
                        old(self).spec_systems()[si].0,
                    ) || old(self).spec_systems()[si].1.spec_ordering().after@.contains(
                        old(self).spec_systems()[sj].0,
                    )) && !order@.contains(old(self).spec_systems()[sj].0)),
    {
        let marker = phase_marker(&phase);
        self.current_events.insert(marker);
        let ghost self_at_collect0 = *self;
        let candidates = self.collect_foreground_candidates(phase);
        if candidates.len() == 0 {
            self.current_events.remove(&marker);
            proof {
                assert(final(self).spec_current_events() =~= old(self).spec_current_events());
                assert forall|si: int|
                    #![trigger old(self).spec_systems()[si]]
                    old(self).spec_foreground_candidate_with_events(
                        phase,
                        old(self).spec_current_events().insert(spec_phase_marker(phase)),
                        si,
                    ) implies false by {
                    assert(self_at_collect0.spec_current_events() == old(
                        self,
                    ).spec_current_events().insert(spec_phase_marker(phase)));
                    assert(self_at_collect0.spec_foreground_candidate(phase, si));
                }
            }
            return Vec::new();
        }
        let ghost self_at_collect = *self;
        let cn = candidates.len();
        for k in 0..cn
            invariant
                cn == candidates@.len(),
                self.wf(),
                forall|j: int|
                    0 <= j < candidates@.len() ==> (#[trigger] candidates@[j]) < self.spec_systems().len(),
                self.spec_systems() == self_at_collect.spec_systems(),
                self.spec_current_events() == self_at_collect.spec_current_events(),
                self.spec_current_interrupts() == self_at_collect.spec_current_interrupts(),
                self.spec_reservations() == self_at_collect.spec_reservations(),
                self.spec_background() == self_at_collect.spec_background(),
                self.spec_blacklists() == self_at_collect.spec_blacklists(),
                self.spec_resources() == self_at_collect.spec_resources(),
                self.spec_system_resources() == self_at_collect.spec_system_resources(),
                self.spec_new_resources() == self_at_collect.spec_new_resources(),
                self.spec_current_tick() == self_at_collect.spec_current_tick(),
                self.spec_catfishes() == self_at_collect.spec_catfishes(),
                self.spec_bubbles() == self_at_collect.spec_bubbles(),
                self.spec_default_systems() == self_at_collect.spec_default_systems(),
                self.spec_threads() == self_at_collect.spec_threads(),
                self.spec_new_interrupts() == self_at_collect.spec_new_interrupts(),
                self_at_collect.spec_new_events().subset_of(self.spec_new_events()),
        {
            let idx = candidates[k];
            let id = self.systems[idx].0;
            let _ = self.new_events.insert(SchedulerEvent(id.0));
        }
        let bn = self.bubbles.len();
        for b in 0..bn
            invariant
                bn == self.spec_bubbles().len(),
                self.wf(),
                self.spec_systems() == self_at_collect.spec_systems(),
                self.spec_current_events() == self_at_collect.spec_current_events(),
                self.spec_current_interrupts() == self_at_collect.spec_current_interrupts(),
                self.spec_reservations() == self_at_collect.spec_reservations(),
                self.spec_background() == self_at_collect.spec_background(),
                self.spec_blacklists() == self_at_collect.spec_blacklists(),
                self.spec_resources() == self_at_collect.spec_resources(),
                self.spec_system_resources() == self_at_collect.spec_system_resources(),
                self.spec_new_resources() == self_at_collect.spec_new_resources(),
                self.spec_current_tick() == self_at_collect.spec_current_tick(),
                self.spec_catfishes() == self_at_collect.spec_catfishes(),
                self.spec_bubbles() == self_at_collect.spec_bubbles(),
                self.spec_default_systems() == self_at_collect.spec_default_systems(),
                self.spec_threads() == self_at_collect.spec_threads(),
                self.spec_new_interrupts() == self_at_collect.spec_new_interrupts(),
                self_at_collect.spec_new_events().subset_of(self.spec_new_events()),
        {
            let fired = self.bubbles[b].2.matches(&self.current_events);
            if fired {
                let ev = self.bubbles[b].1;
                let _ = self.new_events.insert(ev);
            }
        }
        let mut pairs: Vec<(SystemId, SchedulerOrdering)> = Vec::new();
        for k in 0..cn
            invariant
                cn == candidates@.len(),
                self.wf(),
                pairs@.len() == k,
                self.spec_current_events() == self_at_collect.spec_current_events(),
                self.spec_current_interrupts() == self_at_collect.spec_current_interrupts(),
                self.spec_reservations() == self_at_collect.spec_reservations(),
                self.spec_background() == self_at_collect.spec_background(),
                self.spec_blacklists() == self_at_collect.spec_blacklists(),
                self.spec_resources() == self_at_collect.spec_resources(),
                self.spec_system_resources() == self_at_collect.spec_system_resources(),
                self.spec_new_resources() == self_at_collect.spec_new_resources(),
                self.spec_current_tick() == self_at_collect.spec_current_tick(),
                self.spec_catfishes() == self_at_collect.spec_catfishes(),
                self.spec_bubbles() == self_at_collect.spec_bubbles(),
                self.spec_default_systems() == self_at_collect.spec_default_systems(),
                self.spec_threads() == self_at_collect.spec_threads(),
                self.spec_new_interrupts() == self_at_collect.spec_new_interrupts(),
                self_at_collect.spec_new_events().subset_of(self.spec_new_events()),
                forall|j: int|
                    0 <= j < candidates@.len() ==> (#[trigger] candidates@[j]) < self.spec_systems().len(),
                forall|j: int|
                    0 <= j < candidates@.len() ==> self_at_collect.spec_foreground_candidate(
                        phase,
                        (#[trigger] candidates@[j]) as int,
                    ),
                candidates@.no_duplicates(),
                self.spec_systems() == self_at_collect.spec_systems(),
                forall|j: int|
                    0 <= j < k ==> (#[trigger] pairs@[j]).0 == self.spec_systems()[candidates@[j]
                        as int].0,
                forall|j: int|
                    0 <= j < k ==> ((#[trigger] pairs@[j]).1.before@ == self.spec_systems()[
                    candidates@[j] as int].1.spec_ordering().before@ && pairs@[j].1.after@
                        == self.spec_systems()[candidates@[j] as int].1.spec_ordering().after@),
        {
            let idx = candidates[k];
            let id = self.systems[idx].0;
            let ord = self.systems[idx].1.ordering().clone();
            pairs.push((id, ord));
            proof {
                assert(pairs@.drop_last() =~= pairs@.take(k as int));
            }
        }
        proof {
            assert forall|a: int, b2: int| 0 <= a < b2 < pairs@.len() implies (
            #[trigger] pairs@[a]).0 != (#[trigger] pairs@[b2]).0 by {
                assert(candidates@[a] != candidates@[b2]);
                assert(self.spec_systems()[candidates@[a] as int].0 != self.spec_systems()[
                candidates@[b2] as int].0);
            }
        }
        let mut graphs: Vec<ExecutionGraph> = Vec::new();
        graphs.push(ExecutionGraph::new(&pairs));
        let ghost graphs_at_call = graphs@;
        proof {
            assert(graphs@[0].spec_ids().len() == pairs@.len());
            assert forall|g1: int, g2: int, v1: int, v2: int|
                #![trigger graphs@[g1].spec_ids()[v1], graphs@[g2].spec_ids()[v2]]
                0 <= g1 < graphs@.len() && 0 <= g2 < graphs@.len() && 0 <= v1 < graphs@[g1].spec_ids().len()
                    && 0 <= v2 < graphs@[g2].spec_ids().len() && (g1 != g2 || v1 != v2) implies graphs@[g1].spec_ids()[v1]
                != graphs@[g2].spec_ids()[v2] by {
                assert(g1 == 0 && g2 == 0);
                assert(graphs@[0].spec_ids()[v1] == pairs@[v1].0);
                assert(graphs@[0].spec_ids()[v2] == pairs@[v2].0);
            }
            assert forall|g: int, v: int, si: int|
                #![trigger self.spec_systems()[si], graphs@[g].spec_ids()[v]]
                0 <= g < graphs@.len() && 0 <= v < graphs@[g].spec_ids().len() && 0 <= si
                    < self.spec_systems().len() && self.spec_systems()[si].0 == graphs@[g].spec_ids()[v]
                    implies self.spec_systems()[si].1.spec_status() == SystemStatus::Init
                && self.spec_systems()[si].1.status_consistent() by {
                assert(g == 0);
                assert(graphs@[0].spec_ids()[v] == pairs@[v].0);
                assert(pairs@[v].0 == self.spec_systems()[candidates@[v] as int].0);
                assert(self_at_collect.spec_foreground_candidate(phase, candidates@[v] as int));
                assert(!self_at_collect.spec_current_interrupts().contains(
                    self.spec_systems()[candidates@[v] as int].0,
                ));
                assert(!old(self).spec_current_interrupts().contains(self.spec_systems()[si].0));
            }
            assert forall|g: int, v: int|
                #![trigger graphs@[g].spec_ids()[v]]
                0 <= g < graphs@.len() && 0 <= v < graphs@[g].spec_ids().len() implies self.spec_has_system(
                graphs@[g].spec_ids()[v],
            ) by {
                assert(g == 0);
                assert(graphs@[0].spec_ids()[v] == pairs@[v].0);
                assert(self.spec_systems()[candidates@[v] as int].0 == graphs@[0].spec_ids()[v]);
            }
        }
        let ghost self_at_call = *self;
        let res = self.execute_graphs(&mut graphs, runner, failed);
        let order = res.0;
        let ghost sources = res.1@;
        proof {
            assert forall|j: int|
                0 <= j < order@.len() implies !old(self).spec_current_interrupts().contains(
                #[trigger] order@[j],
            ) by {
                let (g, v) = sources[j];
                assert(g == 0);
                assert(graphs_at_call[0].spec_ids()[v] == order@[j]);
                assert(graphs_at_call[0].spec_ids()[v] == pairs@[v].0);
                assert(pairs@[v].0 == self_at_collect.spec_systems()[candidates@[v] as int].0);
                assert(self_at_collect.spec_foreground_candidate(phase, candidates@[v] as int));
            }
        }
        proof {
            lemma_phase_completeness::<V>(
                *old(self),
                *self,
                self_at_collect,
                phase,
                candidates@,
                pairs@,
                graphs_at_call[0],
                graphs@[0],
                order@,
            );
        }
        self.current_events.remove(&marker);
        proof {
            assert(final(self).spec_current_events() =~= old(self).spec_current_events());
            assert forall|j: int|
                0 <= j < old(self).spec_systems().len() implies (
            #[trigger] final(self).spec_systems()[j]).0 == (#[trigger] old(
                self,
            ).spec_systems()[j]).0 && crate::system::spec_same_system(
                old(self).spec_systems()[j].1,
                final(self).spec_systems()[j].1,
            ) by {
                assert(crate::system::spec_same_system(
                    self_at_call.spec_systems()[j].1,
                    final(self).spec_systems()[j].1,
                ));
            }
        }
        order
    }

    /// The `BackgroundEnd` phase: poll each running background system;
    /// for each that finished, apply its outcome, restore its callable,
    /// release its reservation, reset its status, and post its identifier
    /// as an event.
    fn phase_background_end<R: SystemRunner<V>>(
        &mut self,
        runner: &mut R,
        finished: &mut Vec<SystemId>,
    )
        requires
            old(self).wf(),
        ensures
            final(self).wf(),
            final(self).spec_current_events() == old(self).spec_current_events(),
            final(self).spec_current_interrupts() == old(self).spec_current_interrupts(),
            final(self).spec_blacklists() == old(self).spec_blacklists(),
            final(self).spec_catfishes() == old(self).spec_catfishes(),
            final(self).spec_bubbles() == old(self).spec_bubbles(),
            final(self).spec_default_systems() == old(self).spec_default_systems(),
            final(self).spec_threads() == old(self).spec_threads(),
            final(self).spec_resources()@.dom() == old(self).spec_resources()@.dom(),
            old(self).spec_new_events().subset_of(final(self).spec_new_events()),
            old(self).spec_new_interrupts().subset_of(final(self).spec_new_interrupts()),
            final(self).spec_current_tick().tick.0 >= old(self).spec_current_tick().tick.0,
            final(self).spec_systems().len() == old(self).spec_systems().len(),
            forall|si: int|
                0 <= si < old(self).spec_systems().len() ==> (#[trigger] final(self).spec_systems()[si]).0 == old(self).spec_systems()[si].0,
            forall|si: int|
                0 <= si < old(self).spec_systems().len() ==> crate::system::spec_same_system(
                    old(self).spec_systems()[si].1,
                    (#[trigger] final(self).spec_systems()[si]).1,
                ) || ((final(self).spec_systems()[si].1.spec_status() == SystemStatus::Init)
                    && final(self).spec_systems()[si].1.status_consistent()
                    && crate::system::spec_executed_variant_fields(
                    old(self).spec_systems()[si].1,
                    final(self).spec_systems()[si].1,
                )),
            forall|j: int|
                0 <= j < final(self).spec_background().len() ==> old(
                    self,
                ).spec_background_ids().contains((#[trigger] final(self).spec_background()[j]).0),
            forall|si: int|
                0 <= si < final(self).spec_systems().len() && !final(self).spec_background_ids().contains((#[trigger] final(self).spec_systems()[si]).0)
                    ==> (crate::system::spec_same_system(
                    old(self).spec_systems()[si].1,
                    final(self).spec_systems()[si].1,
                ) && !old(self).spec_background_ids().contains(final(self).spec_systems()[si].0))
                    || (final(self).spec_systems()[si].1.spec_status() == SystemStatus::Init
                    && final(self).spec_systems()[si].1.status_consistent()),
            final(self).spec_system_resources().len() == old(self).spec_system_resources().len(),
            forall|j: int|
                0 <= j < old(self).spec_system_resources().len() ==> (#[trigger] final(self).spec_system_resources()[j]).0 == old(self).spec_system_resources()[j].0,
            old(finished)@.is_prefix_of(final(finished)@),
            forall|j: int|
                old(finished)@.len() <= j < final(finished)@.len() ==> old(
                    self,
                ).spec_background_ids().contains(#[trigger] final(finished)@[j]) && final(self).spec_new_events().contains(SchedulerEvent(final(finished)@[j].0)) && !final(self).spec_reservations().spec_contains(final(finished)@[j]) && !final(self).spec_background_ids().contains(final(finished)@[j]),
            forall|j: int|
                0 <= j < final(self).spec_reservations().spec_entries().len() ==> old(
                    self,
                ).spec_reservations().spec_contains(
                    (#[trigger] final(self).spec_reservations().spec_entries()[j]).0,
                ),
            forall|j: int, l: int|
                0 <= j < final(self).spec_reservations().spec_entries().len() && 0 <= l < old(
                    self,
                ).spec_reservations().spec_entries().len() && (#[trigger] final(self).spec_reservations().spec_entries()[j]).0 == (#[trigger] old(
                    self,
                ).spec_reservations().spec_entries()[l]).0 ==> final(self).spec_reservations().spec_entries()[j] == old(
                    self,
                ).spec_reservations().spec_entries()[l],
            forall|l: int|
                0 <= l < old(self).spec_reservations().spec_entries().len() && !final(finished)@.contains((#[trigger] old(self).spec_reservations().spec_entries()[l]).0)
                    ==> final(self).spec_reservations().spec_contains(
                    old(self).spec_reservations().spec_entries()[l].0,
                ),
            forall|l: int|
                0 <= l < old(self).spec_background().len() ==> final(finished)@.contains(
                    (#[trigger] old(self).spec_background()[l]).0,
                ) || final(self).spec_background_ids().contains(old(self).spec_background()[l].0),
    {
        let mut bg: Vec<(SystemId, InnerStoredSystem)> = Vec::new();
        core::mem::swap(&mut bg, &mut self.current_background_systems);
        let ghost bg0 = bg@;
        let ghost n = bg0.len() as int;
        let mut still: Vec<(SystemId, InnerStoredSystem)> = Vec::new();

        while bg.len() > 0
            invariant
                n == bg0.len(),
                bg@.len() <= n,
                bg@ == bg0.take(bg@.len() as int),
                crate::tagmap::unique_keys(bg0),
                self.wf(),
                old(self).wf(),
                old(self).spec_background() == bg0,
                crate::tagmap::unique_keys(still@),
                forall|j: int|
                    0 <= j < still@.len() ==> exists|l: int|
                        bg@.len() <= l < n && bg0[l] == #[trigger] still@[j],
                self.spec_background().len() == 0,
                self.spec_current_events() == old(self).spec_current_events(),
                self.spec_current_interrupts() == old(self).spec_current_interrupts(),
                self.spec_blacklists() == old(self).spec_blacklists(),
                self.spec_catfishes() == old(self).spec_catfishes(),
                self.spec_bubbles() == old(self).spec_bubbles(),
                self.spec_default_systems() == old(self).spec_default_systems(),
                self.spec_threads() == old(self).spec_threads(),
                self.spec_resources()@.dom() == old(self).spec_resources()@.dom(),
                old(self).spec_new_events().subset_of(self.spec_new_events()),
                old(self).spec_new_interrupts().subset_of(self.spec_new_interrupts()),
                self.spec_current_tick().tick.0 >= old(self).spec_current_tick().tick.0,
                self.spec_systems().len() == old(self).spec_systems().len(),
                forall|si: int|
                    0 <= si < old(self).spec_systems().len() ==> (
                    #[trigger] self.spec_systems()[si]).0 == old(self).spec_systems()[si].0,
                forall|si: int|
                    0 <= si < old(self).spec_systems().len() ==> crate::system::spec_same_system(
                        old(self).spec_systems()[si].1,
                        (#[trigger] self.spec_systems()[si]).1,
                    ) || ((self.spec_systems()[si].1.spec_status() == SystemStatus::Init)
                        && self.spec_systems()[si].1.status_consistent()
                        && crate::system::spec_executed_variant_fields(
                        old(self).spec_systems()[si].1,
                        self.spec_systems()[si].1,
                    )),
                forall|si: int|
                    0 <= si < self.spec_systems().len() && !(exists|l: int|
                        0 <= l < bg@.len() && (#[trigger] bg@[l]).0 == self.spec_systems()[si].0)
                        && !(exists|j: int|
                        0 <= j < still@.len() && (#[trigger] still@[j]).0
                            == self.spec_systems()[si].0) ==> (crate::system::spec_same_system(
                        old(self).spec_systems()[si].1,
                        (#[trigger] self.spec_systems()[si]).1,
                    ) && !old(self).spec_background_ids().contains(self.spec_systems()[si].0)) || (
                    self.spec_systems()[si].1.spec_status() == SystemStatus::Init
                        && self.spec_systems()[si].1.status_consistent()),
                self.spec_system_resources().len() == old(self).spec_system_resources().len(),
                forall|j: int|
                    0 <= j < old(self).spec_system_resources().len() ==> (
                    #[trigger] self.spec_system_resources()[j]).0 == old(
                        self,
                    ).spec_system_resources()[j].0,
                old(finished)@.is_prefix_of(finished@),
                forall|j: int|
                    old(finished)@.len() <= j < finished@.len() ==> old(
                        self,
                    ).spec_background_ids().contains(#[trigger] finished@[j])
                        && self.spec_new_events().contains(SchedulerEvent(finished@[j].0))
                        && !self.spec_reservations().spec_contains(finished@[j]),
                forall|j: int|
                    old(finished)@.len() <= j < finished@.len() ==> !(exists|sx: int|
                        0 <= sx < still@.len() && (#[trigger] still@[sx]).0 == (
                        #[trigger] finished@[j])) && !(exists|l: int|
                        0 <= l < bg@.len() && (#[trigger] bg@[l]).0 == finished@[j]),
                forall|j: int|
                    0 <= j < self.spec_reservations().spec_entries().len() ==> old(
                        self,
                    ).spec_reservations().spec_contains(
                        (#[trigger] self.spec_reservations().spec_entries()[j]).0,
                    ),
                forall|j: int, l: int|
                    0 <= j < self.spec_reservations().spec_entries().len() && 0 <= l < old(
                        self,
                    ).spec_reservations().spec_entries().len() && (#[trigger] self.spec_reservations().spec_entries()[j]).0 == (#[trigger] old(
                        self,
                    ).spec_reservations().spec_entries()[l]).0 ==> self.spec_reservations().spec_entries()[j]
                        == old(self).spec_reservations().spec_entries()[l],
                forall|l: int|
                    0 <= l < old(self).spec_reservations().spec_entries().len() && !finished@.contains(
                        (#[trigger] old(self).spec_reservations().spec_entries()[l]).0,
                    ) ==> self.spec_reservations().spec_contains(
                        old(self).spec_reservations().spec_entries()[l].0,
                    ),
                forall|l: int|
                    bg@.len() <= l < n ==> finished@.contains((#[trigger] bg0[l]).0) || (exists|
                        sx: int,
                    | 0 <= sx < still@.len() && (#[trigger] still@[sx]).0 == bg0[l].0),
            decreases bg@.len(),
        {
            let ghost m = bg@.len() as int;
            proof {
                assert(bg@ == bg0.take(m));
            }
            let (id, inner) = bg.pop().unwrap();
            proof {
                assert((id, inner) == bg0.take(m)[m - 1]);
                assert(bg0.take(m)[m - 1] == bg0[m - 1]);
                assert(bg@ =~= bg0.take(m - 1));
            }
            let done = runner.poll_background(&id, &self.resources);
            match done {
                None => {
                    proof {
                        assert forall|j: int| 0 <= j < still@.len() implies (
                        #[trigger] still@[j]).0 != id by {
                            let l = choose|l: int| m <= l < n && bg0[l] == still@[j];
                            assert(bg0[m - 1].0 != bg0[l].0);
                        }
                    }
                    let ghost still_before = still@;
                    still.push((id, inner));
                    proof {
                        assert(still@.drop_last() =~= still_before);
                        assert forall|l: int|
                            bg@.len() <= l < n implies finished@.contains((#[trigger] bg0[l]).0)
                            || (exists|sx: int|
                            0 <= sx < still@.len() && (#[trigger] still@[sx]).0 == bg0[l].0) by {
                            if l == m - 1 {
                                assert(still@[still@.len() - 1].0 == bg0[m - 1].0);
                            } else {
                                if !finished@.contains(bg0[l].0) {
                                    let sx = choose|sx: int|
                                        0 <= sx < still_before.len() && (
                                        #[trigger] still_before[sx]).0 == bg0[l].0;
                                    assert(still@[sx].0 == bg0[l].0);
                                }
                            }
                        }
                        assert forall|j: int| 0 <= j < still@.len() implies exists|l: int|
                            m - 1 <= l < n && bg0[l] == #[trigger] still@[j] by {
                            if j == still@.len() - 1 {
                                assert(bg0[m - 1] == still@[j]);
                            } else {
                                let l = choose|l: int| m <= l < n && bg0[l] == still_before[j];
                                assert(bg0[l] == still@[j]);
                            }
                        }
                        assert forall|si: int|
                            0 <= si < self.spec_systems().len() && !(exists|l: int|
                                0 <= l < bg@.len() && (#[trigger] bg@[l]).0
                                    == self.spec_systems()[si].0) && !(exists|j: int|
                                0 <= j < still@.len() && (#[trigger] still@[j]).0
                                    == self.spec_systems()[si].0) implies (
                        crate::system::spec_same_system(
                            old(self).spec_systems()[si].1,
                            (#[trigger] self.spec_systems()[si]).1,
                        ) && !old(self).spec_background_ids().contains(
                            self.spec_systems()[si].0,
                        )) || (self.spec_systems()[si].1.spec_status() == SystemStatus::Init
                            && self.spec_systems()[si].1.status_consistent()) by {
                            let sid = self.spec_systems()[si].0;
                            assert(sid != id) by {
                                if sid == id {
                                    assert(still@[still@.len() - 1].0 == sid);
                                }
                            }
                            assert(!(exists|l: int|
                                0 <= l < m && (#[trigger] bg0.take(m)[l]).0 == sid)) by {
                                if exists|l: int|
                                    0 <= l < m && (#[trigger] bg0.take(m)[l]).0 == sid {
                                    let l = choose|l: int|
                                        0 <= l < m && (#[trigger] bg0.take(m)[l]).0 == sid;
                                    if l < m - 1 {
                                        assert(bg@[l] == bg0[l]);
                                        assert(bg@[l].0 == sid);
                                    } else {
                                        assert(bg0[m - 1].0 == id);
                                    }
                                }
                            }
                            assert(!(exists|j: int|
                                0 <= j < still_before.len() && (#[trigger] still_before[j]).0
                                    == sid)) by {
                                if exists|j: int|
                                    0 <= j < still_before.len() && (#[trigger] still_before[j]).0
                                        == sid {
                                    let j = choose|j: int|
                                        0 <= j < still_before.len() && (
                                        #[trigger] still_before[j]).0 == sid;
                                    assert(still@[j].0 == sid);
                                }
                            }
                        }
                    }
                },
                Some(outcome) => {
                    let _ = self.apply_outcome(&id, outcome);
                    match self.find_system(&id) {
                        Some(si) => {
                            let ghost sys_before = self.spec_systems();
                            let slot = &mut self.systems[si];
                            slot.1.insert_system(inner);
                            slot.1.set_status(SystemStatus::Init);
                            proof {
                                assert forall|a: int, b: int|
                                    0 <= a < b < self.spec_systems().len() implies (
                                #[trigger] self.spec_systems()[a]).0 != (
                                #[trigger] self.spec_systems()[b]).0 by {
                                    assert(self.spec_systems()[a].0 == sys_before[a].0);
                                    assert(self.spec_systems()[b].0 == sys_before[b].0);
                                }
                                assert forall|j: int|
                                    0 <= j < self.spec_systems().len() implies (
                                #[trigger] self.spec_systems()[j]).1.wf() by {
                                    if j != si {
                                        assert(self.spec_systems()[j] == sys_before[j]);
                                    }
                                }
                                assert forall|si2: int|
                                    0 <= si2 < old(self).spec_systems().len() implies crate::system::spec_same_system(
                                    old(self).spec_systems()[si2].1,
                                    (#[trigger] self.spec_systems()[si2]).1,
                                ) || ((self.spec_systems()[si2].1.spec_status()
                                    == SystemStatus::Init)
                                    && self.spec_systems()[si2].1.status_consistent()
                                    && crate::system::spec_executed_variant_fields(
                                    old(self).spec_systems()[si2].1,
                                    self.spec_systems()[si2].1,
                                )) by {
                                    if si2 != si {
                                        assert(self.spec_systems()[si2] == sys_before[si2]);
                                    }
                                }
                            }
                        },
                        None => {},
                    }
                    self.background_accesses.remove(&id);
                    let _ = self.new_events.insert(SchedulerEvent(id.0));
                    let ghost finished_before = finished@;
                    finished.push(id);
                    proof {
                        assert(finished@.drop_last() =~= finished_before);
                        assert forall|l: int|
                            bg@.len() <= l < n implies finished@.contains((#[trigger] bg0[l]).0)
                            || (exists|sx: int|
                            0 <= sx < still@.len() && (#[trigger] still@[sx]).0 == bg0[l].0) by {
                            if l == m - 1 {
                                assert(finished@[finished@.len() - 1] == bg0[m - 1].0);
                            } else {
                                if finished_before.contains(bg0[l].0) {
                                    let fx = choose|fx: int|
                                        0 <= fx < finished_before.len() && finished_before[fx]
                                            == bg0[l].0;
                                    assert(finished@[fx] == bg0[l].0);
                                }
                            }
                        }
                        assert forall|si: int|
                            0 <= si < self.spec_systems().len() && !(exists|l: int|
                                0 <= l < bg@.len() && (#[trigger] bg@[l]).0
                                    == self.spec_systems()[si].0) && !(exists|j: int|
                                0 <= j < still@.len() && (#[trigger] still@[j]).0
                                    == self.spec_systems()[si].0) implies (
                        crate::system::spec_same_system(
                            old(self).spec_systems()[si].1,
                            (#[trigger] self.spec_systems()[si]).1,
                        ) && !old(self).spec_background_ids().contains(
                            self.spec_systems()[si].0,
                        )) || (self.spec_systems()[si].1.spec_status() == SystemStatus::Init
                            && self.spec_systems()[si].1.status_consistent()) by {
                            let sid = self.spec_systems()[si].0;
                            if sid == id {
                            } else {
                                assert(!(exists|l: int|
                                    0 <= l < m && (#[trigger] bg0.take(m)[l]).0 == sid)) by {
                                    if exists|l: int|
                                        0 <= l < m && (#[trigger] bg0.take(m)[l]).0 == sid {
                                        let l = choose|l: int|
                                            0 <= l < m && (#[trigger] bg0.take(m)[l]).0 == sid;
                                        if l < m - 1 {
                                            assert(bg@[l] == bg0[l]);
                                            assert(bg@[l].0 == sid);
                                        } else {
                                            assert(bg0[m - 1].0 == id);
                                        }
                                    }
                                }
                            }
                        }
                    }
                },
            }
        }
        let ghost still_final = still@;
        core::mem::swap(&mut still, &mut self.current_background_systems);
        proof {
            assert(self.spec_background() == still_final);
            assert forall|si: int|
                0 <= si < final(self).spec_systems().len() && !final(self).spec_background_ids().contains((#[trigger] final(self).spec_systems()[si]).0)
                    implies (crate::system::spec_same_system(
                    old(self).spec_systems()[si].1,
                    final(self).spec_systems()[si].1,
                ) && !old(self).spec_background_ids().contains(final(self).spec_systems()[si].0))
                    || (final(self).spec_systems()[si].1.spec_status() == SystemStatus::Init
                    && final(self).spec_systems()[si].1.status_consistent()) by {
                let sid = final(self).spec_systems()[si].0;
                assert(!(exists|j: int|
                    0 <= j < still_final.len() && (#[trigger] still_final[j]).0 == sid)) by {
                    if exists|j: int|
                        0 <= j < still_final.len() && (#[trigger] still_final[j]).0 == sid {
                        let j = choose|j: int|
                            0 <= j < still_final.len() && (#[trigger] still_final[j]).0 == sid;
                        assert(final(self).spec_background()[j].0 == sid);
                        assert(final(self).spec_background_ids().contains(sid));
                    }
                }
                if crate::system::spec_same_system(
                    old(self).spec_systems()[si].1,
                    final(self).spec_systems()[si].1,
                ) && !old(self).spec_background_ids().contains(sid) {
                } else {
                }
            }
            assert forall|j: int|
                0 <= j < final(self).spec_background().len() implies old(
                self,
            ).spec_background_ids().contains((#[trigger] final(self).spec_background()[j]).0) by {
                assert(still_final[j] == final(self).spec_background()[j]);
                let l = choose|l: int| 0 <= l < n && bg0[l] == #[trigger] still_final[j];
                assert(old(self).spec_background()[l].0 == final(self).spec_background()[j].0);
            }
        }
    }

    /// The `BackgroundStart` phase: insert the phase marker, filter the
    /// eligible non-blocking systems, and launch each one whose accesses
    /// do not conflict with the reservations already held; its reservation
    /// is recorded before it starts and persists until a later tick's
    /// `BackgroundEnd` harvests it. The marker is removed at the end so it
    /// scopes exactly this phase.
    fn phase_background_start<R: SystemRunner<V>>(
        &mut self,
        runner: &mut R,
        started: &mut Vec<SystemId>,
    )
        requires
            old(self).wf(),
            !old(self).spec_current_events().contains(spec_phase_marker(Phase::BackgroundStart)),
            forall|si: int|
                0 <= si < old(self).spec_systems().len() && !old(
                    self,
                ).spec_background_ids().contains((#[trigger] old(self).spec_systems()[si]).0)
                    ==> old(self).spec_systems()[si].1.spec_status() == SystemStatus::Init && old(
                    self,
                ).spec_systems()[si].1.status_consistent(),
        ensures
            final(self).wf(),
            final(self).spec_current_events() == old(self).spec_current_events(),
            final(self).spec_current_interrupts() == old(self).spec_current_interrupts().union(
                old(self).spec_background_ids(),
            ),
            final(self).spec_blacklists() == old(self).spec_blacklists(),
            final(self).spec_catfishes() == old(self).spec_catfishes(),
            final(self).spec_bubbles() == old(self).spec_bubbles(),
            final(self).spec_default_systems() == old(self).spec_default_systems(),
            final(self).spec_threads() == old(self).spec_threads(),
            final(self).spec_resources()@ == old(self).spec_resources()@,
            old(self).spec_new_events().subset_of(final(self).spec_new_events()),
            final(self).spec_new_interrupts() == old(self).spec_new_interrupts(),
            final(self).spec_current_tick() == old(self).spec_current_tick(),
            final(self).spec_new_resources() == old(self).spec_new_resources(),
            final(self).spec_system_resources() == old(self).spec_system_resources(),
            final(self).spec_systems().len() == old(self).spec_systems().len(),
            forall|si: int|
                0 <= si < old(self).spec_systems().len() ==> (#[trigger] final(self).spec_systems()[si]).0 == old(self).spec_systems()[si].0,
            forall|si: int|
                0 <= si < old(self).spec_systems().len() ==> crate::system::spec_executed_variant_fields(
                    old(self).spec_systems()[si].1,
                    (#[trigger] final(self).spec_systems()[si]).1,
                ),
            forall|si: int|
                0 <= si < final(self).spec_systems().len() && !final(self).spec_background_ids().contains((#[trigger] final(self).spec_systems()[si]).0)
                    ==> final(self).spec_systems()[si].1.spec_status() == SystemStatus::Init
                    && final(self).spec_systems()[si].1.status_consistent(),
            forall|j: int|
                old(started)@.len() <= j < final(started)@.len() ==> !old(
                    self,
                ).spec_current_interrupts().contains(#[trigger] final(started)@[j]) && !old(
                    self,
                ).spec_background_ids().contains(final(started)@[j]),
            old(started)@.is_prefix_of(final(started)@),
            old(self).spec_reservations().spec_entries().is_prefix_of(
                final(self).spec_reservations().spec_entries(),
            ),
            final(self).spec_reservations().spec_entries().len() == old(
                self,
            ).spec_reservations().spec_entries().len() + final(started)@.len() - old(
                started,
            )@.len(),
            forall|t: int|
                0 <= t < final(started)@.len() - old(started)@.len() ==> (#[trigger] final(self).spec_reservations().spec_entries()[old(
                    self,
                ).spec_reservations().spec_entries().len() + t]).0 == final(started)@[old(
                    started,
                )@.len() + t],
            forall|t: int, si: int|
                #![trigger final(self).spec_reservations().spec_entries()[old(self).spec_reservations().spec_entries().len() + t], old(self).spec_systems()[si]]
                0 <= t < final(started)@.len() - old(started)@.len() && 0 <= si < old(
                    self,
                ).spec_systems().len() && old(self).spec_systems()[si].0 == final(started)@[old(
                    started,
                )@.len() + t] ==> final(self).spec_reservations().spec_entries()[old(
                    self,
                ).spec_reservations().spec_entries().len() + t].1@ == old(
                    self,
                ).spec_systems()[si].1.spec_accesses().spec_scheduler()@,
            old(self).spec_background().is_prefix_of(final(self).spec_background()),
            final(self).spec_background().len() == old(self).spec_background().len() + final(started)@.len() - old(started)@.len(),
            forall|t: int|
                0 <= t < final(started)@.len() - old(started)@.len() ==> (#[trigger] final(self).spec_background()[old(self).spec_background().len() + t]).0 == final(started)@[old(started)@.len() + t],
            forall|j: int|
                old(started)@.len() <= j < final(started)@.len() ==> !old(
                    self,
                ).spec_reservations().spec_contains(#[trigger] final(started)@[j]),
            forall|j: int, si: int|
                #![trigger final(started)@[j], old(self).spec_systems()[si]]
                old(started)@.len() <= j < final(started)@.len() && 0 <= si < old(
                    self,
                ).spec_systems().len() && old(self).spec_systems()[si].0 == final(started)@[j]
                    ==> !old(self).spec_reservations().spec_any_conflict(
                    old(self).spec_systems()[si].1.spec_accesses().spec_scheduler()@,
                ) && old(self).spec_background_launch_candidate(si),
            forall|si: int|
                #![trigger old(self).spec_background_launch_candidate(si)]
                0 <= si < old(self).spec_systems().len() && old(
                    self,
                ).spec_background_launch_candidate(si) ==> final(started)@.contains(
                    old(self).spec_systems()[si].0,
                ) || final(self).spec_reservations().spec_contains(old(self).spec_systems()[si].0)
                    || final(self).spec_reservations().spec_any_conflict(
                    old(self).spec_systems()[si].1.spec_accesses().spec_scheduler()@,
                ),
    {
        let marker = phase_marker(&Phase::BackgroundStart);
        self.current_events.insert(marker);
        let bg_ids = self.background_ids();
        self.current_interrupts.extend(&bg_ids);
        let candidates = self.collect_background_candidates();
        let ghost self_at_collect = *self;
        let cn = candidates.len();
        for k in 0..cn
            invariant
                cn == candidates@.len(),
                self.wf(),
                old(self).wf(),
                forall|si: int|
                    0 <= si < old(self).spec_systems().len() && !old(
                        self,
                    ).spec_background_ids().contains((#[trigger] old(self).spec_systems()[si]).0)
                        ==> old(self).spec_systems()[si].1.spec_status() == SystemStatus::Init
                        && old(self).spec_systems()[si].1.status_consistent(),
                forall|j: int|
                    0 <= j < candidates@.len() ==> (#[trigger] candidates@[j]) < self_at_collect.spec_systems().len(),
                forall|j: int|
                    0 <= j < candidates@.len() ==> self_at_collect.spec_background_candidate(
                        (#[trigger] candidates@[j]) as int,
                    ),
                candidates@.no_duplicates(),
                self_at_collect.spec_systems().len() == old(self).spec_systems().len(),
                forall|si: int|
                    0 <= si < old(self).spec_systems().len() ==> (
                    #[trigger] self_at_collect.spec_systems()[si]) == old(self).spec_systems()[si],
                self_at_collect.spec_current_interrupts() == old(
                    self,
                ).spec_current_interrupts().union(old(self).spec_background_ids()),
                self_at_collect.spec_background() == old(self).spec_background(),
                self.spec_current_events() == self_at_collect.spec_current_events(),
                self.spec_current_interrupts() == self_at_collect.spec_current_interrupts(),
                self.spec_blacklists() == self_at_collect.spec_blacklists(),
                self.spec_catfishes() == self_at_collect.spec_catfishes(),
                self.spec_bubbles() == self_at_collect.spec_bubbles(),
                self.spec_default_systems() == self_at_collect.spec_default_systems(),
                self.spec_threads() == self_at_collect.spec_threads(),
                self.spec_resources()@ == self_at_collect.spec_resources()@,
                self_at_collect.spec_new_events().subset_of(self.spec_new_events()),
                self.spec_new_interrupts() == self_at_collect.spec_new_interrupts(),
                self.spec_current_tick() == self_at_collect.spec_current_tick(),
                self.spec_new_resources() == self_at_collect.spec_new_resources(),
                self.spec_system_resources() == self_at_collect.spec_system_resources(),
                self.spec_systems().len() == old(self).spec_systems().len(),
                forall|si: int|
                    0 <= si < old(self).spec_systems().len() ==> (
                    #[trigger] self.spec_systems()[si]).0 == old(self).spec_systems()[si].0,
                forall|si: int|
                    0 <= si < old(self).spec_systems().len() ==> crate::system::spec_executed_variant_fields(
                        old(self).spec_systems()[si].1,
                        (#[trigger] self.spec_systems()[si]).1,
                    ),
                forall|si: int|
                    0 <= si < self.spec_systems().len() && !self.spec_background_ids().contains(
                        (#[trigger] self.spec_systems()[si]).0,
                    ) ==> self.spec_systems()[si].1.spec_status() == SystemStatus::Init
                        && self.spec_systems()[si].1.status_consistent(),
                forall|j: int|
                    old(started)@.len() <= j < started@.len() ==> !old(
                        self,
                    ).spec_current_interrupts().contains(#[trigger] started@[j]) && !old(
                        self,
                    ).spec_background_ids().contains(started@[j]),
                old(started)@.is_prefix_of(started@),
                self_at_collect.spec_current_events() == old(self).spec_current_events().insert(
                    spec_phase_marker(Phase::BackgroundStart),
                ),
                self_at_collect.spec_blacklists() == old(self).spec_blacklists(),
                self_at_collect.spec_resources()@ == old(self).spec_resources()@,
                self_at_collect.spec_reservations() == old(self).spec_reservations(),
                forall|i2: int|
                    0 <= i2 < self_at_collect.spec_systems().len()
                        && #[trigger] self_at_collect.spec_background_candidate(i2)
                        ==> candidates@.contains(i2 as usize),
                started@.len() >= old(started)@.len(),
                old(self).spec_reservations().spec_entries().is_prefix_of(
                    self.spec_reservations().spec_entries(),
                ),
                self.spec_reservations().spec_entries().len() == old(
                    self,
                ).spec_reservations().spec_entries().len() + started@.len() - old(
                    started,
                )@.len(),
                forall|t: int|
                    0 <= t < started@.len() - old(started)@.len() ==> (
                    #[trigger] self.spec_reservations().spec_entries()[old(
                        self,
                    ).spec_reservations().spec_entries().len() + t]).0 == started@[old(
                        started,
                    )@.len() + t],
                forall|t: int, si: int|
                    #![trigger self.spec_reservations().spec_entries()[old(self).spec_reservations().spec_entries().len() + t], old(self).spec_systems()[si]]
                    0 <= t < started@.len() - old(started)@.len() && 0 <= si < old(
                        self,
                    ).spec_systems().len() && old(self).spec_systems()[si].0 == started@[old(
                        started,
                    )@.len() + t] ==> self.spec_reservations().spec_entries()[old(
                        self,
                    ).spec_reservations().spec_entries().len() + t].1@ == old(
                        self,
                    ).spec_systems()[si].1.spec_accesses().spec_scheduler()@,
                old(self).spec_background().is_prefix_of(self.spec_background()),
                self.spec_background().len() == old(self).spec_background().len() + started@.len()
                    - old(started)@.len(),
                forall|t: int|
                    0 <= t < started@.len() - old(started)@.len() ==> (
                    #[trigger] self.spec_background()[old(self).spec_background().len() + t]).0
                        == started@[old(started)@.len() + t],
                forall|j: int|
                    old(started)@.len() <= j < started@.len() ==> !old(
                        self,
                    ).spec_reservations().spec_contains(#[trigger] started@[j]),
                forall|j: int, si: int|
                    #![trigger started@[j], old(self).spec_systems()[si]]
                    old(started)@.len() <= j < started@.len() && 0 <= si < old(
                        self,
                    ).spec_systems().len() && old(self).spec_systems()[si].0 == started@[j] ==> !old(
                        self,
                    ).spec_reservations().spec_any_conflict(
                        old(self).spec_systems()[si].1.spec_accesses().spec_scheduler()@,
                    ) && old(self).spec_background_launch_candidate(si),
                forall|q: int|
                    #![trigger candidates@[q]]
                    0 <= q < k ==> started@.contains(
                        self_at_collect.spec_systems()[candidates@[q] as int].0,
                    ) || self.spec_reservations().spec_contains(
                        self_at_collect.spec_systems()[candidates@[q] as int].0,
                    ) || self.spec_reservations().spec_any_conflict(
                        self_at_collect.spec_systems()[candidates@[
                            q
                        ] as int].1.spec_accesses().spec_scheduler()@,
                    ),
        {
            let idx = candidates[k];
            let id = self.systems[idx].0;
            let bg_now = self.background_ids();
            let in_bg = crate::interrupts::contains_system(&bg_now, &id);
            let already_reserved = self.background_accesses.contains(&id);
            if !in_bg && !already_reserved {
                let conflict = self.background_accesses.any_conflict(
                    self.systems[idx].1.cached_accesses().scheduler(),
                );
                if !conflict {
                    let ghost sys_before = self.spec_systems();
                    let ghost started_before = started@;
                    proof {
                        assert(!self.spec_background_ids().contains(
                            self.spec_systems()[idx as int].0,
                        ));
                        assert(self.spec_systems()[idx as int].1.spec_status()
                            == SystemStatus::Init);
                        assert(self.spec_systems()[idx as int].1.status_consistent());
                        assert(self_at_collect.spec_background_candidate(
                            candidates@[k as int] as int,
                        ));
                        assert(!self_at_collect.spec_current_interrupts().contains(
                            self_at_collect.spec_systems()[idx as int].0,
                        ));
                        assert(!old(self).spec_current_interrupts().contains(id));
                        assert(!old(self).spec_background_ids().contains(id));
                    }
                    let accesses = self.systems[idx].1.cached_accesses().scheduler().clone();
                    let ghost acc_view = accesses@;
                    let slot = &mut self.systems[idx];
                    let inner_opt = slot.1.take_system();
                    slot.1.set_status(SystemStatus::Executing);
                    let inner = match inner_opt {
                        Some(inner) => inner,
                        None => vstd::pervasive::unreached(),
                    };
                    let ghost res_before = self.spec_reservations().spec_entries();
                    self.background_accesses.insert(id, accesses);
                    let ghost bg_before = self.spec_background();
                    self.current_background_systems.push((id, inner));
                    runner.start_background(&id, &self.resources);
                    started.push(id);
                    proof {
                        assert(self.spec_background().drop_last() =~= bg_before);
                        assert(self.spec_background().last() == (id, inner));
                        assert(started@.drop_last() =~= started_before);
                        assert(started@.last() == id);
                        assert(started_before.is_prefix_of(started@));
                        assert(old(started)@.is_prefix_of(started@)) by {
                            assert(forall|j: int|
                                0 <= j < old(started)@.len() ==> started@[j] == started_before[j]);
                        }
                        assert forall|a: int, b: int|
                            0 <= a < b < self.spec_background().len() implies (
                        #[trigger] self.spec_background()[a]).0 != (
                        #[trigger] self.spec_background()[b]).0 by {
                            if b == self.spec_background().len() - 1 {
                                assert(self.spec_background()[a] == bg_before[a]);
                                assert(bg_now@[a] == bg_before[a].0);
                                assert(!bg_now@.contains(id));
                            }
                        }
                        assert forall|a: int, b: int|
                            0 <= a < b < self.spec_systems().len() implies (
                        #[trigger] self.spec_systems()[a]).0 != (
                        #[trigger] self.spec_systems()[b]).0 by {
                            assert(self.spec_systems()[a].0 == sys_before[a].0);
                            assert(self.spec_systems()[b].0 == sys_before[b].0);
                        }
                        assert forall|j: int|
                            0 <= j < self.spec_systems().len() implies (
                        #[trigger] self.spec_systems()[j]).1.wf() by {
                            if j != idx {
                                assert(self.spec_systems()[j] == sys_before[j]);
                            }
                        }
                        assert forall|si: int|
                            0 <= si < old(self).spec_systems().len() implies crate::system::spec_executed_variant_fields(
                            old(self).spec_systems()[si].1,
                            (#[trigger] self.spec_systems()[si]).1,
                        ) by {
                            if si != idx {
                                assert(self.spec_systems()[si] == sys_before[si]);
                            }
                        }
                        assert forall|si: int|
                            0 <= si < self.spec_systems().len()
                                && !self.spec_background_ids().contains(
                                (#[trigger] self.spec_systems()[si]).0,
                            ) implies self.spec_systems()[si].1.spec_status()
                            == SystemStatus::Init && self.spec_systems()[si].1.status_consistent() by {
                            assert(self.spec_background_ids().contains(id)) by {
                                assert(self.spec_background()[self.spec_background().len()
                                    - 1].0 == id);
                            }
                            if si != idx {
                                assert(self.spec_systems()[si] == sys_before[si]);
                                if !self.spec_background_ids().contains(sys_before[si].0) {
                                    assert forall|l: int|
                                        0 <= l < bg_before.len() implies (
                                    #[trigger] bg_before[l]).0 != sys_before[si].0 by {
                                        assert(self.spec_background()[l] == bg_before[l]);
                                    }
                                }
                            }
                        }
                        let obase = old(self).spec_reservations().spec_entries().len() as int;
                        let bbase = old(self).spec_background().len() as int;
                        let sbase = old(started)@.len() as int;
                        let cnt = started@.len() - sbase;
                        assert(self.spec_reservations().spec_entries().drop_last() =~= res_before);
                        assert(self.spec_reservations().spec_entries().last().0 == id);
                        assert(self.spec_reservations().spec_entries().last().1@ == acc_view);
                        assert(old(self).spec_reservations().spec_entries().is_prefix_of(
                            self.spec_reservations().spec_entries(),
                        )) by {
                            assert(forall|i: int|
                                0 <= i < obase ==> (
                                #[trigger] self.spec_reservations().spec_entries()[i]) == res_before[i]);
                        }
                        assert(old(self).spec_background().is_prefix_of(self.spec_background())) by {
                            assert(forall|i: int|
                                0 <= i < bbase ==> (#[trigger] self.spec_background()[i])
                                    == bg_before[i]);
                        }
                        assert(acc_view == old(
                            self,
                        ).spec_systems()[idx as int].1.spec_accesses().spec_scheduler()@);
                        assert forall|t: int|
                            0 <= t < cnt implies (
                        #[trigger] self.spec_reservations().spec_entries()[obase + t]).0
                            == started@[sbase + t] by {
                            if t < cnt - 1 {
                                assert(self.spec_reservations().spec_entries()[obase + t]
                                    == res_before[obase + t]);
                                assert(started@[sbase + t] == started_before[sbase + t]);
                            } else {
                                assert(self.spec_reservations().spec_entries()[obase + t]
                                    == self.spec_reservations().spec_entries().last());
                                assert(started@[sbase + t] == started@.last());
                            }
                        }
                        assert forall|t: int, si: int|
                            #![trigger self.spec_reservations().spec_entries()[old(self).spec_reservations().spec_entries().len() + t], old(self).spec_systems()[si]]
                            0 <= t < cnt && 0 <= si < old(self).spec_systems().len() && old(
                                self,
                            ).spec_systems()[si].0 == started@[sbase + t] implies self.spec_reservations().spec_entries()[obase
                            + t].1@ == old(
                            self,
                        ).spec_systems()[si].1.spec_accesses().spec_scheduler()@ by {
                            if t < cnt - 1 {
                                assert(self.spec_reservations().spec_entries()[obase + t]
                                    == res_before[obase + t]);
                                assert(started@[sbase + t] == started_before[sbase + t]);
                            } else {
                                assert(started@[sbase + t] == id);
                                assert(si == idx as int) by {
                                    if si != idx as int {
                                        assert(old(self).spec_systems()[si].0 != old(
                                            self,
                                        ).spec_systems()[idx as int].0);
                                    }
                                }
                                assert(self.spec_reservations().spec_entries()[obase + t]
                                    == self.spec_reservations().spec_entries().last());
                            }
                        }
                        assert forall|t: int|
                            0 <= t < cnt implies (#[trigger] self.spec_background()[bbase + t]).0
                            == started@[sbase + t] by {
                            if t < cnt - 1 {
                                assert(self.spec_background()[bbase + t] == bg_before[bbase + t]);
                                assert(started@[sbase + t] == started_before[sbase + t]);
                            } else {
                                assert(self.spec_background()[bbase + t]
                                    == self.spec_background().last());
                                assert(started@[sbase + t] == started@.last());
                            }
                        }
                        assert(!old(self).spec_reservations().spec_contains(id)) by {
                            if old(self).spec_reservations().spec_contains(id) {
                                let i = choose|i: int|
                                    0 <= i < old(self).spec_reservations().spec_entries().len()
                                        && (#[trigger] old(
                                        self,
                                    ).spec_reservations().spec_entries()[i]).0 == id;
                                assert(res_before[i].0 == id);
                            }
                        }
                        assert(!old(self).spec_reservations().spec_any_conflict(acc_view)) by {
                            if old(self).spec_reservations().spec_any_conflict(acc_view) {
                                let i = choose|i: int|
                                    0 <= i < old(self).spec_reservations().spec_entries().len()
                                        && crate::access::conflicting(
                                        (#[trigger] old(
                                            self,
                                        ).spec_reservations().spec_entries()[i]).1@,
                                        acc_view,
                                    );
                                assert(res_before[i] == old(
                                    self,
                                ).spec_reservations().spec_entries()[i]);
                                assert(crate::access::conflicting(res_before[i].1@, acc_view));
                            }
                        }
                        assert(old(self).spec_background_launch_candidate(idx as int)) by {
                            assert(self_at_collect.spec_background_candidate(
                                candidates@[k as int] as int,
                            ));
                            assert(self_at_collect.spec_systems()[idx as int] == old(
                                self,
                            ).spec_systems()[idx as int]);
                            assert(self_at_collect.spec_resources()@.dom() =~= old(
                                self,
                            ).spec_resources()@.dom());
                            assert(self_at_collect.spec_owned_tags() =~= old(
                                self,
                            ).spec_owned_tags());
                        }
                        assert forall|j: int, si: int|
                            #![trigger started@[j], old(self).spec_systems()[si]]
                            sbase <= j < started@.len() && 0 <= si < old(
                                self,
                            ).spec_systems().len() && old(self).spec_systems()[si].0 == started@[j]
                            implies !old(self).spec_reservations().spec_any_conflict(
                            old(self).spec_systems()[si].1.spec_accesses().spec_scheduler()@,
                        ) && old(self).spec_background_launch_candidate(si) by {
                            if j < started@.len() - 1 {
                                assert(started@[j] == started_before[j]);
                            } else {
                                assert(started@[j] == id);
                                assert(si == idx as int) by {
                                    if si != idx as int {
                                        assert(old(self).spec_systems()[si].0 != old(
                                            self,
                                        ).spec_systems()[idx as int].0);
                                    }
                                }
                            }
                        }
                        assert forall|q: int|
                            #![trigger candidates@[q]]
                            0 <= q < k + 1 implies started@.contains(
                            self_at_collect.spec_systems()[candidates@[q] as int].0,
                        ) || self.spec_reservations().spec_contains(
                            self_at_collect.spec_systems()[candidates@[q] as int].0,
                        ) || self.spec_reservations().spec_any_conflict(
                            self_at_collect.spec_systems()[candidates@[
                                q
                            ] as int].1.spec_accesses().spec_scheduler()@,
                        ) by {
                            if q == k as int {
                                assert(started@.last() == id);
                                assert(self_at_collect.spec_systems()[idx as int].0 == id);
                            } else {
                                let sid = self_at_collect.spec_systems()[candidates@[q] as int].0;
                                if started_before.contains(sid) {
                                    let w = choose|w: int|
                                        0 <= w < started_before.len() && started_before[w] == sid;
                                    assert(started@[w] == sid);
                                } else if res_before.len() > 0 && (exists|i: int|
                                    0 <= i < res_before.len() && (#[trigger] res_before[i]).0
                                        == sid) {
                                    let i = choose|i: int|
                                        0 <= i < res_before.len() && (#[trigger] res_before[i]).0
                                            == sid;
                                    assert(self.spec_reservations().spec_entries()[i].0 == sid);
                                } else {
                                    let m = self_at_collect.spec_systems()[candidates@[
                                        q
                                    ] as int].1.spec_accesses().spec_scheduler()@;
                                    assert(exists|i: int|
                                        0 <= i < res_before.len() && crate::access::conflicting(
                                            (#[trigger] res_before[i]).1@,
                                            m,
                                        ));
                                    let i = choose|i: int|
                                        0 <= i < res_before.len() && crate::access::conflicting(
                                            (#[trigger] res_before[i]).1@,
                                            m,
                                        );
                                    assert(self.spec_reservations().spec_entries()[i]
                                        == res_before[i]);
                                    assert(crate::access::conflicting(
                                        self.spec_reservations().spec_entries()[i].1@,
                                        m,
                                    ));
                                }
                            }
                        }
                    }
                } else {
                    proof {
                        assert forall|q: int|
                            #![trigger candidates@[q]]
                            0 <= q < k + 1 implies started@.contains(
                            self_at_collect.spec_systems()[candidates@[q] as int].0,
                        ) || self.spec_reservations().spec_contains(
                            self_at_collect.spec_systems()[candidates@[q] as int].0,
                        ) || self.spec_reservations().spec_any_conflict(
                            self_at_collect.spec_systems()[candidates@[
                                q
                            ] as int].1.spec_accesses().spec_scheduler()@,
                        ) by {
                            if q == k as int {
                                assert(self_at_collect.spec_systems()[idx as int].0 == id);
                                assert(crate::system::spec_executed_variant_fields(
                                    old(self).spec_systems()[idx as int].1,
                                    self.spec_systems()[idx as int].1,
                                ));
                                assert(self.spec_systems()[idx as int].1.spec_accesses()
                                    == old(self).spec_systems()[idx as int].1.spec_accesses());
                                assert(self_at_collect.spec_systems()[idx as int] == old(
                                    self,
                                ).spec_systems()[idx as int]);
                            }
                        }
                    }
                }
            } else {
                proof {
                    assert forall|q: int|
                        #![trigger candidates@[q]]
                        0 <= q < k + 1 implies started@.contains(
                        self_at_collect.spec_systems()[candidates@[q] as int].0,
                    ) || self.spec_reservations().spec_contains(
                        self_at_collect.spec_systems()[candidates@[q] as int].0,
                    ) || self.spec_reservations().spec_any_conflict(
                        self_at_collect.spec_systems()[candidates@[
                            q
                        ] as int].1.spec_accesses().spec_scheduler()@,
                    ) by {
                        if q == k as int {
                            assert(self_at_collect.spec_systems()[idx as int].0 == id);
                            if already_reserved {
                            } else {
                                let l = choose|l: int|
                                    0 <= l < bg_now@.len() && (#[trigger] bg_now@[l]) == id;
                                assert(self.spec_background()[l].0 == id);
                                if l < old(self).spec_background().len() {
                                    assert(self.spec_background()[l] == old(
                                        self,
                                    ).spec_background()[l]);
                                    assert(old(self).spec_background_ids().contains(id));
                                    assert(self_at_collect.spec_background_candidate(
                                        candidates@[k as int] as int,
                                    ));
                                    assert(!self_at_collect.spec_current_interrupts().contains(
                                        self_at_collect.spec_systems()[idx as int].0,
                                    ));
                                    assert(self_at_collect.spec_current_interrupts().contains(id));
                                } else {
                                    let t = l - old(self).spec_background().len();
                                    assert(self.spec_background()[old(
                                        self,
                                    ).spec_background().len() + t].0 == started@[old(
                                        started,
                                    )@.len() + t]);
                                    assert(started@[old(started)@.len() + t] == id);
                                }
                            }
                        }
                    }
                }
            }
        }
        self.current_events.remove(&marker);
        proof {
            assert(final(self).spec_current_events() =~= old(self).spec_current_events());
            assert forall|si: int|
                #![trigger old(self).spec_background_launch_candidate(si)]
                0 <= si < old(self).spec_systems().len() && old(
                    self,
                ).spec_background_launch_candidate(si) implies final(started)@.contains(
                old(self).spec_systems()[si].0,
            ) || final(self).spec_reservations().spec_contains(old(self).spec_systems()[si].0)
                || final(self).spec_reservations().spec_any_conflict(
                old(self).spec_systems()[si].1.spec_accesses().spec_scheduler()@,
            ) by {
                assert(self_at_collect.spec_background_candidate(si)) by {
                    assert(self_at_collect.spec_systems()[si] == old(self).spec_systems()[si]);
                    assert(self_at_collect.spec_resources()@.dom() =~= old(
                        self,
                    ).spec_resources()@.dom());
                    assert(self_at_collect.spec_owned_tags() =~= old(self).spec_owned_tags());
                }
                assert(vstd::std_specs::vec::spec_vec_len(&old(self).systems) == old(
                    self,
                ).systems@.len());
                assert(si <= usize::MAX);
                assert(candidates@.contains(si as usize));
                let q = choose|q: int|
                    0 <= q < candidates@.len() && (#[trigger] candidates@[q]) == si as usize;
                assert(candidates@[q] as int == si);
                assert(self_at_collect.spec_systems()[si].0 == old(self).spec_systems()[si].0);
            }
        }
    }

    /// The `Movement` phase: drain the new-resource pool and merge each
    /// bucket into its destination, conservatively: on a collision the
    /// value already present stays. A bucket for a system without a
    /// private store is dropped.
    fn phase_movement(&mut self)
        requires
            old(self).wf(),
        ensures
            final(self).wf(),
            final(self).spec_current_events() == old(self).spec_current_events(),
            final(self).spec_current_interrupts() == old(self).spec_current_interrupts(),
            final(self).spec_blacklists() == old(self).spec_blacklists(),
            final(self).spec_catfishes() == old(self).spec_catfishes(),
            final(self).spec_bubbles() == old(self).spec_bubbles(),
            final(self).spec_default_systems() == old(self).spec_default_systems(),
            final(self).spec_threads() == old(self).spec_threads(),
            final(self).spec_new_events() == old(self).spec_new_events(),
            final(self).spec_new_interrupts() == old(self).spec_new_interrupts(),
            final(self).spec_current_tick() == old(self).spec_current_tick(),
            final(self).spec_systems() == old(self).spec_systems(),
            final(self).spec_background() == old(self).spec_background(),
            final(self).spec_reservations() == old(self).spec_reservations(),
            forall|k: u64|
                #[trigger] old(self).spec_resources()@.dom().contains(k) ==> final(self).spec_resources()@.dom().contains(k) && final(self).spec_resources()@[k] == old(
                    self,
                ).spec_resources()@[k],
            final(self).spec_new_resources().spec_buckets() == Seq::<
                (Option<SystemId>, ResourceMap<V>),
            >::empty(),
            final(self).spec_system_resources().len() == old(self).spec_system_resources().len(),
            forall|j: int|
                0 <= j < old(self).spec_system_resources().len() ==> (#[trigger] final(self).spec_system_resources()[j]).0 == old(self).spec_system_resources()[j].0,
            forall|k: u64|
                #[trigger] old(self).spec_new_resources().spec_bucket_map(None).dom().contains(k)
                    ==> final(self).spec_resources()@.dom().contains(k) && (old(
                    self,
                ).spec_resources()@.dom().contains(k) || final(self).spec_resources()@[k] == old(
                    self,
                ).spec_new_resources().spec_bucket_map(None)[k]),
            forall|k: u64|
                #[trigger] final(self).spec_resources()@.dom().contains(k) ==> old(
                    self,
                ).spec_resources()@.dom().contains(k) || old(
                    self,
                ).spec_new_resources().spec_bucket_map(None).dom().contains(k),
            forall|j: int, k: u64|
                #![trigger final(self).spec_system_resources()[j], old(self).spec_system_resources()[j].1.spec_resources()@.dom().contains(k)]
                0 <= j < old(self).spec_system_resources().len() && old(
                    self,
                ).spec_system_resources()[j].1.spec_resources()@.dom().contains(k) ==> final(self).spec_system_resources()[j].1.spec_resources()@.dom().contains(k) && final(self).spec_system_resources()[j].1.spec_resources()@[k] == old(
                    self,
                ).spec_system_resources()[j].1.spec_resources()@[k],
            forall|j: int, k: u64|
                #![trigger final(self).spec_system_resources()[j], old(self).spec_new_resources().spec_bucket_map(Some(old(self).spec_system_resources()[j].0)).dom().contains(k)]
                0 <= j < old(self).spec_system_resources().len() && old(
                    self,
                ).spec_new_resources().spec_bucket_map(
                    Some(old(self).spec_system_resources()[j].0),
                ).dom().contains(k) ==> final(self).spec_system_resources()[j].1.spec_resources()@.dom().contains(
                    k,
                ) && (old(self).spec_system_resources()[j].1.spec_resources()@.dom().contains(k)
                    || final(self).spec_system_resources()[j].1.spec_resources()@[k] == old(
                    self,
                ).spec_new_resources().spec_bucket_map(
                    Some(old(self).spec_system_resources()[j].0),
                )[k]),
            forall|j: int, k: u64|
                #![trigger final(self).spec_system_resources()[j].1.spec_resources()@.dom().contains(k)]
                0 <= j < old(self).spec_system_resources().len() && final(self).spec_system_resources()[j].1.spec_resources()@.dom().contains(k) ==> old(
                    self,
                ).spec_system_resources()[j].1.spec_resources()@.dom().contains(k) || old(
                    self,
                ).spec_new_resources().spec_bucket_map(
                    Some(old(self).spec_system_resources()[j].0),
                ).dom().contains(k),
    {
        let mut buckets = self.new_resources.drain();
        let ghost b0 = buckets@;
        let ghost n = b0.len() as int;
        while buckets.len() > 0
            invariant
                n == b0.len(),
                buckets@.len() <= n,
                buckets@ == b0.take(buckets@.len() as int),
                forall|i: int| 0 <= i < n ==> (#[trigger] b0[i]).1.wf(),
                self.wf(),
                old(self).wf(),
                self.spec_current_events() == old(self).spec_current_events(),
                self.spec_current_interrupts() == old(self).spec_current_interrupts(),
                self.spec_blacklists() == old(self).spec_blacklists(),
                self.spec_catfishes() == old(self).spec_catfishes(),
                self.spec_bubbles() == old(self).spec_bubbles(),
                self.spec_default_systems() == old(self).spec_default_systems(),
                self.spec_threads() == old(self).spec_threads(),
                self.spec_new_events() == old(self).spec_new_events(),
                self.spec_new_interrupts() == old(self).spec_new_interrupts(),
                self.spec_current_tick() == old(self).spec_current_tick(),
                self.spec_systems() == old(self).spec_systems(),
                self.spec_background() == old(self).spec_background(),
                self.spec_reservations() == old(self).spec_reservations(),
                forall|k: u64|
                    #[trigger] old(self).spec_resources()@.dom().contains(k)
                        ==> self.spec_resources()@.dom().contains(k)
                        && self.spec_resources()@[k] == old(self).spec_resources()@[k],
                self.spec_new_resources().spec_buckets() == Seq::<
                    (Option<SystemId>, ResourceMap<V>),
                >::empty(),
                self.spec_system_resources().len() == old(self).spec_system_resources().len(),
                forall|j: int|
                    0 <= j < old(self).spec_system_resources().len() ==> (
                    #[trigger] self.spec_system_resources()[j]).0 == old(
                        self,
                    ).spec_system_resources()[j].0,
                forall|l1: int, l2: int|
                    0 <= l1 < l2 < n ==> (#[trigger] b0[l1]).0 != (#[trigger] b0[l2]).0,
                forall|l: int, k: u64|
                    #![trigger b0[l].1@.dom().contains(k)]
                    buckets@.len() <= l < n && b0[l].0 is None && b0[l].1@.dom().contains(k)
                        ==> self.spec_resources()@.dom().contains(k) && (old(
                        self,
                    ).spec_resources()@.dom().contains(k) || self.spec_resources()@[k] == b0[l].1@[k]),
                forall|k: u64|
                    #[trigger] self.spec_resources()@.dom().contains(k) ==> old(
                        self,
                    ).spec_resources()@.dom().contains(k) || (exists|l: int|
                        buckets@.len() <= l < n && (#[trigger] b0[l]).0 is None
                            && b0[l].1@.dom().contains(k)),
                forall|j: int, k: u64|
                    #![trigger self.spec_system_resources()[j], old(self).spec_system_resources()[j].1.spec_resources()@.dom().contains(k)]
                    0 <= j < old(self).spec_system_resources().len() && old(
                        self,
                    ).spec_system_resources()[j].1.spec_resources()@.dom().contains(k)
                        ==> self.spec_system_resources()[j].1.spec_resources()@.dom().contains(k)
                        && self.spec_system_resources()[j].1.spec_resources()@[k] == old(
                        self,
                    ).spec_system_resources()[j].1.spec_resources()@[k],
                forall|l: int, j: int, k: u64|
                    #![trigger b0[l].1@.dom().contains(k), self.spec_system_resources()[j]]
                    buckets@.len() <= l < n && 0 <= j < old(
                        self,
                    ).spec_system_resources().len() && b0[l].0 == Some(
                        old(self).spec_system_resources()[j].0,
                    ) && b0[l].1@.dom().contains(k)
                        ==> self.spec_system_resources()[j].1.spec_resources()@.dom().contains(k)
                        && (old(self).spec_system_resources()[j].1.spec_resources()@.dom().contains(
                        k,
                    ) || self.spec_system_resources()[j].1.spec_resources()@[k] == b0[l].1@[k]),
                forall|j: int, k: u64|
                    #![trigger self.spec_system_resources()[j].1.spec_resources()@.dom().contains(k)]
                    0 <= j < old(self).spec_system_resources().len()
                        && self.spec_system_resources()[j].1.spec_resources()@.dom().contains(k)
                        ==> old(self).spec_system_resources()[j].1.spec_resources()@.dom().contains(
                        k,
                    ) || (exists|l: int|
                        buckets@.len() <= l < n && (#[trigger] b0[l]).0 == Some(
                            old(self).spec_system_resources()[j].0,
                        ) && b0[l].1@.dom().contains(k)),
            decreases buckets@.len(),
        {
            let ghost m = buckets@.len() as int;
            proof {
                assert(buckets@ == b0.take(m));
            }
            let (owner, map) = buckets.pop().unwrap();
            proof {
                assert((owner, map) == b0.take(m)[m - 1]);
                assert(b0.take(m)[m - 1] == b0[m - 1]);
                assert(buckets@ =~= b0.take(m - 1));
                assert(map.wf());
            }
            let ghost map_view = map@;
            proof {
                assert(map_view == b0[m - 1].1@);
                assert(owner == b0[m - 1].0);
            }
            match owner {
                None => {
                    let ghost res_pre = self.spec_resources()@;
                    let _ = self.resources.conservatively_merge(map);
                    proof {
                        assert forall|l: int, k: u64|
                            #![trigger b0[l].1@.dom().contains(k)]
                            buckets@.len() <= l < n && b0[l].0 is None && b0[l].1@.dom().contains(
                                k,
                            ) implies self.spec_resources()@.dom().contains(k) && (old(
                            self,
                        ).spec_resources()@.dom().contains(k) || self.spec_resources()@[k] == b0[
                        l].1@[k]) by {
                            if l == m - 1 {
                                assert(map_view.dom().contains(k));
                                assert(self.spec_resources()@.dom().contains(k));
                                if !old(self).spec_resources()@.dom().contains(k) {
                                    assert(!res_pre.dom().contains(k)) by {
                                        if res_pre.dom().contains(k) {
                                            let l2 = choose|l2: int|
                                                m <= l2 < n && (#[trigger] b0[l2]).0 is None
                                                    && b0[l2].1@.dom().contains(k);
                                            assert(b0[l2].0 != b0[m - 1].0);
                                        }
                                    }
                                    assert(self.spec_resources()@[k] == map_view[k]);
                                }
                            } else {
                                assert(res_pre.dom().contains(k));
                                assert(self.spec_resources()@[k] == res_pre[k]);
                            }
                        }
                        assert forall|k: u64|
                            #[trigger] self.spec_resources()@.dom().contains(k) implies old(
                            self,
                        ).spec_resources()@.dom().contains(k) || (exists|l: int|
                            buckets@.len() <= l < n && (#[trigger] b0[l]).0 is None
                                && b0[l].1@.dom().contains(k)) by {
                            if !old(self).spec_resources()@.dom().contains(k) {
                                if res_pre.dom().contains(k) {
                                    let l2 = choose|l2: int|
                                        m <= l2 < n && (#[trigger] b0[l2]).0 is None
                                            && b0[l2].1@.dom().contains(k);
                                    assert(buckets@.len() <= l2 < n && b0[l2].0 is None
                                        && b0[l2].1@.dom().contains(k));
                                } else {
                                    assert(map_view.dom().contains(k));
                                    assert(b0[m - 1].1@.dom().contains(k));
                                    assert(b0[m - 1].0 is None);
                                    assert(buckets@.len() <= m - 1 < n && b0[m - 1].0 is None
                                        && b0[m - 1].1@.dom().contains(k));
                                }
                            }
                        }
                    }
                },
                Some(id) => {
                    match self.find_store(&id) {
                        Some(j) => {
                            let ghost srs_before = self.spec_system_resources();
                            let ghost store_pre = self.spec_system_resources()[j as int].1.spec_resources()@;
                            let store = &mut self.system_resources[j];
                            let _ = store.1.conservatively_merge(map);
                            proof {
                                assert(srs_before[j as int].0 == id);
                                assert(old(self).spec_system_resources()[j as int].0 == id);
                                assert forall|j2: int, k: u64|
                                    #![trigger self.spec_system_resources()[j2], old(self).spec_system_resources()[j2].1.spec_resources()@.dom().contains(k)]
                                    0 <= j2 < old(self).spec_system_resources().len() && old(
                                        self,
                                    ).spec_system_resources()[j2].1.spec_resources()@.dom().contains(
                                        k,
                                    ) implies self.spec_system_resources()[j2].1.spec_resources()@.dom().contains(
                                    k,
                                ) && self.spec_system_resources()[j2].1.spec_resources()@[k] == old(
                                    self,
                                ).spec_system_resources()[j2].1.spec_resources()@[k] by {
                                    if j2 != j {
                                        assert(self.spec_system_resources()[j2]
                                            == srs_before[j2]);
                                    } else {
                                        assert(store_pre.dom().contains(k));
                                        assert(store_pre[k] == old(
                                            self,
                                        ).spec_system_resources()[j2].1.spec_resources()@[k]);
                                    }
                                }
                                assert forall|l: int, j2: int, k: u64|
                                    #![trigger b0[l].1@.dom().contains(k), self.spec_system_resources()[j2]]
                                    buckets@.len() <= l < n && 0 <= j2 < old(
                                        self,
                                    ).spec_system_resources().len() && b0[l].0 == Some(
                                        old(self).spec_system_resources()[j2].0,
                                    ) && b0[l].1@.dom().contains(
                                        k,
                                    ) implies self.spec_system_resources()[j2].1.spec_resources()@.dom().contains(
                                    k,
                                ) && (old(
                                    self,
                                ).spec_system_resources()[j2].1.spec_resources()@.dom().contains(k)
                                    || self.spec_system_resources()[j2].1.spec_resources()@[k]
                                    == b0[l].1@[k]) by {
                                    if l == m - 1 {
                                        assert(b0[m - 1].0 == Some(id));
                                        assert(j2 == j as int) by {
                                            if j2 != j as int {
                                                assert(old(self).spec_system_resources()[j2].0
                                                    != old(
                                                    self,
                                                ).spec_system_resources()[j as int].0);
                                            }
                                        }
                                        assert(map_view.dom().contains(k));
                                        if !old(
                                            self,
                                        ).spec_system_resources()[j2].1.spec_resources()@.dom().contains(
                                            k,
                                        ) {
                                            assert(!store_pre.dom().contains(k)) by {
                                                if store_pre.dom().contains(k) {
                                                    let l2 = choose|l2: int|
                                                        m <= l2 < n && (#[trigger] b0[l2]).0
                                                            == Some(
                                                            old(
                                                                self,
                                                            ).spec_system_resources()[j2].0,
                                                        ) && b0[l2].1@.dom().contains(k);
                                                    assert(b0[l2].0 != b0[m - 1].0);
                                                }
                                            }
                                            assert(self.spec_system_resources()[
                                            j2].1.spec_resources()@[k] == map_view[k]);
                                        }
                                    } else {
                                        if j2 != j {
                                            assert(self.spec_system_resources()[j2]
                                                == srs_before[j2]);
                                        } else {
                                            assert(store_pre.dom().contains(k));
                                            assert(self.spec_system_resources()[
                                            j2].1.spec_resources()@[k] == store_pre[k]);
                                        }
                                    }
                                }
                                assert forall|j2: int, k: u64|
                                    #![trigger self.spec_system_resources()[j2].1.spec_resources()@.dom().contains(k)]
                                    0 <= j2 < old(self).spec_system_resources().len()
                                        && self.spec_system_resources()[j2].1.spec_resources()@.dom().contains(
                                        k,
                                    ) implies old(
                                    self,
                                ).spec_system_resources()[j2].1.spec_resources()@.dom().contains(k)
                                    || (exists|l: int|
                                    buckets@.len() <= l < n && (#[trigger] b0[l]).0 == Some(
                                        old(self).spec_system_resources()[j2].0,
                                    ) && b0[l].1@.dom().contains(k)) by {
                                    if j2 == j as int {
                                        if !old(
                                            self,
                                        ).spec_system_resources()[j2].1.spec_resources()@.dom().contains(
                                            k,
                                        ) {
                                            if store_pre.dom().contains(k) {
                                                let l2 = choose|l2: int|
                                                    m <= l2 < n && (#[trigger] b0[l2]).0 == Some(
                                                        old(self).spec_system_resources()[j2].0,
                                                    ) && b0[l2].1@.dom().contains(k);
                                                assert(buckets@.len() <= l2 < n && b0[l2].0
                                                    == Some(
                                                    old(self).spec_system_resources()[j2].0,
                                                ) && b0[l2].1@.dom().contains(k));
                                            } else {
                                                assert(map_view.dom().contains(k));
                                                assert(b0[m - 1].1@.dom().contains(k));
                                                assert(buckets@.len() <= m - 1 < n && b0[m - 1].0
                                                    == Some(
                                                    old(self).spec_system_resources()[j2].0,
                                                ) && b0[m - 1].1@.dom().contains(k));
                                            }
                                        }
                                    } else {
                                        assert(self.spec_system_resources()[j2]
                                            == srs_before[j2]);
                                    }
                                }
                                assert forall|l: int|
                                    0 <= l < old(self).spec_system_resources().len() implies (
                                #[trigger] self.spec_system_resources()[l]).0 == old(
                                    self,
                                ).spec_system_resources()[l].0 by {
                                    if l != j {
                                        assert(self.spec_system_resources()[l] == srs_before[l]);
                                    }
                                }
                                assert forall|l: int|
                                    0 <= l < self.spec_system_resources().len() implies (
                                #[trigger] self.spec_system_resources()[l]).1.wf() by {
                                    if l != j {
                                        assert(self.spec_system_resources()[l] == srs_before[l]);
                                    }
                                }
                                assert forall|a: int, b: int|
                                    0 <= a < b < self.spec_system_resources().len() implies (
                                #[trigger] self.spec_system_resources()[a]).0 != (
                                #[trigger] self.spec_system_resources()[b]).0 by {
                                    assert(self.spec_system_resources()[a].0 == srs_before[a].0);
                                    assert(self.spec_system_resources()[b].0 == srs_before[b].0);
                                }
                            }
                        },
                        None => {
                            proof {
                                assert forall|l: int, j2: int, k: u64|
                                    #![trigger b0[l].1@.dom().contains(k), self.spec_system_resources()[j2]]
                                    buckets@.len() <= l < n && 0 <= j2 < old(
                                        self,
                                    ).spec_system_resources().len() && b0[l].0 == Some(
                                        old(self).spec_system_resources()[j2].0,
                                    ) && b0[l].1@.dom().contains(
                                        k,
                                    ) implies self.spec_system_resources()[j2].1.spec_resources()@.dom().contains(
                                    k,
                                ) && (old(
                                    self,
                                ).spec_system_resources()[j2].1.spec_resources()@.dom().contains(k)
                                    || self.spec_system_resources()[j2].1.spec_resources()@[k]
                                    == b0[l].1@[k]) by {
                                    if l == m - 1 {
                                        assert(self.spec_system_resources()[j2].0 != id);
                                        assert(old(self).spec_system_resources()[j2].0 != id);
                                        assert(b0[m - 1].0 == Some(id));
                                    }
                                }
                            }
                        },
                    }
                },
            }
        }
    }

    /// No registered system carries an escalation flag it could trip: a
    /// system flagged `HasRequirements` has every demanded resource type
    /// owned, and one flagged `NotBlacklisted` is blocked by no phase's
    /// blacklist. On other inputs those flags escalate a skip to a fatal
    /// error at the original's boundary, so they are excluded here.
    pub open spec fn spec_flag_escalations_ok(&self) -> bool {
        forall|i: int|
            0 <= i < self.spec_systems().len() ==> {
                let s = (#[trigger] self.spec_systems()[i]).1;
                &&& (s.spec_flags().contains(SystemFlag::HasRequirements) ==> forall|t: u64|
                    #[trigger] s.spec_accesses().spec_scheduler()@.dom().contains(t)
                        ==> self.spec_owned_tags().contains(t))
                &&& (s.spec_flags().contains(SystemFlag::NotBlacklisted) ==> forall|p: Phase|
                    !(#[trigger] self.spec_blacklists().spec_for_phase(p)).spec_blocked(
                        s.spec_accesses().spec_scheduler()@,
                    ))
            }
    }

    /// The events visible while the given phase's systems are filtered,
    /// stated over the state a tick starts from: the new-event pool after
    /// rotation and the catfish rules, plus that phase's marker.
    pub open spec fn spec_tick_events(&self, phase: Phase) -> Set<SchedulerEvent> {
        spec_apply_catfishes(self.spec_new_events(), self.spec_catfishes()).insert(
            spec_phase_marker(phase),
        )
    }

    /// The interrupt set in force for a whole tick, stated over the state
    /// the tick starts from: the rotated new-interrupt pool together with
    /// the still-running background systems.
    pub open spec fn spec_rotated_interrupts(&self) -> Set<SystemId> {
        self.spec_new_interrupts().union(self.spec_background_ids())
    }

    /// Whether the system at one position will be a candidate of the given
    /// foreground phase in the coming tick, stated entirely over the state
    /// the tick starts from: foreground-flagged, outside the rotated
    /// interrupt set, awake on the rotated events with the phase's marker,
    /// resource demands owned, and not blocked by the phase's aged rules.
    pub open spec fn spec_tick_candidate(&self, phase: Phase, i: int) -> bool {
        let entry = self.spec_systems()[i];
        &&& 0 <= i < self.spec_systems().len()
        &&& (entry.1.spec_flags().contains(SystemFlag::Blocking) || !(entry.1.spec_flags().contains(
            SystemFlag::Blocking,
        ) || entry.1.spec_flags().contains(SystemFlag::NonBlocking)))
        &&& !self.spec_rotated_interrupts().contains(entry.0)
        &&& entry.1.spec_criteria().spec_wakes(self.spec_tick_events(phase))
        &&& (forall|t: u64|
            #[trigger] entry.1.spec_accesses().spec_scheduler()@.dom().contains(t)
                ==> self.spec_owned_tags().contains(t))
        &&& !crate::blacklist::spec_rules_block(
            crate::blacklist::spec_tick_access_rules(
                self.spec_blacklists().spec_for_phase(phase).spec_access_rules(),
            ),
            crate::blacklist::spec_tick_typed_rules(
                self.spec_blacklists().spec_for_phase(phase).spec_typed_rules(),
            ),
            entry.1.spec_accesses().spec_scheduler()@,
        )
    }

    /// No event in circulation is a phase marker: markers are inserted by
    /// the phase machine itself, scoped to one phase, and a user event
    /// whose name collides with a marker would widen a marker's scope.
    /// Identifiers are hashes of display names, so such a collision is an
    /// instance of the documented hash-collision hazard: a user event
    /// named exactly like a phase would alias that phase's marker.
    pub open spec fn spec_no_marker_events(&self) -> bool {
        &&& forall|e: SchedulerEvent|
            #[trigger] self.spec_new_events().contains(e) ==> !crate::id::is_phase_marker(e)
        &&& forall|e: SchedulerEvent|
            #[trigger] self.spec_current_events().contains(e) ==> !crate::id::is_phase_marker(e)
        &&& forall|i: int|
            0 <= i < self.spec_catfishes().len() ==> !crate::id::is_phase_marker(
                (#[trigger] self.spec_catfishes()[i]).1,
            )
    }

    /// Advance one full phase cycle: rotate the event and interrupt pools,
    /// run the three foreground steps, harvest and launch background
    /// systems, and merge the newly filed resources. Per tick: a system
    /// listed in the rotated interrupt set never runs; no system runs
    /// whose accesses conflict with a reservation held when the tick
    /// began; and the tick counter never moves backwards. A launched
    /// background system ends the tick in the running set with its
    /// reservation held; a harvested one has left both, and its
    /// identifier circulates as an event from the next tick on.
    #[verifier::rlimit(100)]
    pub fn tick<R: SystemRunner<V>>(&mut self, runner: &mut R) -> (report: TickReport)
        requires
            old(self).wf(),
            old(self).spec_flag_escalations_ok(),
            old(self).spec_no_marker_events(),
            forall|si: int|
                0 <= si < old(self).spec_systems().len() && !old(
                    self,
                ).spec_background_ids().contains((#[trigger] old(self).spec_systems()[si]).0)
                    ==> old(self).spec_systems()[si].1.spec_status() == SystemStatus::Init && old(
                    self,
                ).spec_systems()[si].1.status_consistent(),
        ensures
            final(self).wf(),
            forall|si: int|
                0 <= si < final(self).spec_systems().len() && !final(self).spec_background_ids().contains((#[trigger] final(self).spec_systems()[si]).0)
                    ==> final(self).spec_systems()[si].1.spec_status() == SystemStatus::Init
                    && final(self).spec_systems()[si].1.status_consistent(),
            forall|j: int|
                0 <= j < report.executed@.len() ==> !old(self).spec_new_interrupts().contains(
                    #[trigger] report.executed@[j],
                ) && !old(self).spec_background_ids().contains(report.executed@[j]),
            forall|j: int, si: int|
                0 <= j < report.executed@.len() && 0 <= si < final(self).spec_systems().len() && (
                #[trigger] final(self).spec_systems()[si]).0 == (
                #[trigger] report.executed@[j]) ==> !old(self).spec_reservations().spec_any_conflict(
                    final(self).spec_systems()[si].1.spec_accesses().spec_scheduler()@,
                ),
            final(self).spec_current_tick().tick.0 >= old(self).spec_current_tick().tick.0,
            final(self).spec_current_events() == spec_apply_catfishes(
                old(self).spec_new_events(),
                old(self).spec_catfishes(),
            ),
            forall|e: SchedulerEvent|
                #[trigger] final(self).spec_current_events().contains(e)
                    ==> !crate::id::is_phase_marker(e),
            final(self).spec_current_interrupts() == old(self).spec_rotated_interrupts(),
            final(self).spec_new_resources().spec_buckets() == Seq::<
                (Option<SystemId>, ResourceMap<V>),
            >::empty(),
            forall|p: Phase|
                (#[trigger] final(self).spec_blacklists().spec_for_phase(p)).spec_access_rules()
                    == crate::blacklist::spec_tick_access_rules(
                    old(self).spec_blacklists().spec_for_phase(p).spec_access_rules(),
                ) && final(self).spec_blacklists().spec_for_phase(p).spec_typed_rules()
                    == crate::blacklist::spec_tick_typed_rules(
                    old(self).spec_blacklists().spec_for_phase(p).spec_typed_rules(),
                ),
            forall|k: u64|
                #[trigger] old(self).spec_resources()@.dom().contains(k) ==> final(self).spec_resources()@.dom().contains(k),
            forall|j: int|
                0 <= j < report.background_started@.len() ==> !old(
                    self,
                ).spec_new_interrupts().contains(#[trigger] report.background_started@[j]) && !old(
                    self,
                ).spec_background_ids().contains(report.background_started@[j]),
            forall|j: int|
                0 <= j < report.background_started@.len() ==> final(self).spec_reservations().spec_contains(
                    #[trigger] report.background_started@[j],
                ) && final(self).spec_background_ids().contains(report.background_started@[j]),
            forall|j: int|
                0 <= j < report.background_finished@.len() ==> old(self).spec_background_ids().contains(
                    #[trigger] report.background_finished@[j],
                ) && final(self).spec_new_events().contains(
                    SchedulerEvent(report.background_finished@[j].0),
                ) && !final(self).spec_reservations().spec_contains(report.background_finished@[j])
                    && !final(self).spec_background_ids().contains(report.background_finished@[j]),
            forall|j: int|
                0 <= j < report.executed@.len() && old(self).spec_default_systems().contains(
                    #[trigger] report.executed@[j],
                ) ==> final(self).spec_current_tick().tick.0 >= crate::tick::spec_bump(
                    old(self).spec_current_tick().tick.0,
                ),
            forall|p: Phase, si: int|
                #![trigger old(self).spec_tick_candidate(p, si)]
                p.spec_is_foreground() && old(self).spec_tick_candidate(p, si) && !old(
                    self,
                ).spec_reservations().spec_any_conflict(
                    old(self).spec_systems()[si].1.spec_accesses().spec_scheduler()@,
                ) ==> report.executed@.contains(old(self).spec_systems()[si].0) || (exists|sj: int|
                    0 <= sj < old(self).spec_systems().len() && #[trigger] old(
                        self,
                    ).spec_tick_candidate(p, sj) && (old(
                        self,
                    ).spec_systems()[sj].1.spec_ordering().before@.contains(
                        old(self).spec_systems()[si].0,
                    ) || old(self).spec_systems()[si].1.spec_ordering().after@.contains(
                        old(self).spec_systems()[sj].0,
                    ))),
    {
        let mut failed: Vec<SystemId> = Vec::new();
        let mut executed: Vec<SystemId> = Vec::new();
        let mut background_started: Vec<SystemId> = Vec::new();
        let mut background_finished: Vec<SystemId> = Vec::new();
        self.phase_ticking();
        proof {
            lemma_catfish_no_markers(
                old(self).spec_new_events(),
                old(self).spec_catfishes(),
            );
            assert forall|p: Phase| !self.spec_current_events().contains(
                #[trigger] spec_phase_marker(p),
            ) by {
                if self.spec_current_events().contains(spec_phase_marker(p)) {
                    assert(crate::id::is_phase_marker(spec_phase_marker(p)));
                }
            }
        }
        let ghost after_ticking = *self;
        proof {
            assert forall|si: int|
                0 <= si < self.spec_systems().len() && !self.spec_current_interrupts().contains(
                    (#[trigger] self.spec_systems()[si]).0,
                ) implies self.spec_systems()[si].1.spec_status() == SystemStatus::Init
                && self.spec_systems()[si].1.status_consistent() by {
                assert(self.spec_systems()[si] == old(self).spec_systems()[si]);
                assert(!old(self).spec_background_ids().contains(self.spec_systems()[si].0));
            }
        }
        let mut o1 = self.run_foreground_phase(Phase::PreProcessing, runner, &mut failed);
        let ghost after_p1 = *self;
        let ghost o1_view = o1@;
        executed.append(&mut o1);
        proof {
            assert forall|si: int|
                0 <= si < self.spec_systems().len() && !self.spec_current_interrupts().contains(
                    (#[trigger] self.spec_systems()[si]).0,
                ) implies self.spec_systems()[si].1.spec_status() == SystemStatus::Init
                && self.spec_systems()[si].1.status_consistent() by {
                assert(crate::system::spec_same_system(
                    after_ticking.spec_systems()[si].1,
                    self.spec_systems()[si].1,
                ));
                assert(after_ticking.spec_systems()[si] == old(self).spec_systems()[si]);
                assert(self.spec_current_interrupts() == after_ticking.spec_current_interrupts());
                assert(!old(self).spec_background_ids().contains(self.spec_systems()[si].0));
            }
            assert(!self.spec_current_events().contains(spec_phase_marker(Phase::Processing)));
        }
        let mut o2 = self.run_foreground_phase(Phase::Processing, runner, &mut failed);
        let ghost after_p2 = *self;
        let ghost o2_view = o2@;
        executed.append(&mut o2);
        proof {
            assert forall|si: int|
                0 <= si < self.spec_systems().len() && !self.spec_current_interrupts().contains(
                    (#[trigger] self.spec_systems()[si]).0,
                ) implies self.spec_systems()[si].1.spec_status() == SystemStatus::Init
                && self.spec_systems()[si].1.status_consistent() by {
                assert(crate::system::spec_same_system(
                    after_p1.spec_systems()[si].1,
                    self.spec_systems()[si].1,
                ));
                assert(crate::system::spec_same_system(
                    after_ticking.spec_systems()[si].1,
                    after_p1.spec_systems()[si].1,
                ));
                assert(after_ticking.spec_systems()[si] == old(self).spec_systems()[si]);
                assert(self.spec_current_interrupts() == after_ticking.spec_current_interrupts());
                assert(!old(self).spec_background_ids().contains(self.spec_systems()[si].0));
            }
            assert(!self.spec_current_events().contains(
                spec_phase_marker(Phase::PostProcessing),
            ));
        }
        let mut o3 = self.run_foreground_phase(Phase::PostProcessing, runner, &mut failed);
        let ghost after_p3 = *self;
        let ghost o3_view = o3@;
        executed.append(&mut o3);
        proof {
            assert forall|j: int|
                0 <= j < executed@.len() implies !old(self).spec_new_interrupts().contains(
                #[trigger] executed@[j],
            ) && !old(self).spec_background_ids().contains(executed@[j]) by {
                assert(after_ticking.spec_current_interrupts() == old(
                    self,
                ).spec_new_interrupts().union(old(self).spec_background_ids()));
                assert(!after_ticking.spec_current_interrupts().contains(executed@[j]));
            }
            assert forall|j: int, si: int|
                0 <= j < executed@.len() && 0 <= si < self.spec_systems().len() && (
                #[trigger] self.spec_systems()[si]).0 == (#[trigger] executed@[j]) implies !old(
                    self,
                ).spec_reservations().spec_any_conflict(
                    self.spec_systems()[si].1.spec_accesses().spec_scheduler()@,
                ) by {
                assert(crate::system::spec_same_system(
                    after_p2.spec_systems()[si].1,
                    self.spec_systems()[si].1,
                ));
                assert(crate::system::spec_same_system(
                    after_p1.spec_systems()[si].1,
                    after_p2.spec_systems()[si].1,
                ));
                assert(crate::system::spec_same_system(
                    after_ticking.spec_systems()[si].1,
                    after_p1.spec_systems()[si].1,
                ));
            }
        }
        let ghost before_bg_end = *self;
        self.phase_background_end(runner, &mut background_finished);
        proof {
            assert forall|si: int|
                0 <= si < self.spec_systems().len() && !self.spec_background_ids().contains(
                    (#[trigger] self.spec_systems()[si]).0,
                ) implies self.spec_systems()[si].1.spec_status() == SystemStatus::Init
                && self.spec_systems()[si].1.status_consistent() by {
                let sid = self.spec_systems()[si].0;
                assert((crate::system::spec_same_system(
                    before_bg_end.spec_systems()[si].1,
                    self.spec_systems()[si].1,
                ) && !before_bg_end.spec_background_ids().contains(sid)) || (
                self.spec_systems()[si].1.spec_status() == SystemStatus::Init
                    && self.spec_systems()[si].1.status_consistent()));
                if crate::system::spec_same_system(
                    before_bg_end.spec_systems()[si].1,
                    self.spec_systems()[si].1,
                ) && !before_bg_end.spec_background_ids().contains(sid) {
                    assert(before_bg_end.spec_systems()[si] == after_p3.spec_systems()[si]);
                    assert(crate::system::spec_same_system(
                        after_p2.spec_systems()[si].1,
                        after_p3.spec_systems()[si].1,
                    ));
                    assert(crate::system::spec_same_system(
                        after_p1.spec_systems()[si].1,
                        after_p2.spec_systems()[si].1,
                    ));
                    assert(crate::system::spec_same_system(
                        after_ticking.spec_systems()[si].1,
                        after_p1.spec_systems()[si].1,
                    ));
                    assert(after_ticking.spec_systems()[si] == old(self).spec_systems()[si]);
                    assert(after_p1.spec_systems()[si].0 == after_ticking.spec_systems()[si].0);
                    assert(after_p2.spec_systems()[si].0 == after_p1.spec_systems()[si].0);
                    assert(after_p3.spec_systems()[si].0 == after_p2.spec_systems()[si].0);
                    assert(old(self).spec_systems()[si].0 == sid);
                    assert(after_ticking.spec_background() == old(self).spec_background());
                    assert(after_p1.spec_background() == after_ticking.spec_background());
                    assert(after_p2.spec_background() == after_p1.spec_background());
                    assert(after_p3.spec_background() == after_p2.spec_background());
                    assert(before_bg_end.spec_background() == old(self).spec_background());
                    assert(!old(self).spec_background_ids().contains(sid)) by {
                        if old(self).spec_background_ids().contains(sid) {
                            let l = choose|l: int|
                                0 <= l < old(self).spec_background().len() && (#[trigger] old(
                                    self,
                                ).spec_background()[l]).0 == sid;
                            assert(before_bg_end.spec_background()[l].0 == sid);
                            assert(before_bg_end.spec_background_ids().contains(sid));
                        }
                    }
                    assert(old(self).spec_systems()[si].1.spec_status() == SystemStatus::Init);
                }
            }
        }
        let ghost before_bg_start = *self;
        self.phase_background_start(runner, &mut background_started);
        let ghost after_bg_start = *self;
        self.phase_movement();
        proof {
            // Events: each later phase restored the rotated-and-rewritten
            // set the Ticking phase produced.
            assert(after_p1.spec_current_events() == after_ticking.spec_current_events());
            assert(after_p2.spec_current_events() == after_p1.spec_current_events());
            assert(after_p3.spec_current_events() == after_p2.spec_current_events());
            assert(before_bg_end.spec_current_events() == after_p3.spec_current_events());
            assert(before_bg_start.spec_current_events() == before_bg_end.spec_current_events()
                || before_bg_start.spec_current_events() == after_p3.spec_current_events());
            assert(after_bg_start.spec_current_events() == before_bg_start.spec_current_events());
            assert(final(self).spec_current_events() == after_bg_start.spec_current_events());
            // Interrupts: the rotated set, with the background extension at
            // launch absorbed, since those systems were already listed.
            assert(before_bg_start.spec_current_interrupts() == after_ticking.spec_current_interrupts());
            assert(after_bg_start.spec_current_interrupts()
                == before_bg_start.spec_current_interrupts().union(
                before_bg_start.spec_background_ids(),
            ));
            assert forall|x: SystemId|
                after_bg_start.spec_current_interrupts().contains(x) implies old(
                self,
            ).spec_rotated_interrupts().contains(x) by {
                if before_bg_start.spec_background_ids().contains(x) {
                    let l = choose|l: int|
                        0 <= l < before_bg_start.spec_background().len() && (
                        #[trigger] before_bg_start.spec_background()[l]).0 == x;
                    assert(old(self).spec_background_ids().contains(
                        before_bg_start.spec_background()[l].0,
                    ));
                }
            }
            assert(after_bg_start.spec_current_interrupts() =~= old(
                self,
            ).spec_rotated_interrupts());
            assert(final(self).spec_current_interrupts()
                == after_bg_start.spec_current_interrupts());
            // Blacklists: aged once at Ticking, untouched after.
            assert forall|p: Phase|
                (#[trigger] final(self).spec_blacklists().spec_for_phase(p)).spec_access_rules()
                    == crate::blacklist::spec_tick_access_rules(
                    old(self).spec_blacklists().spec_for_phase(p).spec_access_rules(),
                ) && final(self).spec_blacklists().spec_for_phase(p).spec_typed_rules()
                    == crate::blacklist::spec_tick_typed_rules(
                    old(self).spec_blacklists().spec_for_phase(p).spec_typed_rules(),
                ) by {
                assert(final(self).spec_blacklists() == after_bg_start.spec_blacklists());
                assert(after_bg_start.spec_blacklists() == before_bg_start.spec_blacklists());
                assert(before_bg_start.spec_blacklists() == after_p3.spec_blacklists());
                assert(after_p3.spec_blacklists() == after_p2.spec_blacklists());
                assert(after_p2.spec_blacklists() == after_p1.spec_blacklists());
                assert(after_p1.spec_blacklists() == after_ticking.spec_blacklists());
            }
            // Store domain: preserved through dispatch, grown at Movement.
            assert forall|k: u64|
                #[trigger] old(self).spec_resources()@.dom().contains(k) implies final(self).spec_resources()@.dom().contains(k) by {
                assert(after_ticking.spec_resources()@.dom() == old(
                    self,
                ).spec_resources()@.dom());
                assert(after_p1.spec_resources()@.dom()
                    == after_ticking.spec_resources()@.dom());
                assert(after_p2.spec_resources()@.dom() == after_p1.spec_resources()@.dom());
                assert(after_p3.spec_resources()@.dom() == after_p2.spec_resources()@.dom());
                assert(before_bg_start.spec_resources()@.dom()
                    == after_p3.spec_resources()@.dom());
                assert(after_bg_start.spec_resources()@ == before_bg_start.spec_resources()@);
                assert(after_bg_start.spec_resources()@.dom().contains(k));
            }
            // Started background systems were outside the rotated set.
            assert forall|j: int|
                0 <= j < background_started@.len() implies !old(
                self,
            ).spec_new_interrupts().contains(#[trigger] background_started@[j]) && !old(
                self,
            ).spec_background_ids().contains(background_started@[j]) by {
                assert(!before_bg_start.spec_current_interrupts().contains(
                    background_started@[j],
                ));
                assert(before_bg_start.spec_current_interrupts()
                    == after_ticking.spec_current_interrupts());
            }
            // A default system in the order bumped the counter, which never
            // falls afterwards.
            assert forall|j: int|
                0 <= j < executed@.len() && old(self).spec_default_systems().contains(
                    #[trigger] executed@[j],
                ) implies final(self).spec_current_tick().tick.0 >= crate::tick::spec_bump(
                old(self).spec_current_tick().tick.0,
            ) by {
                assert(executed@ == o1_view + o2_view + o3_view);
                let n1 = o1_view.len() as int;
                let n2 = o2_view.len() as int;
                if j < n1 {
                    assert(executed@[j] == o1_view[j]);
                    assert(after_ticking.spec_default_systems() == old(
                        self,
                    ).spec_default_systems());
                    assert(after_p1.spec_current_tick().tick.0 >= crate::tick::spec_bump(
                        after_ticking.spec_current_tick().tick.0,
                    ));
                } else if j < n1 + n2 {
                    assert(executed@[j] == o2_view[j - n1]);
                    assert(after_p1.spec_default_systems() == old(self).spec_default_systems());
                    assert(after_p2.spec_current_tick().tick.0 >= crate::tick::spec_bump(
                        after_p1.spec_current_tick().tick.0,
                    ));
                    crate::tick::lemma_bump_monotone(
                        old(self).spec_current_tick().tick.0,
                        after_p1.spec_current_tick().tick.0,
                    );
                } else {
                    assert(executed@[j] == o3_view[j - n1 - n2]);
                    assert(after_p2.spec_default_systems() == old(self).spec_default_systems());
                    assert(after_p3.spec_current_tick().tick.0 >= crate::tick::spec_bump(
                        after_p2.spec_current_tick().tick.0,
                    ));
                    crate::tick::lemma_bump_monotone(
                        old(self).spec_current_tick().tick.0,
                        after_p2.spec_current_tick().tick.0,
                    );
                }
            }
            // Per-phase completeness, carried to the whole tick.
            assert forall|j: int|
                0 <= j < old(self).spec_systems().len() implies (
            #[trigger] after_p1.spec_systems()[j]).0 == old(self).spec_systems()[j].0
                && crate::system::spec_same_system(
                old(self).spec_systems()[j].1,
                after_p1.spec_systems()[j].1,
            ) by {
                assert(after_ticking.spec_systems()[j] == old(self).spec_systems()[j]);
                assert(crate::system::spec_same_system(
                    after_ticking.spec_systems()[j].1,
                    after_p1.spec_systems()[j].1,
                ));
            }
            assert forall|j: int|
                0 <= j < old(self).spec_systems().len() implies (
            #[trigger] after_p2.spec_systems()[j]).0 == old(self).spec_systems()[j].0
                && crate::system::spec_same_system(
                old(self).spec_systems()[j].1,
                after_p2.spec_systems()[j].1,
            ) by {
                assert(crate::system::spec_same_system(
                    old(self).spec_systems()[j].1,
                    after_p1.spec_systems()[j].1,
                ));
                assert(crate::system::spec_same_system(
                    after_p1.spec_systems()[j].1,
                    after_p2.spec_systems()[j].1,
                ));
            }
            assert(after_p1.spec_current_interrupts() == old(self).spec_rotated_interrupts());
            assert(after_p2.spec_current_interrupts() == old(self).spec_rotated_interrupts());
            assert(after_p1.spec_resources()@.dom() == old(self).spec_resources()@.dom());
            assert(after_p2.spec_resources()@.dom() == old(self).spec_resources()@.dom());
            lemma_tick_candidate_bridge(*old(self), after_ticking, Phase::PreProcessing);
            lemma_tick_candidate_bridge(*old(self), after_p1, Phase::Processing);
            lemma_tick_candidate_bridge(*old(self), after_p2, Phase::PostProcessing);
            assert forall|p: Phase, si: int|
                #![trigger old(self).spec_tick_candidate(p, si)]
                p.spec_is_foreground() && old(self).spec_tick_candidate(p, si) && !old(
                    self,
                ).spec_reservations().spec_any_conflict(
                    old(self).spec_systems()[si].1.spec_accesses().spec_scheduler()@,
                ) implies executed@.contains(old(self).spec_systems()[si].0) || (exists|sj: int|
                0 <= sj < old(self).spec_systems().len() && #[trigger] old(
                    self,
                ).spec_tick_candidate(p, sj) && (old(
                    self,
                ).spec_systems()[sj].1.spec_ordering().before@.contains(
                    old(self).spec_systems()[si].0,
                ) || old(self).spec_systems()[si].1.spec_ordering().after@.contains(
                    old(self).spec_systems()[sj].0,
                ))) by {
                let sid = old(self).spec_systems()[si].0;
                let n1 = o1_view.len() as int;
                let n2 = o2_view.len() as int;
                assert(executed@ == o1_view + o2_view + o3_view);
                if p == Phase::PreProcessing {
                    let st = after_ticking;
                    assert(st.spec_foreground_candidate_with_events(
                        p,
                        st.spec_current_events().insert(spec_phase_marker(p)),
                        si,
                    ));
                    assert(st.spec_systems()[si] == old(self).spec_systems()[si]);
                    if o1_view.contains(st.spec_systems()[si].0) {
                        let q = choose|q: int|
                            0 <= q < o1_view.len() && (#[trigger] o1_view[q]) == sid;
                        assert(executed@[q] == sid);
                    } else {
                        let sj = choose|sj: int|
                            0 <= sj < st.spec_systems().len()
                                && #[trigger] st.spec_foreground_candidate_with_events(
                                p,
                                st.spec_current_events().insert(spec_phase_marker(p)),
                                sj,
                            ) && (st.spec_systems()[sj].1.spec_ordering().before@.contains(
                                st.spec_systems()[si].0,
                            ) || st.spec_systems()[si].1.spec_ordering().after@.contains(
                                st.spec_systems()[sj].0,
                            )) && !o1_view.contains(st.spec_systems()[sj].0);
                        assert(old(self).spec_tick_candidate(p, sj));
                        assert(st.spec_systems()[sj] == old(self).spec_systems()[sj]);
                    }
                } else if p == Phase::Processing {
                    let st = after_p1;
                    assert(st.spec_foreground_candidate_with_events(
                        p,
                        st.spec_current_events().insert(spec_phase_marker(p)),
                        si,
                    ));
                    assert(st.spec_systems()[si].0 == sid);
                    assert(crate::system::spec_same_system(
                        old(self).spec_systems()[si].1,
                        st.spec_systems()[si].1,
                    ));
                    if o2_view.contains(st.spec_systems()[si].0) {
                        let q = choose|q: int|
                            0 <= q < o2_view.len() && (#[trigger] o2_view[q]) == sid;
                        assert(executed@[n1 + q] == sid);
                    } else {
                        let sj = choose|sj: int|
                            0 <= sj < st.spec_systems().len()
                                && #[trigger] st.spec_foreground_candidate_with_events(
                                p,
                                st.spec_current_events().insert(spec_phase_marker(p)),
                                sj,
                            ) && (st.spec_systems()[sj].1.spec_ordering().before@.contains(
                                st.spec_systems()[si].0,
                            ) || st.spec_systems()[si].1.spec_ordering().after@.contains(
                                st.spec_systems()[sj].0,
                            )) && !o2_view.contains(st.spec_systems()[sj].0);
                        assert(old(self).spec_tick_candidate(p, sj));
                        assert(st.spec_systems()[sj].0 == old(self).spec_systems()[sj].0);
                        assert(crate::system::spec_same_system(
                            old(self).spec_systems()[sj].1,
                            st.spec_systems()[sj].1,
                        ));
                    }
                } else {
                    let st = after_p2;
                    assert(p == Phase::PostProcessing);
                    assert(st.spec_foreground_candidate_with_events(
                        p,
                        st.spec_current_events().insert(spec_phase_marker(p)),
                        si,
                    ));
                    assert(st.spec_systems()[si].0 == sid);
                    assert(crate::system::spec_same_system(
                        old(self).spec_systems()[si].1,
                        st.spec_systems()[si].1,
                    ));
                    if o3_view.contains(st.spec_systems()[si].0) {
                        let q = choose|q: int|
                            0 <= q < o3_view.len() && (#[trigger] o3_view[q]) == sid;
                        assert(executed@[n1 + n2 + q] == sid);
                    } else {
                        let sj = choose|sj: int|
                            0 <= sj < st.spec_systems().len()
                                && #[trigger] st.spec_foreground_candidate_with_events(
                                p,
                                st.spec_current_events().insert(spec_phase_marker(p)),
                                sj,
                            ) && (st.spec_systems()[sj].1.spec_ordering().before@.contains(
                                st.spec_systems()[si].0,
                            ) || st.spec_systems()[si].1.spec_ordering().after@.contains(
                                st.spec_systems()[sj].0,
                            )) && !o3_view.contains(st.spec_systems()[sj].0);
                        assert(old(self).spec_tick_candidate(p, sj));
                        assert(st.spec_systems()[sj].0 == old(self).spec_systems()[sj].0);
                        assert(crate::system::spec_same_system(
                            old(self).spec_systems()[sj].1,
                            st.spec_systems()[sj].1,
                        ));
                    }
                }
            }
        }
        proof {
            assert(final(self).spec_reservations() == after_bg_start.spec_reservations());
            assert(final(self).spec_background() == after_bg_start.spec_background());
            assert(final(self).spec_new_events() == after_bg_start.spec_new_events());
            let obase = before_bg_start.spec_reservations().spec_entries().len() as int;
            let bbase = before_bg_start.spec_background().len() as int;
            assert forall|j: int|
                0 <= j < background_started@.len() implies final(self).spec_reservations().spec_contains(
                #[trigger] background_started@[j],
            ) && final(self).spec_background_ids().contains(background_started@[j]) by {
                assert(after_bg_start.spec_reservations().spec_entries()[obase + j].0
                    == background_started@[j]);
                assert(after_bg_start.spec_background()[bbase + j].0 == background_started@[j]);
            }
            assert forall|j: int|
                0 <= j < background_finished@.len() implies old(self).spec_background_ids().contains(
                #[trigger] background_finished@[j],
            ) && final(self).spec_new_events().contains(
                SchedulerEvent(background_finished@[j].0),
            ) && !final(self).spec_reservations().spec_contains(background_finished@[j])
                && !final(self).spec_background_ids().contains(background_finished@[j]) by {
                let fid = background_finished@[j];
                assert(old(self).spec_background_ids().contains(fid)) by {
                    let l = choose|l: int|
                        0 <= l < before_bg_end.spec_background().len() && (
                        #[trigger] before_bg_end.spec_background()[l]).0 == fid;
                    assert(before_bg_end.spec_background() == old(self).spec_background());
                    assert(old(self).spec_background()[l].0 == fid);
                }
                assert(before_bg_start.spec_new_events().contains(SchedulerEvent(fid.0)));
                assert(before_bg_start.spec_new_events().subset_of(
                    after_bg_start.spec_new_events(),
                ));
                assert(!before_bg_start.spec_reservations().spec_contains(fid));
                assert(!after_bg_start.spec_reservations().spec_contains(fid)) by {
                    if after_bg_start.spec_reservations().spec_contains(fid) {
                        let i = choose|i: int|
                            0 <= i < after_bg_start.spec_reservations().spec_entries().len() && (
                            #[trigger] after_bg_start.spec_reservations().spec_entries()[i]).0
                                == fid;
                        if i < obase {
                            assert(after_bg_start.spec_reservations().spec_entries()[i]
                                == before_bg_start.spec_reservations().spec_entries()[i]);
                            assert(before_bg_start.spec_reservations().spec_contains(fid));
                        } else {
                            let t = i - obase;
                            assert(after_bg_start.spec_reservations().spec_entries()[obase + t].0
                                == background_started@[t]);
                            assert(!old(self).spec_background_ids().contains(
                                background_started@[t],
                            ));
                        }
                    }
                }
                assert(!before_bg_start.spec_background_ids().contains(fid));
                assert(!after_bg_start.spec_background_ids().contains(fid)) by {
                    if after_bg_start.spec_background_ids().contains(fid) {
                        let l = choose|l: int|
                            0 <= l < after_bg_start.spec_background().len() && (
                            #[trigger] after_bg_start.spec_background()[l]).0 == fid;
                        if l < bbase {
                            assert(after_bg_start.spec_background()[l]
                                == before_bg_start.spec_background()[l]);
                            assert(before_bg_start.spec_background_ids().contains(fid));
                        } else {
                            let t = l - bbase;
                            assert(after_bg_start.spec_background()[bbase + t].0
                                == background_started@[t]);
                            assert(!old(self).spec_background_ids().contains(
                                background_started@[t],
                            ));
                        }
                    }
                }
            }
        }
        TickReport { executed, failed, background_started, background_finished }
    }

    /// The identifiers of the currently running background systems.
    pub open spec fn spec_background_ids(&self) -> Set<SystemId> {
        Set::new(
            |id: SystemId|
                exists|j: int|
                    0 <= j < self.spec_background().len() && (#[trigger] self.spec_background()[j]).0
                        == id,
        )
    }

    /// The running background systems' identifiers as a list.
    fn background_ids(&self) -> (r: Vec<SystemId>)
        ensures
            r@.to_set() == self.spec_background_ids(),
            r@.len() == self.spec_background().len(),
            forall|l: int|
                0 <= l < r@.len() ==> r@[l] == (#[trigger] self.spec_background()[l]).0,
    {
        let n = self.current_background_systems.len();
        let mut r: Vec<SystemId> = Vec::new();
        for j in 0..n
            invariant
                n == self.spec_background().len(),
                r@.len() == j,
                forall|l: int| 0 <= l < j ==> r@[l] == (#[trigger] self.spec_background()[l]).0,
        {
            r.push(self.current_background_systems[j].0);
        }
        proof {
            assert forall|id: SystemId| r@.to_set().contains(id) implies self.spec_background_ids().contains(
                id,
            ) by {
                let l = choose|l: int| 0 <= l < r@.len() && r@[l] == id;
                assert(self.spec_background()[l].0 == id);
            }
            assert forall|id: SystemId| self.spec_background_ids().contains(id) implies r@.to_set().contains(
                id,
            ) by {
                let l = choose|l: int|
                    0 <= l < self.spec_background().len() && (#[trigger] self.spec_background()[l]).0
                        == id;
                assert(r@[l] == id);
            }
            assert(r@.to_set() =~= self.spec_background_ids());
        }
        r
    }

    /// The `Ticking` phase: rotate events and apply the catfish rules,
    /// rotate interrupts and extend them with the still-running background
    /// systems, and age every blacklist.
    fn phase_ticking(&mut self)
        requires
            old(self).wf(),
        ensures
            final(self).wf(),
            final(self).spec_current_events() == spec_apply_catfishes(
                old(self).spec_new_events(),
                old(self).spec_catfishes(),
            ),
            final(self).spec_new_events() == Set::<SchedulerEvent>::empty(),
            final(self).spec_current_interrupts() == old(self).spec_new_interrupts().union(
                old(self).spec_background_ids(),
            ),
            final(self).spec_new_interrupts() == Set::<SystemId>::empty(),
            forall|p: Phase|
                (#[trigger] final(self).spec_blacklists().spec_for_phase(p)).spec_access_rules()
                    == crate::blacklist::spec_tick_access_rules(
                    old(self).spec_blacklists().spec_for_phase(p).spec_access_rules(),
                ) && final(self).spec_blacklists().spec_for_phase(p).spec_typed_rules()
                    == crate::blacklist::spec_tick_typed_rules(
                    old(self).spec_blacklists().spec_for_phase(p).spec_typed_rules(),
                ),
            final(self).spec_systems() == old(self).spec_systems(),
            final(self).spec_resources() == old(self).spec_resources(),
            final(self).spec_system_resources() == old(self).spec_system_resources(),
            final(self).spec_reservations() == old(self).spec_reservations(),
            final(self).spec_background() == old(self).spec_background(),
            final(self).spec_catfishes() == old(self).spec_catfishes(),
            final(self).spec_bubbles() == spec_tick_bubbles(old(self).spec_bubbles()),
            final(self).spec_default_systems() == old(self).spec_default_systems(),
            final(self).spec_threads() == old(self).spec_threads(),
            final(self).spec_current_tick() == old(self).spec_current_tick(),
            final(self).spec_new_resources() == old(self).spec_new_resources(),
    {
        self.current_events.tick(&mut self.new_events);
        let cn = self.catfishes.len();
        for i in 0..cn
            invariant
                cn == self.spec_catfishes().len(),
                self.wf(),
                self.spec_catfishes() == old(self).spec_catfishes(),
                self.spec_current_events() == spec_apply_catfishes(
                    old(self).spec_new_events(),
                    old(self).spec_catfishes().take(i as int),
                ),
                self.spec_new_events() == Set::<SchedulerEvent>::empty(),
                self.spec_new_interrupts() == old(self).spec_new_interrupts(),
                self.spec_current_interrupts() == old(self).spec_current_interrupts(),
                self.spec_systems() == old(self).spec_systems(),
                self.spec_resources() == old(self).spec_resources(),
                self.spec_system_resources() == old(self).spec_system_resources(),
                self.spec_reservations() == old(self).spec_reservations(),
                self.spec_background() == old(self).spec_background(),
                self.spec_bubbles() == old(self).spec_bubbles(),
                self.spec_default_systems() == old(self).spec_default_systems(),
                self.spec_threads() == old(self).spec_threads(),
                self.spec_current_tick() == old(self).spec_current_tick(),
                self.spec_new_resources() == old(self).spec_new_resources(),
                self.spec_blacklists() == old(self).spec_blacklists(),
        {
            let rule = self.catfishes[i];
            if self.current_events.contains(&rule.0) {
                self.current_events.insert(rule.1);
            }
            proof {
                assert(old(self).spec_catfishes().take(i + 1).drop_last() =~= old(
                    self,
                ).spec_catfishes().take(i as int));
                assert(old(self).spec_catfishes().take(i + 1).last() == rule);
            }
        }
        proof {
            assert(old(self).spec_catfishes().take(cn as int) =~= old(self).spec_catfishes());
        }
        self.current_interrupts.tick(&mut self.new_interrupts);
        let bg_ids = self.background_ids();
        self.current_interrupts.extend(&bg_ids);
        self.blacklists.tick();
        let ghost b0 = self.spec_bubbles();
        let ghost n = b0.len() as int;
        let mut pending: Vec<(Lifetime, SchedulerEvent, WakeRule)> = Vec::new();
        core::mem::swap(&mut pending, &mut self.bubbles);
        let mut rev: Vec<(Lifetime, SchedulerEvent, WakeRule)> = Vec::new();
        while pending.len() > 0
            invariant
                n == b0.len(),
                pending@.len() <= n,
                pending@ == b0.take(pending@.len() as int),
                rev@.len() == n - pending@.len(),
                forall|q: int| 0 <= q < rev@.len() ==> rev@[q] == b0[n - 1 - q],
            decreases pending@.len(),
        {
            let ghost m = pending@.len() as int;
            proof {
                assert(pending@ == b0.take(m));
            }
            let entry = pending.pop().unwrap();
            proof {
                assert(entry == b0.take(m)[m - 1]);
                assert(b0.take(m)[m - 1] == b0[m - 1]);
                assert(pending@ =~= b0.take(m - 1));
            }
            rev.push(entry);
            proof {
                assert(rev@.last() == b0[m - 1]);
            }
        }
        let mut kept: Vec<(Lifetime, SchedulerEvent, WakeRule)> = Vec::new();
        while rev.len() > 0
            invariant
                n == b0.len(),
                rev@.len() <= n,
                forall|q: int| 0 <= q < rev@.len() ==> rev@[q] == b0[n - 1 - q],
                kept@ == spec_tick_bubbles(b0.take(n - rev@.len())),
            decreases rev@.len(),
        {
            let ghost k = n - rev@.len() as int;
            let (mut life, event, rule) = rev.pop().unwrap();
            proof {
                assert((life, event, rule) == b0[k]);
            }
            let keep = life.tick();
            if keep {
                kept.push((life, event, rule));
            }
            proof {
                assert(b0.take(k + 1).drop_last() =~= b0.take(k));
                assert(b0.take(k + 1).last() == b0[k]);
            }
        }
        proof {
            assert(b0.take(n) =~= b0);
        }
        self.bubbles = kept;
    }

}


/// Partition a candidate list into independent groups: two systems land in
/// the same group exactly when a chain of shared ordering references links
/// them, where a system's references are itself, its `before` list and its
/// `after` list. Systems that name identifiers outside the list form
/// singleton groups. Each input system lands in exactly one group -- the
/// ghost placement map gives, for each input position, the group and slot
/// that received it -- and used to split work across workers when the
/// candidates exceed the pool width.
#[verifier::rlimit(100)]
pub fn lift_independent(systems: &Vec<(SystemId, SchedulerOrdering)>) -> (res: (
    Vec<Vec<(SystemId, SchedulerOrdering)>>,
    Ghost<Map<int, (int, int)>>,
    Ghost<Seq<Seq<int>>>,
))
    requires
        forall|i: int, j: int|
            0 <= i < j < systems@.len() ==> (#[trigger] systems@[i]).0 != (
            #[trigger] systems@[j]).0,
        forall|i: int| 0 <= i < systems@.len() ==> (#[trigger] systems@[i]).1.wf(),
    ensures
        forall|i: int|
            0 <= i < systems@.len() ==> (#[trigger] res.1@.dom().contains(i)) && 0 <= res.1@[i].0
                < res.0@.len() && 0 <= res.1@[i].1 < res.0@[res.1@[i].0]@.len()
                && res.0@[res.1@[i].0]@[res.1@[i].1].0 == systems@[i].0,
        res.2@.len() == res.0@.len(),
        forall|p: int| 0 <= p < res.0@.len() ==> (#[trigger] res.2@[p]).len() == res.0@[p]@.len(),
        forall|p: int, l: int|
            #![trigger res.2@[p][l]]
            0 <= p < res.0@.len() && 0 <= l < res.0@[p]@.len() ==> 0 <= res.2@[p][l]
                < systems@.len() && systems@[res.2@[p][l]].0 == res.0@[p]@[l].0,
        forall|p1: int, l1: int, p2: int, l2: int|
            #![trigger res.0@[p1]@[l1], res.0@[p2]@[l2]]
            0 <= p1 < res.0@.len() && 0 <= l1 < res.0@[p1]@.len() && 0 <= p2 < res.0@.len() && 0
                <= l2 < res.0@[p2]@.len() && (p1 != p2 || l1 != l2) ==> res.0@[p1]@[l1].0
                != res.0@[p2]@[l2].0,
        forall|i: int, j: int|
            #![trigger res.1@[i], res.1@[j]]
            0 <= i < systems@.len() && 0 <= j < systems@.len() && spec_positions_linked(
                systems@,
                i,
                j,
            ) ==> res.1@[i].0 == res.1@[j].0,
        forall|i: int, j: int|
            #![trigger res.1@[i], res.1@[j]]
            0 <= i < systems@.len() && 0 <= j < systems@.len() && res.1@[i].0 == res.1@[j].0
                ==> spec_connected(systems@, i, j),
{
    let n = systems.len();
    let mut comp: Vec<usize> = Vec::new();
    for i in 0..n
        invariant
            comp@.len() == i,
            i <= n,
            n == systems@.len(),
            forall|l: int| 0 <= l < i ==> (#[trigger] comp@[l]) == l,
    {
        comp.push(i);
    }
    proof {
        assert forall|a: int, b: int|
            #![trigger comp@[a], comp@[b]]
            0 <= a < n && 0 <= b < n && comp@[a] == comp@[b] implies spec_connected(
            systems@,
            a,
            b,
        ) by {
            assert(a == b);
            assert(spec_chain_linked(systems@, a, b, 0));
        }
    }
    for i in 0..n
        invariant
            n == systems@.len(),
            comp@.len() == n,
            forall|i2: int, j2: int|
                #![trigger comp@[i2], comp@[j2]]
                0 <= j2 < i2 < i && spec_positions_linked(systems@, i2, j2) ==> comp@[i2]
                    == comp@[j2],
            forall|a: int, b: int|
                #![trigger comp@[a], comp@[b]]
                0 <= a < n && 0 <= b < n && comp@[a] == comp@[b] ==> spec_connected(systems@, a, b),
    {
        for j in 0..i
            invariant
                n == systems@.len(),
                i < n,
                comp@.len() == n,
                forall|i2: int, j2: int|
                    #![trigger comp@[i2], comp@[j2]]
                    0 <= j2 < i2 < i && spec_positions_linked(systems@, i2, j2) ==> comp@[i2]
                        == comp@[j2],
                forall|j2: int|
                    #![trigger comp@[j2]]
                    0 <= j2 < j && spec_positions_linked(systems@, i as int, j2) ==> comp@[
                    i as int] == comp@[j2],
                forall|a: int, b: int|
                    #![trigger comp@[a], comp@[b]]
                    0 <= a < n && 0 <= b < n && comp@[a] == comp@[b] ==> spec_connected(
                        systems@,
                        a,
                        b,
                    ),
        {
            let linked = ordering_keys_intersect(
                &systems[i].0,
                &systems[i].1,
                &systems[j].0,
                &systems[j].1,
            );
            if comp[j] != comp[i] && linked {
                let from = comp[j];
                let to = comp[i];
                let ghost comp0 = comp@;
                for l in 0..n
                    invariant
                        n == systems@.len(),
                        comp@.len() == n,
                        comp0.len() == n,
                        forall|l2: int|
                            0 <= l2 < l ==> (#[trigger] comp@[l2]) == (if comp0[l2] == from {
                                to
                            } else {
                                comp0[l2]
                            }),
                        forall|l2: int| l <= l2 < n ==> (#[trigger] comp@[l2]) == comp0[l2],
                        to != from,
                        i < n,
                        j < i,
                        spec_positions_linked(systems@, i as int, j as int),
                        comp0[i as int] == to,
                        comp0[j as int] == from,
                        forall|a: int, b: int|
                            #![trigger comp0[a], comp0[b]]
                            0 <= a < n && 0 <= b < n && comp0[a] == comp0[b] ==> spec_connected(
                                systems@,
                                a,
                                b,
                            ),
                {
                    if comp[l] == from {
                        comp.set(l, to);
                    }
                }
                proof {
                    assert forall|a: int, b: int|
                        #![trigger comp@[a], comp@[b]]
                        0 <= a < n && 0 <= b < n && comp@[a] == comp@[b] implies spec_connected(
                        systems@,
                        a,
                        b,
                    ) by {
                        if comp0[a] == comp0[b] {
                        } else if comp0[a] == from && comp0[b] == to {
                            assert(spec_connected(systems@, a, j as int));
                            lemma_chain_step(systems@, i as int, j as int);
                            lemma_connected_sym(systems@, i as int, j as int);
                            assert(spec_connected(systems@, i as int, b));
                            lemma_connected_trans(systems@, a, j as int, i as int);
                            lemma_connected_trans(systems@, a, i as int, b);
                        } else if comp0[b] == from && comp0[a] == to {
                            assert(spec_connected(systems@, b, j as int));
                            lemma_chain_step(systems@, i as int, j as int);
                            lemma_connected_sym(systems@, i as int, j as int);
                            assert(spec_connected(systems@, i as int, a));
                            lemma_connected_trans(systems@, b, j as int, i as int);
                            lemma_connected_trans(systems@, b, i as int, a);
                            lemma_connected_sym(systems@, b, a);
                        } else {
                            assert(comp@[a] == comp0[a] && comp@[b] == comp0[b]);
                        }
                    }
                    assert forall|i2: int, j2: int|
                        #![trigger comp@[i2], comp@[j2]]
                        0 <= j2 < i2 < i && spec_positions_linked(systems@, i2, j2) implies comp@[i2]
                        == comp@[j2] by {
                        assert(comp0[i2] == comp0[j2]);
                    }
                    assert forall|j2: int|
                        #![trigger comp@[j2]]
                        0 <= j2 < j + 1 && spec_positions_linked(systems@, i as int, j2) implies comp@[
                        i as int] == comp@[j2] by {
                        if j2 < j {
                            assert(comp0[i as int] == comp0[j2]);
                        } else {
                            assert(comp0[j2] == from);
                            assert(comp@[j2] == to);
                            assert(comp0[i as int] == to);
                            assert(comp@[i as int] == to);
                        }
                    }
                }
            } else {
                proof {
                    assert forall|j2: int|
                        #![trigger comp@[j2]]
                        0 <= j2 < j + 1 && spec_positions_linked(systems@, i as int, j2) implies comp@[
                        i as int] == comp@[j2] by {}
                }
            }
        }
        proof {
            assert forall|i2: int, j2: int|
                #![trigger comp@[i2], comp@[j2]]
                0 <= j2 < i2 < i + 1 && spec_positions_linked(systems@, i2, j2) implies comp@[i2]
                == comp@[j2] by {}
        }
    }
    let mut parts: Vec<Vec<(SystemId, SchedulerOrdering)>> = Vec::new();
    let mut labels: Vec<usize> = Vec::new();
    let ghost mut place: Map<int, (int, int)> = Map::empty();
    let ghost mut srcs: Seq<Seq<int>> = Seq::empty();
    for i in 0..n
        invariant
            n == systems@.len(),
            comp@.len() == n,
            forall|i2: int, j2: int|
                0 <= i2 < j2 < systems@.len() ==> (#[trigger] systems@[i2]).0 != (
                #[trigger] systems@[j2]).0,
            parts@.len() == labels@.len(),
            srcs.len() == parts@.len(),
            forall|p: int| 0 <= p < srcs.len() ==> (#[trigger] srcs[p]).len() == parts@[p]@.len(),
            forall|p: int, l: int|
                #![trigger srcs[p][l]]
                0 <= p < srcs.len() && 0 <= l < srcs[p].len() ==> 0 <= srcs[p][l] < n && comp@[
                    srcs[p][l]] == labels@[p] && systems@[srcs[p][l]].0 == parts@[p]@[l].0,
            forall|p: int, l1: int, l2: int|
                #![trigger srcs[p][l1], srcs[p][l2]]
                0 <= p < srcs.len() && 0 <= l1 < l2 < srcs[p].len() ==> srcs[p][l1] < srcs[p][l2],
            labels@.no_duplicates(),
            forall|i2: int|
                #![trigger place.dom().contains(i2)]
                place.dom().contains(i2) ==> 0 <= i2 < n && 0 <= place[i2].0 < parts@.len() && 0
                    <= place[i2].1 < parts@[place[i2].0]@.len() && parts@[place[i2].0]@[place[
                    i2].1].0 == systems@[i2].0 && labels@[place[i2].0] == comp@[i2],
            forall|l2: int|
                #![trigger comp@[l2]]
                0 <= l2 < n && labels@.contains(comp@[l2]) ==> place.dom().contains(l2),
            forall|i2: int| #![trigger comp@[i2]] 0 <= i2 < i ==> labels@.contains(comp@[i2]),
            forall|a: int, b: int|
                #![trigger comp@[a], comp@[b]]
                0 <= a < n && 0 <= b < n && comp@[a] == comp@[b] ==> spec_connected(systems@, a, b),
    {
        let lab = comp[i];
        if !crate::access::contains_tag_usize(&labels, lab) {
            let mut part: Vec<(SystemId, SchedulerOrdering)> = Vec::new();
            let ghost mut psrc: Seq<int> = Seq::empty();
            let ghost mut padd: Map<int, (int, int)> = Map::empty();
            let ghost pnew = parts@.len() as int;
            for l in 0..n
                invariant
                    n == systems@.len(),
                    comp@.len() == n,
                    pnew == parts@.len(),
                    psrc.len() == part@.len(),
                    forall|q: int|
                        #![trigger psrc[q]]
                        0 <= q < psrc.len() ==> 0 <= psrc[q] < l && comp@[psrc[q]] == lab
                            && systems@[psrc[q]].0 == part@[q].0,
                    forall|q1: int, q2: int|
                        #![trigger psrc[q1], psrc[q2]]
                        0 <= q1 < q2 < psrc.len() ==> psrc[q1] < psrc[q2],
                    forall|l2: int|
                        #![trigger padd.dom().contains(l2)]
                        padd.dom().contains(l2) ==> 0 <= l2 < l && comp@[l2] == lab && padd[l2].0
                            == pnew && 0 <= padd[l2].1 < part@.len() && part@[padd[l2].1].0
                            == systems@[l2].0,
                    forall|l2: int|
                        #![trigger comp@[l2]]
                        0 <= l2 < l && comp@[l2] == lab ==> padd.dom().contains(l2),
            {
                if comp[l] == lab {
                    let ghost part_before = part@;
                    let entry = (systems[l].0, systems[l].1.clone());
                    part.push(entry);
                    proof {
                        assert(part@.drop_last() =~= part_before);
                        assert(part@.last().0 == systems@[l as int].0);
                        psrc = psrc.push(l as int);
                        padd = padd.insert(l as int, (pnew, part@.len() - 1));
                    }
                }
            }
            let ghost parts_before = parts@;
            let ghost part_final = part@;
            parts.push(part);
            labels.push(lab);
            proof {
                assert(parts@.drop_last() =~= parts_before);
                assert(labels@.drop_last() =~= labels@.take(labels@.len() - 1));
                assert(labels@.last() == lab);
                assert(parts@[pnew]@ == part_final);
                srcs = srcs.push(psrc);
                let ghost place_before = place;
                let ghost labels_before = labels@.take(labels@.len() - 1);
                place = place.union_prefer_right(padd);
                assert forall|a: int, b: int| 0 <= a < b < labels@.len() implies labels@[a]
                    != labels@[b] by {
                    if b == labels@.len() - 1 {
                        assert(labels@.take(labels@.len() - 1).contains(labels@[a]));
                    }
                }
                assert forall|i2: int|
                    #![trigger place.dom().contains(i2)]
                    place.dom().contains(i2) implies 0 <= i2 < n && 0 <= place[i2].0
                    < parts@.len() && 0 <= place[i2].1 < parts@[place[i2].0]@.len() && parts@[
                place[i2].0]@[place[i2].1].0 == systems@[i2].0 && labels@[place[i2].0]
                    == comp@[i2] by {
                    if padd.dom().contains(i2) {
                        assert(place[i2] == padd[i2]);
                        assert(labels@[labels@.len() - 1] == lab);
                    } else {
                        assert(place_before.dom().contains(i2));
                        assert(place[i2] == place_before[i2]);
                        assert(parts@[place[i2].0] == parts_before[place[i2].0]);
                        assert(labels@[place[i2].0] == labels_before[place[i2].0]);
                    }
                }
                assert forall|l2: int|
                    #![trigger comp@[l2]]
                    0 <= l2 < n && labels@.contains(comp@[l2]) implies place.dom().contains(
                    l2,
                ) by {
                    if comp@[l2] == lab {
                        assert(padd.dom().contains(l2));
                    } else {
                        let a = choose|a: int| 0 <= a < labels@.len() && labels@[a] == comp@[l2];
                        assert(a < labels@.len() - 1);
                        assert(labels_before[a] == comp@[l2]);
                        assert(labels_before.contains(comp@[l2]));
                        assert(place_before.dom().contains(l2));
                    }
                }
            }
        }
        proof {
            assert forall|i2: int| #![trigger comp@[i2]] 0 <= i2 < i + 1 implies labels@.contains(
                comp@[i2],
            ) by {
                if i2 == i as int {
                    assert(labels@[labels@.len() - 1] == comp@[i2]
                        || labels@.contains(comp@[i2]));
                }
            }
        }
    }
    proof {
        assert forall|i: int| 0 <= i < systems@.len() implies (#[trigger] place.dom().contains(
            i,
        )) && 0 <= place[i].0 < parts@.len() && 0 <= place[i].1 < parts@[place[i].0]@.len()
            && parts@[place[i].0]@[place[i].1].0 == systems@[i].0 by {
            assert(labels@.contains(comp@[i]));
        }

        assert forall|i: int, j: int|
            #![trigger place[i], place[j]]
            0 <= i < systems@.len() && 0 <= j < systems@.len() && spec_positions_linked(
                systems@,
                i,
                j,
            ) implies place[i].0 == place[j].0 by {
            assert(labels@.contains(comp@[i]));
            assert(labels@.contains(comp@[j]));
            assert(place.dom().contains(i));
            assert(place.dom().contains(j));
            assert(comp@[i] == comp@[j]) by {
                if i == j {
                } else if j < i {
                } else {
                    lemma_linked_sym(systems@[i].0, systems@[i].1, systems@[j].0, systems@[j].1);
                    assert(spec_positions_linked(systems@, j, i));
                }
            }
            assert(labels@[place[i].0] == labels@[place[j].0]);
            if place[i].0 != place[j].0 {
                assert(labels@[place[i].0] != labels@[place[j].0]);
            }
        }
        assert forall|p1: int, l1: int, p2: int, l2: int|
            #![trigger parts@[p1]@[l1], parts@[p2]@[l2]]
            0 <= p1 < parts@.len() && 0 <= l1 < parts@[p1]@.len() && 0 <= p2 < parts@.len() && 0
                <= l2 < parts@[p2]@.len() && (p1 != p2 || l1 != l2) implies parts@[p1]@[l1].0
            != parts@[p2]@[l2].0 by {
            let i1 = srcs[p1][l1];
            let i2 = srcs[p2][l2];
            assert(systems@[i1].0 == parts@[p1]@[l1].0);
            assert(systems@[i2].0 == parts@[p2]@[l2].0);
            if p1 == p2 {
                if l1 < l2 {
                    assert(srcs[p1][l1] < srcs[p1][l2]);
                } else {
                    assert(srcs[p1][l2] < srcs[p1][l1]);
                }
                assert(i1 != i2);
            } else {
                assert(comp@[i1] == labels@[p1]);
                assert(comp@[i2] == labels@[p2]);
                assert(labels@[p1] != labels@[p2]);
                assert(i1 != i2);
            }
            if i1 < i2 {
                assert(systems@[i1].0 != systems@[i2].0);
            } else {
                assert(systems@[i2].0 != systems@[i1].0);
            }
        }
        assert forall|i: int, j: int|
            #![trigger place[i], place[j]]
            0 <= i < systems@.len() && 0 <= j < systems@.len() && place[i].0 == place[j].0
            implies spec_connected(systems@, i, j) by {
            assert(labels@.contains(comp@[i]));
            assert(labels@.contains(comp@[j]));
            assert(place.dom().contains(i));
            assert(place.dom().contains(j));
            assert(labels@[place[i].0] == comp@[i]);
            assert(labels@[place[j].0] == comp@[j]);
            assert(comp@[i] == comp@[j]);
        }
    }
    (parts, Ghost(place), Ghost(srcs))
}

/// The link relation is symmetric.
proof fn lemma_linked_sym(
    a_id: SystemId,
    a: SchedulerOrdering,
    b_id: SystemId,
    b: SchedulerOrdering,
)
    ensures
        spec_ordering_linked(a_id, a, b_id, b) == spec_ordering_linked(b_id, b, a_id, a),
{
    if spec_ordering_linked(a_id, a, b_id, b) && !(a_id == b_id || a.before@.contains(b_id)
        || a.after@.contains(b_id) || b.before@.contains(a_id) || b.after@.contains(a_id)) {
        let x = choose|x: SystemId|
            #![trigger a.before@.contains(x)]
            #![trigger a.after@.contains(x)]
            (a.before@.contains(x) || a.after@.contains(x)) && (b.before@.contains(x)
                || b.after@.contains(x));
        assert((b.before@.contains(x) || b.after@.contains(x)) && (a.before@.contains(x)
            || a.after@.contains(x)));
    }
    if spec_ordering_linked(b_id, b, a_id, a) && !(a_id == b_id || a.before@.contains(b_id)
        || a.after@.contains(b_id) || b.before@.contains(a_id) || b.after@.contains(a_id)) {
        let x = choose|x: SystemId|
            #![trigger b.before@.contains(x)]
            #![trigger b.after@.contains(x)]
            (b.before@.contains(x) || b.after@.contains(x)) && (a.before@.contains(x)
                || a.after@.contains(x));
        assert((a.before@.contains(x) || a.after@.contains(x)) && (b.before@.contains(x)
            || b.after@.contains(x)));
    }
}

/// Positions `i` and `j` of a candidate list are linked by a shared
/// ordering reference.
pub open spec fn spec_positions_linked(
    systems: Seq<(SystemId, SchedulerOrdering)>,
    i: int,
    j: int,
) -> bool {
    spec_ordering_linked(systems[i].0, systems[i].1, systems[j].0, systems[j].1)
}

/// Positions `i` and `j` are joined by a chain of at most `k` links, each
/// step staying inside the list.
pub open spec fn spec_chain_linked(
    systems: Seq<(SystemId, SchedulerOrdering)>,
    i: int,
    j: int,
    k: nat,
) -> bool
    decreases k,
{
    if i == j {
        true
    } else if k == 0 {
        false
    } else {
        exists|m: int|
            0 <= m < systems.len() && #[trigger] spec_positions_linked(systems, i, m)
                && spec_chain_linked(systems, m, j, (k - 1) as nat)
    }
}

/// Positions `i` and `j` are weakly connected: some chain of shared
/// ordering references joins them.
pub open spec fn spec_connected(systems: Seq<(SystemId, SchedulerOrdering)>, i: int, j: int) -> bool {
    exists|k: nat| spec_chain_linked(systems, i, j, k)
}

/// A single link is a chain of length one.
proof fn lemma_chain_step(systems: Seq<(SystemId, SchedulerOrdering)>, i: int, j: int)
    requires
        0 <= i < systems.len(),
        0 <= j < systems.len(),
        spec_positions_linked(systems, i, j),
    ensures
        spec_connected(systems, i, j),
{
    assert(spec_chain_linked(systems, j, j, 0));
    assert(spec_chain_linked(systems, i, j, 1));
}

/// Chains concatenate.
proof fn lemma_chain_concat(
    systems: Seq<(SystemId, SchedulerOrdering)>,
    i: int,
    m: int,
    j: int,
    k1: nat,
    k2: nat,
)
    requires
        spec_chain_linked(systems, i, m, k1),
        spec_chain_linked(systems, m, j, k2),
    ensures
        spec_chain_linked(systems, i, j, (k1 + k2) as nat),
    decreases k1,
{
    if i == m {
        lemma_chain_pad(systems, m, j, k2, (k1 + k2) as nat);
    } else {
        let x = choose|x: int|
            0 <= x < systems.len() && #[trigger] spec_positions_linked(systems, i, x)
                && spec_chain_linked(systems, x, m, (k1 - 1) as nat);
        lemma_chain_concat(systems, x, m, j, (k1 - 1) as nat, k2);
        assert(spec_chain_linked(systems, x, j, (k1 - 1 + k2) as nat));
        assert(spec_chain_linked(systems, i, j, (k1 + k2) as nat));
    }
}

/// A chain stays a chain under a larger bound.
proof fn lemma_chain_pad(systems: Seq<(SystemId, SchedulerOrdering)>, i: int, j: int, k1: nat, k2: nat)
    requires
        spec_chain_linked(systems, i, j, k1),
        k1 <= k2,
    ensures
        spec_chain_linked(systems, i, j, k2),
    decreases k1,
{
    if i != j {
        let x = choose|x: int|
            0 <= x < systems.len() && #[trigger] spec_positions_linked(systems, i, x)
                && spec_chain_linked(systems, x, j, (k1 - 1) as nat);
        lemma_chain_pad(systems, x, j, (k1 - 1) as nat, (k2 - 1) as nat);
        assert(spec_chain_linked(systems, i, j, k2));
    }
}

/// Connection is transitive.
proof fn lemma_connected_trans(systems: Seq<(SystemId, SchedulerOrdering)>, i: int, m: int, j: int)
    requires
        spec_connected(systems, i, m),
        spec_connected(systems, m, j),
    ensures
        spec_connected(systems, i, j),
{
    let k1 = choose|k1: nat| spec_chain_linked(systems, i, m, k1);
    let k2 = choose|k2: nat| spec_chain_linked(systems, m, j, k2);
    lemma_chain_concat(systems, i, m, j, k1, k2);
}

/// Connection is symmetric, one link at a time.
proof fn lemma_connected_sym(systems: Seq<(SystemId, SchedulerOrdering)>, i: int, j: int)
    requires
        spec_connected(systems, i, j),
        0 <= i < systems.len(),
    ensures
        spec_connected(systems, j, i),
{
    let k = choose|k: nat| spec_chain_linked(systems, i, j, k);
    lemma_chain_rev(systems, i, j, k);
}

/// Reversing a chain, using the symmetry of single links.
proof fn lemma_chain_rev(systems: Seq<(SystemId, SchedulerOrdering)>, i: int, j: int, k: nat)
    requires
        spec_chain_linked(systems, i, j, k),
        0 <= i < systems.len(),
    ensures
        spec_connected(systems, j, i),
    decreases k,
{
    if i == j {
        assert(spec_chain_linked(systems, j, i, 0));
    } else {
        let x = choose|x: int|
            0 <= x < systems.len() && #[trigger] spec_positions_linked(systems, i, x)
                && spec_chain_linked(systems, x, j, (k - 1) as nat);
        lemma_chain_rev(systems, x, j, (k - 1) as nat);
        lemma_linked_sym(systems[i].0, systems[i].1, systems[x].0, systems[x].1);
        lemma_chain_step(systems, x, i);
        lemma_connected_trans(systems, j, x, i);
    }
}

/// Two systems' ordering key sets intersect: each set is the system's own
/// identifier together with its `before` and `after` lists.
pub open spec fn spec_ordering_linked(
    a_id: SystemId,
    a: SchedulerOrdering,
    b_id: SystemId,
    b: SchedulerOrdering,
) -> bool {
    ||| a_id == b_id
    ||| a.before@.contains(b_id)
    ||| a.after@.contains(b_id)
    ||| b.before@.contains(a_id)
    ||| b.after@.contains(a_id)
    ||| exists|x: SystemId|
        #![trigger a.before@.contains(x)]
        #![trigger a.after@.contains(x)]
        (a.before@.contains(x) || a.after@.contains(x)) && (b.before@.contains(x)
            || b.after@.contains(x))
}

/// Whether two systems' ordering key sets intersect.
fn ordering_keys_intersect(
    a_id: &SystemId,
    a: &SchedulerOrdering,
    b_id: &SystemId,
    b: &SchedulerOrdering,
) -> (r: bool)
    ensures
        r == spec_ordering_linked(*a_id, *a, *b_id, *b),
{
    if a_id == b_id {
        return true;
    }
    if crate::interrupts::contains_system(&a.before, b_id) || crate::interrupts::contains_system(
        &a.after,
        b_id,
    ) {
        return true;
    }
    if crate::interrupts::contains_system(&b.before, a_id) || crate::interrupts::contains_system(
        &b.after,
        a_id,
    ) {
        return true;
    }
    let n = a.before.len();
    for i in 0..n
        invariant
            n == a.before@.len(),
            forall|j: int|
                0 <= j < i ==> !b.before@.contains(#[trigger] a.before@[j]) && !b.after@.contains(
                    a.before@[j],
                ),
    {
        if crate::interrupts::contains_system(&b.before, &a.before[i])
            || crate::interrupts::contains_system(&b.after, &a.before[i]) {
            proof {
                assert(a.before@.contains(a.before@[i as int]));
            }
            return true;
        }
    }
    let m = a.after.len();
    for i in 0..m
        invariant
            m == a.after@.len(),
            forall|j: int|
                0 <= j < i ==> !b.before@.contains(#[trigger] a.after@[j]) && !b.after@.contains(
                    a.after@[j],
                ),
            forall|j: int|
                0 <= j < a.before@.len() ==> !b.before@.contains(#[trigger] a.before@[j])
                    && !b.after@.contains(a.before@[j]),
    {
        if crate::interrupts::contains_system(&b.before, &a.after[i])
            || crate::interrupts::contains_system(&b.after, &a.after[i]) {
            proof {
                assert(a.after@.contains(a.after@[i as int]));
            }
            return true;
        }
    }
    proof {
        if spec_ordering_linked(*a_id, *a, *b_id, *b) {
            let x = choose|x: SystemId|
                #![trigger a.before@.contains(x)]
                #![trigger a.after@.contains(x)]
                (a.before@.contains(x) || a.after@.contains(x)) && (b.before@.contains(x)
                    || b.after@.contains(x));
            if a.before@.contains(x) {
                let j = choose|j: int| 0 <= j < a.before@.len() && a.before@[j] == x;
            } else {
                let j = choose|j: int| 0 <= j < a.after@.len() && a.after@[j] == x;
            }
        }
    }
    false
}

/// The bubbles after one tick of aging: each survivor is one tick older,
/// expired bubbles are gone, order is kept.
pub open spec fn spec_tick_bubbles(s: Seq<(Lifetime, SchedulerEvent, WakeRule)>) -> Seq<
    (Lifetime, SchedulerEvent, WakeRule),
>
    decreases s.len(),
{
    if s.len() == 0 {
        Seq::empty()
    } else {
        let rest = spec_tick_bubbles(s.drop_last());
        let aged = s.last().0.spec_aged();
        if aged.spec_alive() {
            rest.push((aged, s.last().1, s.last().2))
        } else {
            rest
        }
    }
}

/// The current event set after the catfish rules are applied once, in
/// rule order: a rule whose target is visible contributes its insert.
pub open spec fn spec_apply_catfishes(
    events: Set<SchedulerEvent>,
    rules: Seq<(SchedulerEvent, SchedulerEvent)>,
) -> Set<SchedulerEvent>
    decreases rules.len(),
{
    if rules.len() == 0 {
        events
    } else {
        let prev = spec_apply_catfishes(events, rules.drop_last());
        if prev.contains(rules.last().0) {
            prev.insert(rules.last().1)
        } else {
            prev
        }
    }
}

/// The candidate predicate is stable across a tick's phases: a state
/// whose systems, interrupt set, owned tags and aged rules match the
/// tick's starting state selects exactly the tick's candidates.
proof fn lemma_tick_candidate_bridge<V>(start: Scheduler<V>, at_phase: Scheduler<V>, phase: Phase)
    requires
        at_phase.spec_systems().len() == start.spec_systems().len(),
        forall|j: int|
            0 <= j < start.spec_systems().len() ==> (#[trigger] at_phase.spec_systems()[j]).0
                == start.spec_systems()[j].0 && crate::system::spec_same_system(
                start.spec_systems()[j].1,
                at_phase.spec_systems()[j].1,
            ),
        at_phase.spec_current_events() == spec_apply_catfishes(
            start.spec_new_events(),
            start.spec_catfishes(),
        ),
        at_phase.spec_current_interrupts() == start.spec_rotated_interrupts(),
        at_phase.spec_resources()@.dom() == start.spec_resources()@.dom(),
        forall|p: Phase|
            (#[trigger] at_phase.spec_blacklists().spec_for_phase(p)).spec_access_rules()
                == crate::blacklist::spec_tick_access_rules(
                start.spec_blacklists().spec_for_phase(p).spec_access_rules(),
            ) && at_phase.spec_blacklists().spec_for_phase(p).spec_typed_rules()
                == crate::blacklist::spec_tick_typed_rules(
                start.spec_blacklists().spec_for_phase(p).spec_typed_rules(),
            ),
    ensures
        forall|si: int|
            #[trigger] at_phase.spec_foreground_candidate_with_events(
                phase,
                at_phase.spec_current_events().insert(spec_phase_marker(phase)),
                si,
            ) == start.spec_tick_candidate(phase, si),
{
    assert(at_phase.spec_owned_tags() =~= start.spec_owned_tags());
    assert forall|si: int|
        #[trigger] at_phase.spec_foreground_candidate_with_events(
            phase,
            at_phase.spec_current_events().insert(spec_phase_marker(phase)),
            si,
        ) == start.spec_tick_candidate(phase, si) by {
        if 0 <= si < start.spec_systems().len() {
            assert(at_phase.spec_systems()[si].0 == start.spec_systems()[si].0);
            assert(crate::system::spec_same_system(
                start.spec_systems()[si].1,
                at_phase.spec_systems()[si].1,
            ));
        }
    }
}

/// Completeness of one foreground step: every candidate of the phase
/// whose accesses conflict with no held reservation either appears in the
/// step's execution order, or waits on another candidate, ordered before
/// it, that did not run (as happens inside a cycle of declared orderings).
#[verifier::rlimit(100)]
proof fn lemma_phase_completeness<V>(
    pre: Scheduler<V>,
    mid: Scheduler<V>,
    at_collect: Scheduler<V>,
    phase: Phase,
    candidates: Seq<usize>,
    pairs: Seq<(SystemId, SchedulerOrdering)>,
    graph0: ExecutionGraph,
    graph_final: ExecutionGraph,
    order: Seq<SystemId>,
)
    requires
        at_collect.spec_systems() == pre.spec_systems(),
        at_collect.spec_current_events() == pre.spec_current_events().insert(
            spec_phase_marker(phase),
        ),
        at_collect.spec_current_interrupts() == pre.spec_current_interrupts(),
        at_collect.spec_resources()@ == pre.spec_resources()@,
        at_collect.spec_blacklists() == pre.spec_blacklists(),
        forall|i: int|
            at_collect.spec_foreground_candidate(phase, i) && 0 <= i
                < at_collect.spec_systems().len() ==> candidates.contains(i as usize),
        forall|j: int|
            0 <= j < candidates.len() ==> at_collect.spec_foreground_candidate(
                phase,
                (#[trigger] candidates[j]) as int,
            ),
        forall|j: int|
            0 <= j < candidates.len() ==> (#[trigger] candidates[j])
                < at_collect.spec_systems().len(),
        candidates.no_duplicates(),
        pairs.len() == candidates.len(),
        forall|k: int|
            0 <= k < pairs.len() ==> (#[trigger] pairs[k]).0 == at_collect.spec_systems()[
            candidates[k] as int].0,
        forall|k: int|
            0 <= k < pairs.len() ==> ((#[trigger] pairs[k]).1.before@
                == at_collect.spec_systems()[candidates[k] as int].1.spec_ordering().before@
                && pairs[k].1.after@ == at_collect.spec_systems()[candidates[
            k] as int].1.spec_ordering().after@),
        graph0.spec_ids().len() == pairs.len(),
        forall|i: int| 0 <= i < pairs.len() ==> graph0.spec_ids()[i] == (#[trigger] pairs[i]).0,
        forall|u: int, v: int|
            0 <= u < pairs.len() && 0 <= v < pairs.len() ==> (#[trigger] graph0.spec_has_edge(u, v)
                == crate::graph::spec_edge(pairs, u, v)),
        graph0.wf(),
        graph_final.spec_ids() == graph0.spec_ids(),
        graph_final.spec_preds() == graph0.spec_preds(),
        forall|v: int| 0 <= v < graph0.spec_ids().len() ==> !graph_final.spec_is_leaf(v),
        forall|v: int|
            0 <= v < graph0.spec_ids().len() && order.contains(#[trigger] graph0.spec_ids()[v])
                ==> graph_final.spec_status()[v] == crate::graph::NodeStatus::Complete,
        forall|v: int, si: int|
            #![trigger graph_final.spec_status()[v], mid.spec_systems()[si]]
            0 <= v < graph0.spec_ids().len() && 0 <= si < mid.spec_systems().len()
                && mid.spec_systems()[si].0 == graph0.spec_ids()[v] && graph_final.spec_status()[v]
                == crate::graph::NodeStatus::Complete && !pre.spec_reservations().spec_any_conflict(
                mid.spec_systems()[si].1.spec_accesses().spec_scheduler()@,
            ) ==> order.contains(graph0.spec_ids()[v]),
        mid.spec_systems().len() == pre.spec_systems().len(),
        forall|j: int|
            0 <= j < pre.spec_systems().len() ==> (#[trigger] mid.spec_systems()[j]).0
                == pre.spec_systems()[j].0 && crate::system::spec_same_system(
                pre.spec_systems()[j].1,
                mid.spec_systems()[j].1,
            ),
    ensures
        forall|si: int|
            #![trigger pre.spec_systems()[si]]
            pre.spec_foreground_candidate_with_events(
                phase,
                pre.spec_current_events().insert(spec_phase_marker(phase)),
                si,
            ) && !pre.spec_reservations().spec_any_conflict(
                pre.spec_systems()[si].1.spec_accesses().spec_scheduler()@,
            ) ==> order.contains(pre.spec_systems()[si].0) || (exists|sj: int|
                0 <= sj < pre.spec_systems().len()
                    && #[trigger] pre.spec_foreground_candidate_with_events(
                    phase,
                    pre.spec_current_events().insert(spec_phase_marker(phase)),
                    sj,
                ) && (pre.spec_systems()[sj].1.spec_ordering().before@.contains(
                    pre.spec_systems()[si].0,
                ) || pre.spec_systems()[si].1.spec_ordering().after@.contains(
                    pre.spec_systems()[sj].0,
                )) && !order.contains(pre.spec_systems()[sj].0)),
{
    let with_marker = pre.spec_current_events().insert(spec_phase_marker(phase));
    assert forall|si: int|
        #![trigger pre.spec_systems()[si]]
        pre.spec_foreground_candidate_with_events(phase, with_marker, si)
            && !pre.spec_reservations().spec_any_conflict(
            pre.spec_systems()[si].1.spec_accesses().spec_scheduler()@,
        ) implies order.contains(pre.spec_systems()[si].0) || (exists|sj: int|
        0 <= sj < pre.spec_systems().len()
            && #[trigger] pre.spec_foreground_candidate_with_events(phase, with_marker, sj) && (
        pre.spec_systems()[sj].1.spec_ordering().before@.contains(pre.spec_systems()[si].0)
            || pre.spec_systems()[si].1.spec_ordering().after@.contains(
            pre.spec_systems()[sj].0,
        )) && !order.contains(pre.spec_systems()[sj].0)) by {
        assert(at_collect.spec_owned_tags() == pre.spec_owned_tags());
        assert(at_collect.spec_foreground_candidate(phase, si));
        assert(candidates.contains(si as usize));
        let k = choose|k: int| 0 <= k < candidates.len() && (#[trigger] candidates[k]) == si as usize;
        assert(vstd::std_specs::vec::spec_vec_len(&pre.systems) == pre.systems@.len());
        assert(si <= usize::MAX as int);
        assert(candidates[k] as int == si);
        assert(pairs[k].0 == at_collect.spec_systems()[candidates[k] as int].0);
        assert(at_collect.spec_systems()[si] == pre.spec_systems()[si]);
        assert(graph0.spec_ids()[k] == pairs[k].0);
        let sid = pre.spec_systems()[si].0;
        assert(graph0.spec_ids()[k] == sid);
        if graph_final.spec_status()[k] == crate::graph::NodeStatus::Complete {
            assert(mid.spec_systems()[si].0 == sid);
            assert(crate::system::spec_same_system(
                pre.spec_systems()[si].1,
                mid.spec_systems()[si].1,
            ));
            assert(order.contains(graph0.spec_ids()[k]));
        } else {
            assert(!graph_final.spec_is_leaf(k));
            let l = choose|l: int|
                0 <= l < graph_final.spec_preds()[k].len() && graph_final.spec_status()[(
                #[trigger] graph_final.spec_preds()[k][l]) as int]
                    != crate::graph::NodeStatus::Complete;
            let u = graph_final.spec_preds()[k][l] as int;
            assert(graph0.spec_preds()[k] == graph_final.spec_preds()[k]);
            assert(0 <= l < graph0.spec_preds()[k].len());
            assert((graph0.spec_preds()[k][l]) as int == u);
            assert(0 <= k < graph0.spec_preds().len());
            assert(graph0.spec_has_edge(u, k));
            assert(0 <= u < graph0.spec_ids().len());
            assert(crate::graph::spec_edge(pairs, u, k));
            let sj = candidates[u] as int;
            assert(candidates[u] as int == sj);
            assert(pairs[u].0 == at_collect.spec_systems()[candidates[u] as int].0);
            assert(at_collect.spec_systems()[sj] == pre.spec_systems()[sj]);
            assert(pairs[u].0 == at_collect.spec_systems()[sj].0);
            assert(at_collect.spec_foreground_candidate(phase, sj));
            assert(pre.spec_foreground_candidate_with_events(phase, with_marker, sj));
            assert(pairs[u].1.before@ == at_collect.spec_systems()[candidates[
            u] as int].1.spec_ordering().before@);
            assert(pairs[u].1.before@ == pre.spec_systems()[sj].1.spec_ordering().before@);
            assert(pairs[k].1.after@ == at_collect.spec_systems()[candidates[
            k] as int].1.spec_ordering().after@);
            assert(pairs[k].1.after@ == pre.spec_systems()[si].1.spec_ordering().after@);
            assert(!order.contains(pre.spec_systems()[sj].0)) by {
                if order.contains(pre.spec_systems()[sj].0) {
                    assert(order.contains(graph0.spec_ids()[u]));
                    assert(graph_final.spec_status()[u] == crate::graph::NodeStatus::Complete);
                }
            }
        }
    }
}

/// Applying the catfish rules cannot smuggle in a phase marker: when no
/// visible event is a marker and no rule inserts one, the rewritten set
/// holds no marker either.
proof fn lemma_catfish_no_markers(
    events: Set<SchedulerEvent>,
    rules: Seq<(SchedulerEvent, SchedulerEvent)>,
)
    requires
        forall|e: SchedulerEvent|
            #[trigger] events.contains(e) ==> !crate::id::is_phase_marker(e),
        forall|i: int|
            0 <= i < rules.len() ==> !crate::id::is_phase_marker((#[trigger] rules[i]).1),
    ensures
        forall|e: SchedulerEvent|
            #[trigger] spec_apply_catfishes(events, rules).contains(e)
                ==> !crate::id::is_phase_marker(e),
    decreases rules.len(),
{
    if rules.len() > 0 {
        assert(rules.drop_last() =~= rules.take(rules.len() - 1));
        lemma_catfish_no_markers(events, rules.drop_last());
        assert(!crate::id::is_phase_marker(rules[rules.len() - 1].1));
        let prev = spec_apply_catfishes(events, rules.drop_last());
        assert forall|e: SchedulerEvent|
            #[trigger] spec_apply_catfishes(events, rules).contains(e) implies !crate::id::is_phase_marker(
            e,
        ) by {
            if prev.contains(rules.last().0) {
                if e != rules.last().1 {
                    assert(prev.contains(e));
                }
            } else {
                assert(prev.contains(e));
            }
        }
    }
}

/// After completing one node, every other node keeps its status, and a
/// complete node stays complete.
proof fn lemma_dispatch_statuses_grow(before: Seq<crate::graph::NodeStatus>, after: Seq<crate::graph::NodeStatus>, v: int)
    requires
        0 <= v < before.len(),
        after == before.update(v, crate::graph::NodeStatus::Complete),
    ensures
        after.len() == before.len(),
        forall|w: int|
            0 <= w < before.len() && before[w] == crate::graph::NodeStatus::Complete
                ==> after[w] == crate::graph::NodeStatus::Complete,
        forall|w: int| 0 <= w < before.len() && w != v ==> after[w] == before[w],
{
}

} // verus!
