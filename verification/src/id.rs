//! Stable 64-bit identifiers for systems and events.
//!
//! An [`Id`] is the FNV-1a hash of a display name's UTF-8 bytes. Two
//! identifiers collide exactly when their source strings collide under this
//! hash; the design accepts that as a documented hazard. [`SystemId`] and
//! [`SchedulerEvent`] are newtypes over [`Id`] for type discipline.

use vstd::prelude::*;
use vstd::std_specs::convert::FromSpec;
use vstd::string::StringSliceAdditionalSpecFns;

use crate::phase::Phase;

verus! {

pub const FNV_OFFSET_BASIS: u64 = 0xcbf29ce484222325;

pub const FNV_PRIME: u64 = 0x100000001b3;

/// One round of FNV-1a: fold a byte into the running hash.
pub open spec fn fnv1a_step(hash: u64, byte: u8) -> u64 {
    (hash ^ (byte as u64)).wrapping_mul(FNV_PRIME)
}

/// The FNV-1a hash of a byte sequence, folded left to right.
pub open spec fn fnv1a(bytes: Seq<u8>) -> u64
    decreases bytes.len(),
{
    if bytes.len() == 0 {
        FNV_OFFSET_BASIS
    } else {
        fnv1a_step(fnv1a(bytes.drop_last()), bytes.last())
    }
}

/// The identifier value derived from a display name: the FNV-1a hash of the
/// name's UTF-8 encoding.
pub open spec fn id_of(name: Seq<char>) -> u64 {
    fnv1a(vstd::utf8::encode_utf8(name))
}

/// Hash a display name to its stable 64-bit identifier value.
pub fn hash_name(name: &str) -> (h: u64)
    ensures
        h == id_of(name@),
{
    let bytes = name.as_bytes();
    let n = bytes.len();
    let mut h: u64 = FNV_OFFSET_BASIS;
    assert(bytes@.take(0) =~= Seq::<u8>::empty());
    for i in 0..n
        invariant
            n == bytes@.len(),
            bytes@ == name.spec_bytes(),
            h == fnv1a(bytes@.take(i as int)),
    {
        let b = bytes[i];
        h = (h ^ (b as u64)).wrapping_mul(FNV_PRIME);
        assert(bytes@.take(i + 1).drop_last() =~= bytes@.take(i as int));
        assert(bytes@.take(i + 1).last() == b);
    }
    assert(bytes@.take(n as int) =~= bytes@);
    h
}

/// A stable 64-bit identifier, the hash of a display name.
#[derive(Debug, PartialEq, Eq, Structural, Hash, Clone, Copy, PartialOrd, Ord)]
pub struct Id(pub u64);

/// An event identifier, as posted to and observed from the event pools.
#[derive(Debug, PartialEq, Eq, Structural, Hash, Clone, Copy, PartialOrd, Ord)]
pub struct SchedulerEvent(pub Id);

/// A system identifier, as issued by registration.
#[derive(Debug, PartialEq, Eq, Structural, Hash, Clone, Copy, PartialOrd, Ord)]
pub struct SystemId(pub Id);

impl From<&str> for Id {
    fn from(value: &str) -> (r: Self) {
        Id(hash_name(value))
    }
}

impl vstd::std_specs::convert::FromSpecImpl<&str> for Id {
    open spec fn obeys_from_spec() -> bool {
        true
    }

    open spec fn from_spec(value: &str) -> Id {
        Id(id_of(value@))
    }
}

impl From<&Phase> for Id {
    fn from(phase: &Phase) -> (r: Self) {
        Id(hash_name(phase.name()))
    }
}

impl vstd::std_specs::convert::FromSpecImpl<&Phase> for Id {
    open spec fn obeys_from_spec() -> bool {
        true
    }

    open spec fn from_spec(phase: &Phase) -> Id {
        Id(id_of(phase.spec_name()))
    }
}

impl From<Id> for SchedulerEvent {
    fn from(value: Id) -> (r: Self) {
        SchedulerEvent(value)
    }
}

impl vstd::std_specs::convert::FromSpecImpl<Id> for SchedulerEvent {
    open spec fn obeys_from_spec() -> bool {
        true
    }

    open spec fn from_spec(value: Id) -> SchedulerEvent {
        SchedulerEvent(value)
    }
}

impl From<SchedulerEvent> for Id {
    fn from(value: SchedulerEvent) -> (r: Self) {
        value.0
    }
}

impl vstd::std_specs::convert::FromSpecImpl<SchedulerEvent> for Id {
    open spec fn obeys_from_spec() -> bool {
        true
    }

    open spec fn from_spec(value: SchedulerEvent) -> Id {
        value.0
    }
}

impl From<Id> for SystemId {
    fn from(value: Id) -> (r: Self) {
        SystemId(value)
    }
}

impl vstd::std_specs::convert::FromSpecImpl<Id> for SystemId {
    open spec fn obeys_from_spec() -> bool {
        true
    }

    open spec fn from_spec(value: Id) -> SystemId {
        SystemId(value)
    }
}

impl From<SystemId> for Id {
    fn from(value: SystemId) -> (r: Self) {
        value.0
    }
}

impl vstd::std_specs::convert::FromSpecImpl<SystemId> for Id {
    open spec fn obeys_from_spec() -> bool {
        true
    }

    open spec fn from_spec(value: SystemId) -> Id {
        value.0
    }
}

/// The marker event a phase inserts while its own systems are filtered.
pub open spec fn spec_phase_marker(p: Phase) -> SchedulerEvent {
    SchedulerEvent(Id(id_of(p.spec_name())))
}

/// Whether an event is the marker of some phase.
pub open spec fn is_phase_marker(e: SchedulerEvent) -> bool {
    exists|p: Phase| e == spec_phase_marker(p)
}

pub fn phase_marker(p: &Phase) -> (e: SchedulerEvent)
    ensures
        e == spec_phase_marker(*p),
{
    SchedulerEvent(Id(hash_name(p.name())))
}

/// The phase markers visible in an event set.
pub open spec fn spec_markers(events: Set<SchedulerEvent>) -> Set<SchedulerEvent> {
    events.filter(|e: SchedulerEvent| is_phase_marker(e))
}

/// Marker scoping: when no visible event is a phase marker, inserting one
/// phase's marker makes it the only marker visible, and removing it
/// restores the set exactly. So the distinct markers visible while a
/// phase's systems are filtered number one, and zero between phases.
pub proof fn lemma_marker_scope(events: Set<SchedulerEvent>, p: Phase)
    requires
        forall|e: SchedulerEvent| #[trigger] events.contains(e) ==> !is_phase_marker(e),
    ensures
        spec_markers(events) == Set::<SchedulerEvent>::empty(),
        spec_markers(events.insert(spec_phase_marker(p))) == set![spec_phase_marker(p)],
        events.insert(spec_phase_marker(p)).remove(spec_phase_marker(p)) == events,
{
    assert(is_phase_marker(spec_phase_marker(p)));
    assert(spec_markers(events) =~= Set::<SchedulerEvent>::empty());
    assert(spec_markers(events.insert(spec_phase_marker(p))) =~= set![spec_phase_marker(p)]);
    assert(events.insert(spec_phase_marker(p)).remove(spec_phase_marker(p)) =~= events);
}

/// Identifier derivation is a function of the name alone: equal names give
/// equal identifiers, in this and in every later call.
pub proof fn lemma_id_deterministic(a: Seq<char>, b: Seq<char>)
    requires
        a == b,
    ensures
        id_of(a) == id_of(b),
{
}

/// Wrapping an [`Id`] as a [`SystemId`] and unwrapping it again is the
/// identity, in both directions.
pub proof fn lemma_system_id_round_trip(id: Id, sys: SystemId)
    ensures
        SystemId::from_spec(id).0 == id,
        SystemId::from_spec(sys.0) == sys,
{
}

/// Wrapping an [`Id`] as a [`SchedulerEvent`] and unwrapping it again is the
/// identity, in both directions.
pub proof fn lemma_event_id_round_trip(id: Id, ev: SchedulerEvent)
    ensures
        SchedulerEvent::from_spec(id).0 == id,
        SchedulerEvent::from_spec(ev.0) == ev,
{
}

} // verus!
