use tick_scheduler::access::{Access, AccessMap};
use tick_scheduler::parameters::{Owned, Shared, Take, Target, Unique};
use tick_scheduler::resources::ResourceWrapper;
use tick_scheduler::blacklist::Blacklist;
use tick_scheduler::events::{CurrentEvents, NewEvents};
use tick_scheduler::graph::{ExecutionGraph, NodeStatus};
use tick_scheduler::id::{Id, SchedulerEvent, SystemId};
use tick_scheduler::interrupts::{CurrentInterrupts, NewInterrupts};
use tick_scheduler::ordering::SchedulerOrdering;
use tick_scheduler::resources::ResourceMap;
use tick_scheduler::scheduler::{lift_independent, FIRST_USER_TAG};
use tick_scheduler::tick::{tick_incrementor, CurrentTick, Lifetime, Tick};

#[test]
fn id_hash_is_stable_and_exact() {
    assert_eq!(Id::from("foo"), Id::from("foo"));
    // FNV-1a over the three bytes of "foo".
    assert_eq!(Id::from("foo").0, 0xdcb27518fed9d577);
    assert_eq!(Id::from("").0, 0xcbf29ce484222325);
    assert_ne!(Id::from("foo"), Id::from("bar"));
}

#[test]
fn id_newtypes_round_trip() {
    let id = Id::from("round trip");
    assert_eq!(Id::from(SystemId::from(id)), id);
    assert_eq!(Id::from(SchedulerEvent::from(id)), id);
    assert_eq!(SystemId::from(id), SystemId::from(id));
}

#[test]
fn lifetime_expires_one_tick_after_expected() {
    let mut short = Lifetime::new(Tick(0), Tick(1));
    assert!(short.tick());
    assert!(!short.tick());
    let mut perpetual = Lifetime::new_perpetual(Tick(3));
    for _ in 0..100 {
        assert!(perpetual.tick());
    }
}

#[test]
fn tick_incrementor_adds_one() {
    let mut current = CurrentTick::default();
    assert_eq!(current.tick.0, 0);
    tick_incrementor(&mut current);
    tick_incrementor(&mut current);
    assert_eq!(current.tick.0, 2);
}

#[test]
fn blacklist_blocks_by_kind_and_by_type() {
    let mut list = Blacklist::new();
    let mut unique_map = AccessMap::new();
    unique_map.declare(FIRST_USER_TAG, Access::Unique);
    let mut shared_map = AccessMap::new();
    shared_map.declare(FIRST_USER_TAG, Access::Shared);

    assert!(!list.check_blocked(&unique_map));
    list.insert_access_blacklist(Access::Unique, Lifetime::new_perpetual(Tick(0)));
    assert!(list.check_blocked(&unique_map));
    assert!(!list.check_blocked(&shared_map));

    let mut typed = Blacklist::new();
    typed.insert_typed_blacklist(FIRST_USER_TAG, Access::Shared, Lifetime::new_perpetual(Tick(0)));
    assert!(typed.check_blocked(&shared_map));
    assert!(!typed.check_blocked(&unique_map));
    let mut other_shared = AccessMap::new();
    other_shared.declare(FIRST_USER_TAG + 1, Access::Shared);
    assert!(!typed.check_blocked(&other_shared));
}

#[test]
fn blacklist_reaps_expired_rules() {
    let mut list = Blacklist::new();
    let mut unique_map = AccessMap::new();
    unique_map.declare(FIRST_USER_TAG, Access::Unique);
    list.insert_access_blacklist(Access::Unique, Lifetime::new(Tick(0), Tick(1)));
    assert!(list.check_blocked(&unique_map));
    list.tick();
    assert!(list.check_blocked(&unique_map));
    list.tick();
    assert!(!list.check_blocked(&unique_map));
}

#[test]
fn event_pools_rotate() {
    let mut new_events = NewEvents::new();
    let mut current = CurrentEvents::new();
    let e = SchedulerEvent(Id(5));
    assert!(new_events.insert(e));
    assert!(!new_events.insert(e));
    assert!(!current.contains(&e));
    current.tick(&mut new_events);
    assert!(current.contains(&e));
    current.tick(&mut new_events);
    assert!(!current.contains(&e));
    current.insert(e);
    assert!(current.contains(&e));
    current.remove(&e);
    assert!(!current.contains(&e));
}

#[test]
fn interrupt_pools_rotate_and_deduplicate() {
    let mut new_interrupts = NewInterrupts::new();
    let mut current = CurrentInterrupts::new();
    let s = SystemId(Id(9));
    assert!(new_interrupts.insert(s));
    assert!(!new_interrupts.insert(s));
    current.tick(&mut new_interrupts);
    assert!(current.contains(&s));
    current.tick(&mut new_interrupts);
    assert!(!current.contains(&s));
}

#[test]
fn resource_map_conservative_operations() {
    let mut map: ResourceMap<u64> = ResourceMap::new();
    assert!(map.conservatively_insert(FIRST_USER_TAG, 10).is_ok());
    assert_eq!(map.conservatively_insert(FIRST_USER_TAG, 11), Err(11));
    assert_eq!(map.get(FIRST_USER_TAG), Some(&10));
    assert_eq!(map.insert(FIRST_USER_TAG, 12), Some(10));

    let mut other: ResourceMap<u64> = ResourceMap::new();
    assert!(other.conservatively_insert(FIRST_USER_TAG, 99).is_ok());
    assert!(other.conservatively_insert(FIRST_USER_TAG + 1, 7).is_ok());
    let rejected = map.conservatively_merge(other);
    // The collision keeps the value already present and is reported back.
    assert_eq!(rejected, vec![(FIRST_USER_TAG, 99)]);
    assert_eq!(map.get(FIRST_USER_TAG), Some(&12));
    assert_eq!(map.get(FIRST_USER_TAG + 1), Some(&7));
}

#[test]
fn graph_leaves_follow_completion() {
    let a = SystemId(Id(1));
    let b = SystemId(Id(2));
    let mut a_ordering = SchedulerOrdering::new();
    a_ordering.before.push(b);
    let systems = vec![(a, a_ordering), (b, SchedulerOrdering::new())];
    let mut graph = ExecutionGraph::new(&systems);
    assert_eq!(graph.num_nodes(), 2);
    // Only the edge source is a leaf at first.
    assert!(graph.is_leaf(0));
    assert!(!graph.is_leaf(1));
    graph.mark_as_complete(0);
    assert!(graph.is_leaf(1));
    assert_eq!(graph.status_at(0), NodeStatus::Complete);
    graph.mark_as_pending(1);
    assert_eq!(graph.status_at(1), NodeStatus::Pending);
}

#[test]
fn lift_independent_groups_by_ordering_links() {
    let a = SystemId(Id(1));
    let b = SystemId(Id(2));
    let c = SystemId(Id(3));
    let mut b_ordering = SchedulerOrdering::new();
    b_ordering.after.push(a);
    let systems = vec![
        (a, SchedulerOrdering::new()),
        (b, b_ordering),
        (c, SchedulerOrdering::new()),
    ];
    let (parts, _, _) = lift_independent(&systems);
    assert_eq!(parts.len(), 2);
    let with_a: Vec<_> = parts.iter().filter(|p| p.iter().any(|e| e.0 == a)).collect();
    assert_eq!(with_a.len(), 1);
    assert!(with_a[0].iter().any(|e| e.0 == b));
    assert!(!with_a[0].iter().any(|e| e.0 == c));
}

#[test]
fn ordering_subsume_drops_outside_references() {
    let a = SystemId(Id(1));
    let b = SystemId(Id(2));
    let mut ordering = SchedulerOrdering::new();
    ordering.before.push(a);
    ordering.before.push(b);
    let superset = vec![a];
    let restricted = ordering.subsume(&superset);
    assert_eq!(restricted.before, vec![a]);
    assert!(restricted.after.is_empty());
}

#[test]
fn parameter_kinds_carry_values_and_accesses() {
    let v: u64 = 41;
    let shared = Shared::new(&v);
    assert_eq!(*shared.get(), 41);
    assert_eq!(Shared::<u64>::access_of(FIRST_USER_TAG), (FIRST_USER_TAG, Access::Shared));
    let unique = Unique::new(7u64);
    assert_eq!(*unique.get(), 7);
    assert_eq!(unique.consume(), 7);
    assert_eq!(Unique::<u64>::access_of(FIRST_USER_TAG), (FIRST_USER_TAG, Access::Unique));
    let take = Take::new(9u64);
    assert_eq!(take.consume(), 9);
    assert_eq!(Take::<u64>::access_of(FIRST_USER_TAG), (FIRST_USER_TAG, Access::Unique));
    let owned = Owned::new(3u64);
    assert_eq!(owned.consume(), 3);
    assert_ne!(Target::Scheduler, Target::System);
}

#[test]
fn resource_wrapper_hands_its_value_back() {
    let wrapper = ResourceWrapper::new(11u64);
    assert_eq!(*wrapper.get(), 11);
    assert_eq!(wrapper.consume(), 11);
}
