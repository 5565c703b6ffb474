use tick_scheduler::access::{Access, AccessMap, Accesses};
use tick_scheduler::id::{Id, SchedulerEvent, SystemId};
use tick_scheduler::ordering::SchedulerOrdering;
use tick_scheduler::phase::Phase;
use tick_scheduler::resources::ResourceMap;
use tick_scheduler::runner::{RunOutcome, SystemRunner};
use tick_scheduler::scheduler::{Scheduler, FIRST_USER_TAG};
use tick_scheduler::system::{InnerStoredSystem, SystemFlag, WakeRule};

const TAG_COUNTER: u64 = FIRST_USER_TAG;
const TAG_MARKS: u64 = FIRST_USER_TAG + 1;

/// What a registered test body does when the scheduler dispatches it.
enum Body {
    /// Add one to the `u64` resource under the given tag.
    Increment(u64),
    /// Append a mark to the list encoded in the `u64` resource under
    /// `TAG_MARKS`: the list value is shifted by ten and the mark added.
    AppendMark(u64),
    /// File a fresh resource for the `Movement` phase.
    FileResource(u64, u64),
    /// Add one to the second tag's resource when the first tag is owned.
    CountPresence(u64, u64),
}

struct TestRunner {
    bodies: Vec<(SystemId, Body)>,
    /// Background bodies: how many polls until each finishes.
    background: Vec<(SystemId, u64)>,
    running: Vec<(SystemId, u64)>,
}

impl TestRunner {
    fn new() -> TestRunner {
        TestRunner { bodies: Vec::new(), background: Vec::new(), running: Vec::new() }
    }
}

impl SystemRunner<u64> for TestRunner {
    fn run(
        &mut self,
        id: &SystemId,
        resources: &ResourceMap<u64>,
        _system_resources: Option<&ResourceMap<u64>>,
    ) -> RunOutcome<u64> {
        let mut outcome = RunOutcome::ok();
        for (body_id, body) in self.bodies.iter() {
            if body_id == id {
                match body {
                    Body::Increment(tag) => {
                        let v = *resources.get(*tag).unwrap_or(&0);
                        outcome.writes.push((*tag, v + 1));
                    }
                    Body::AppendMark(mark) => {
                        let v = *resources.get(TAG_MARKS).unwrap_or(&0);
                        outcome.writes.push((TAG_MARKS, v * 10 + mark));
                    }
                    Body::FileResource(tag, value) => {
                        outcome.new_resources.push((None, *tag, *value));
                    }
                    Body::CountPresence(watched, counter) => {
                        if resources.get(*watched).is_some() {
                            let v = *resources.get(*counter).unwrap_or(&0);
                            outcome.writes.push((*counter, v + 1));
                        }
                    }
                }
            }
        }
        outcome
    }

    fn start_background(&mut self, id: &SystemId, _resources: &ResourceMap<u64>) {
        for (bg_id, polls) in self.background.iter() {
            if bg_id == id {
                self.running.push((*id, *polls));
            }
        }
    }

    fn poll_background(
        &mut self,
        id: &SystemId,
        _resources: &ResourceMap<u64>,
    ) -> Option<RunOutcome<u64>> {
        for entry in self.running.iter_mut() {
            if entry.0 == *id {
                if entry.1 == 0 {
                    return Some(RunOutcome::ok());
                }
                entry.1 -= 1;
                return None;
            }
        }
        None
    }
}

fn unique_accesses(tag: u64) -> Accesses {
    let mut map = AccessMap::new();
    map.declare(tag, Access::Unique);
    Accesses::new(map, AccessMap::new())
}

fn shared_accesses(tag: u64) -> Accesses {
    let mut map = AccessMap::new();
    map.declare(tag, Access::Shared);
    Accesses::new(map, AccessMap::new())
}

#[test]
fn single_system_single_resource_five_ticks() {
    let mut sched: Scheduler<u64> = Scheduler::new(4);
    let mut runner = TestRunner::new();
    sched.insert(TAG_COUNTER, 0);
    let inc = sched.insert_system(
        "inc".to_string(),
        InnerStoredSystem::new_sync(unique_accesses(TAG_COUNTER), false),
        WakeRule::Always,
        SchedulerOrdering::new(),
        Vec::new(),
        Some(Phase::Processing),
    );
    runner.bodies.push((inc, Body::Increment(TAG_COUNTER)));
    for _ in 0..5 {
        sched.tick(&mut runner);
    }
    assert_eq!(sched.resolve_owned(TAG_COUNTER), Some(5));
    assert_eq!(sched.current_tick().0, 5);
}

#[test]
fn ordering_after_runs_second() {
    let mut sched: Scheduler<u64> = Scheduler::new(4);
    let mut runner = TestRunner::new();
    sched.insert(TAG_MARKS, 0);
    let a = sched.insert_system(
        "mark one".to_string(),
        InnerStoredSystem::new_sync(unique_accesses(TAG_MARKS), false),
        WakeRule::Always,
        SchedulerOrdering::new(),
        Vec::new(),
        Some(Phase::Processing),
    );
    let mut b_ordering = SchedulerOrdering::new();
    b_ordering.after.push(a);
    let b = sched.insert_system(
        "mark two".to_string(),
        InnerStoredSystem::new_sync(unique_accesses(TAG_MARKS), false),
        WakeRule::Always,
        b_ordering,
        Vec::new(),
        Some(Phase::Processing),
    );
    runner.bodies.push((a, Body::AppendMark(1)));
    runner.bodies.push((b, Body::AppendMark(2)));
    let report = sched.tick(&mut runner);
    assert_eq!(sched.resolve_owned(TAG_MARKS), Some(12));
    assert_eq!(report.executed.iter().filter(|id| **id == a || **id == b).count(), 2);
}

#[test]
fn conflicting_unique_systems_both_run_serialized() {
    let mut sched: Scheduler<u64> = Scheduler::new(4);
    let mut runner = TestRunner::new();
    sched.insert(TAG_COUNTER, 0);
    let a = sched.insert_system(
        "first incrementor".to_string(),
        InnerStoredSystem::new_sync(unique_accesses(TAG_COUNTER), false),
        WakeRule::Always,
        SchedulerOrdering::new(),
        Vec::new(),
        Some(Phase::Processing),
    );
    let b = sched.insert_system(
        "second incrementor".to_string(),
        InnerStoredSystem::new_sync(unique_accesses(TAG_COUNTER), false),
        WakeRule::Always,
        SchedulerOrdering::new(),
        Vec::new(),
        Some(Phase::Processing),
    );
    runner.bodies.push((a, Body::Increment(TAG_COUNTER)));
    runner.bodies.push((b, Body::Increment(TAG_COUNTER)));
    sched.tick(&mut runner);
    assert_eq!(sched.resolve_owned(TAG_COUNTER), Some(2));
}

#[test]
fn interrupted_system_skips_a_tick() {
    let mut sched: Scheduler<u64> = Scheduler::new(4);
    let mut runner = TestRunner::new();
    sched.insert(TAG_COUNTER, 0);
    let a = sched.insert_system(
        "interruptible".to_string(),
        InnerStoredSystem::new_sync(unique_accesses(TAG_COUNTER), false),
        WakeRule::Always,
        SchedulerOrdering::new(),
        Vec::new(),
        Some(Phase::Processing),
    );
    runner.bodies.push((a, Body::Increment(TAG_COUNTER)));
    sched.insert_interrupt(a);
    let report = sched.tick(&mut runner);
    assert_eq!(sched.resolve_owned(TAG_COUNTER), Some(0));
    assert!(!report.executed.contains(&a));
    assert_eq!(sched.current_tick().0, 1);
    sched.tick(&mut runner);
    assert_eq!(sched.resolve_owned(TAG_COUNTER), Some(1));
}

#[test]
fn interrupt_requests_are_idempotent() {
    let mut sched: Scheduler<u64> = Scheduler::new(2);
    let mut runner = TestRunner::new();
    sched.insert(TAG_COUNTER, 0);
    let a = sched.insert_system(
        "twice interrupted".to_string(),
        InnerStoredSystem::new_sync(unique_accesses(TAG_COUNTER), false),
        WakeRule::Always,
        SchedulerOrdering::new(),
        Vec::new(),
        Some(Phase::Processing),
    );
    runner.bodies.push((a, Body::Increment(TAG_COUNTER)));
    sched.insert_interrupt(a);
    sched.insert_interrupt(a);
    let report = sched.tick(&mut runner);
    assert!(!report.executed.contains(&a));
    assert_eq!(sched.resolve_owned(TAG_COUNTER), Some(0));
    sched.tick(&mut runner);
    assert_eq!(sched.resolve_owned(TAG_COUNTER), Some(1));
}

#[test]
fn background_reservation_blocks_conflicting_foreground() {
    let mut sched: Scheduler<u64> = Scheduler::new(4);
    let mut runner = TestRunner::new();
    sched.insert(TAG_COUNTER, 0);
    let start_event = SchedulerEvent(Id(99));
    // The default rules forbid unique access during background start, so
    // the long-running system holds the shared side of the conflict.
    let b = sched.insert_system(
        "long running".to_string(),
        InnerStoredSystem::new_sync(shared_accesses(TAG_COUNTER), false),
        WakeRule::OnEvent(start_event),
        SchedulerOrdering::new(),
        vec![SystemFlag::NonBlocking],
        None,
    );
    runner.background.push((b, 1));
    sched.insert_new_event(start_event);

    let r1 = sched.tick(&mut runner);
    assert!(r1.background_started.contains(&b));
    // The writer is registered while the background system is in flight.
    let f = sched.insert_system(
        "writer".to_string(),
        InnerStoredSystem::new_sync(unique_accesses(TAG_COUNTER), false),
        WakeRule::Always,
        SchedulerOrdering::new(),
        Vec::new(),
        Some(Phase::Processing),
    );
    runner.bodies.push((f, Body::Increment(TAG_COUNTER)));
    // While the background reservation is held, the conflicting foreground
    // system is skipped.
    let r2 = sched.tick(&mut runner);
    assert!(!r2.executed.contains(&f));
    assert_eq!(sched.resolve_owned(TAG_COUNTER), Some(0));
    // The background system finishes and is harvested after the foreground
    // phases, so the reader still waits this tick.
    let r3 = sched.tick(&mut runner);
    assert!(r3.background_finished.contains(&b));
    assert!(!r3.executed.contains(&f));
    // With the reservation released, the reader runs.
    let r4 = sched.tick(&mut runner);
    assert!(r4.executed.contains(&f));
    assert_eq!(sched.resolve_owned(TAG_COUNTER), Some(1));
}

#[test]
fn harvested_background_posts_its_id_as_event() {
    let mut sched: Scheduler<u64> = Scheduler::new(4);
    let mut runner = TestRunner::new();
    sched.insert(TAG_COUNTER, 0);
    let start_event = SchedulerEvent(Id(55));
    let b = sched.insert_system(
        "quick background job".to_string(),
        InnerStoredSystem::new_sync(shared_accesses(TAG_COUNTER), false),
        WakeRule::OnEvent(start_event),
        SchedulerOrdering::new(),
        vec![SystemFlag::NonBlocking],
        None,
    );
    runner.background.push((b, 0));
    sched.insert_new_event(start_event);
    // The listener wakes only on the completion event the harvest posts.
    let l = sched.insert_system(
        "completion listener".to_string(),
        InnerStoredSystem::new_sync(unique_accesses(TAG_COUNTER), false),
        WakeRule::OnEvent(SchedulerEvent(b.0)),
        SchedulerOrdering::new(),
        Vec::new(),
        Some(Phase::Processing),
    );
    runner.bodies.push((l, Body::Increment(TAG_COUNTER)));

    let r1 = sched.tick(&mut runner);
    assert!(r1.background_started.contains(&b));
    assert!(!r1.executed.contains(&l));
    // The harvest happens after this tick's foreground phases: the
    // completion event lands in the new-event pool, not yet visible.
    let r2 = sched.tick(&mut runner);
    assert!(r2.background_finished.contains(&b));
    assert!(!r2.executed.contains(&l));
    assert_eq!(sched.resolve_owned(TAG_COUNTER), Some(0));
    // Next tick rotates the pool and the listener sees the event.
    let r3 = sched.tick(&mut runner);
    assert!(r3.executed.contains(&l));
    assert_eq!(sched.resolve_owned(TAG_COUNTER), Some(1));
}

#[test]
fn catfish_inserts_the_chased_event() {
    let mut sched: Scheduler<u64> = Scheduler::new(4);
    let mut runner = TestRunner::new();
    sched.insert(TAG_COUNTER, 0);
    let bait = SchedulerEvent(Id(7));
    let chased = SchedulerEvent(Id(8));
    sched.catfish(bait, chased);
    let s = sched.insert_system(
        "wakes on the chased event".to_string(),
        InnerStoredSystem::new_sync(unique_accesses(TAG_COUNTER), false),
        WakeRule::OnEvent(chased),
        SchedulerOrdering::new(),
        Vec::new(),
        Some(Phase::Processing),
    );
    runner.bodies.push((s, Body::Increment(TAG_COUNTER)));
    sched.insert_new_event(bait);
    sched.tick(&mut runner);
    assert_eq!(sched.resolve_owned(TAG_COUNTER), Some(1));
    // Without the bait, the rule stays quiet.
    sched.tick(&mut runner);
    assert_eq!(sched.resolve_owned(TAG_COUNTER), Some(1));
}

#[test]
fn filed_resources_become_visible_next_tick() {
    const TAG_FRESH: u64 = FIRST_USER_TAG + 2;
    let mut sched: Scheduler<u64> = Scheduler::new(4);
    let mut runner = TestRunner::new();
    sched.insert(TAG_COUNTER, 0);
    let producer = sched.insert_system(
        "files a fresh resource".to_string(),
        InnerStoredSystem::new_sync(shared_accesses(TAG_COUNTER), false),
        WakeRule::Always,
        SchedulerOrdering::new(),
        Vec::new(),
        Some(Phase::PreProcessing),
    );
    let watcher = sched.insert_system(
        "counts while the resource is owned".to_string(),
        InnerStoredSystem::new_sync(unique_accesses(TAG_COUNTER), false),
        WakeRule::Always,
        SchedulerOrdering::new(),
        Vec::new(),
        Some(Phase::Processing),
    );
    runner.bodies.push((producer, Body::FileResource(TAG_FRESH, 5)));
    runner.bodies.push((watcher, Body::CountPresence(TAG_FRESH, TAG_COUNTER)));
    sched.tick(&mut runner);
    // The resource was filed during the tick and merged at its end, so the
    // watcher saw nothing yet, but the store owns it now.
    assert_eq!(sched.resolve_owned(TAG_COUNTER), Some(0));
    assert_eq!(sched.resolve_owned(TAG_FRESH), Some(5));
    sched.tick(&mut runner);
    assert_eq!(sched.resolve_owned(TAG_COUNTER), Some(1));
}

#[test]
fn resolve_honours_background_reservations() {
    let mut sched: Scheduler<u64> = Scheduler::new(4);
    let mut runner = TestRunner::new();
    sched.insert(TAG_COUNTER, 0);
    let start_event = SchedulerEvent(Id(99));
    let b = sched.insert_system(
        "holds a shared reservation".to_string(),
        InnerStoredSystem::new_sync(shared_accesses(TAG_COUNTER), false),
        WakeRule::OnEvent(start_event),
        SchedulerOrdering::new(),
        vec![SystemFlag::NonBlocking],
        None,
    );
    runner.background.push((b, 3));
    sched.insert_new_event(start_event);
    let report = sched.tick(&mut runner);
    assert!(report.background_started.contains(&b));
    let view = sched.resolve();
    assert_eq!(view.resolve(TAG_COUNTER, Access::Shared), Ok(Some(&0)));
    assert!(view.resolve(TAG_COUNTER, Access::Unique).is_err());
    assert_eq!(view.resolve(TAG_COUNTER + 1, Access::Unique), Ok(None));
}

#[test]
fn bubble_lives_exactly_its_lifetime() {
    let mut sched: Scheduler<u64> = Scheduler::new(4);
    let mut runner = TestRunner::new();
    sched.insert(TAG_COUNTER, 0);
    // A bubble inserted before the first tick lives one tick: it fires
    // during that tick, is reaped at the next rotation, and its event is
    // visible to wake-up rules exactly one tick after it fired.
    sched.insert_bubble("note".to_string(), WakeRule::Always);
    let bubble_event = SchedulerEvent(Id::from("note"));
    let listener = sched.insert_system(
        "listens for the note".to_string(),
        InnerStoredSystem::new_sync(unique_accesses(TAG_COUNTER), false),
        WakeRule::OnEvent(bubble_event),
        SchedulerOrdering::new(),
        Vec::new(),
        Some(Phase::Processing),
    );
    runner.bodies.push((listener, Body::Increment(TAG_COUNTER)));
    sched.tick(&mut runner);
    assert_eq!(sched.resolve_owned(TAG_COUNTER), Some(0));
    sched.tick(&mut runner);
    assert_eq!(sched.resolve_owned(TAG_COUNTER), Some(1));
    // The bubble expired after its single tick, so nothing fires again.
    sched.tick(&mut runner);
    sched.tick(&mut runner);
    assert_eq!(sched.resolve_owned(TAG_COUNTER), Some(1));
}
