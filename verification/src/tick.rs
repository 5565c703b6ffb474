//! Ticks, bounded lifetimes, and the built-in tick counter resource.

use vstd::prelude::*;

verus! {

/// A monotonically non-decreasing tick counter value.
#[derive(Debug, PartialEq, Eq, Structural, PartialOrd, Ord, Clone, Copy)]
pub struct Tick(pub usize);

impl Default for Tick {
    fn default() -> (r: Self)
        ensures
            r.0 == 0,
    {
        Tick(0)
    }
}

/// One more than a counter value, held at the top of the range rather than
/// wrapped. The scheduler never reaches the top in practice; holding there
/// keeps the counters total without a precondition on every caller.
pub open spec fn spec_bump(v: usize) -> usize {
    if v == usize::MAX {
        v
    } else {
        (v + 1) as usize
    }
}

/// A counter advanced by `k`, held at the top of the range rather than
/// wrapped.
pub open spec fn spec_bump_by(v: usize, k: usize) -> usize {
    if k > usize::MAX - v {
        usize::MAX
    } else {
        (v + k) as usize
    }
}

/// Bumping keeps order: a counter no smaller stays no smaller.
pub proof fn lemma_bump_monotone(a: usize, b: usize)
    requires
        a <= b,
    ensures
        spec_bump(a) <= spec_bump(b),
{
}

/// How long a rule or bubble stays alive, measured in ticks from `start`.
/// A lifetime with no expected age is perpetual.
#[derive(Debug, Clone, Copy)]
pub struct Lifetime {
    pub start: Tick,
    pub age: Tick,
    pub expected_age: Option<Tick>,
}

impl Lifetime {
    /// The same lifetime, one tick older.
    pub open spec fn spec_aged(self) -> Lifetime {
        Lifetime { start: self.start, age: Tick(spec_bump(self.age.0)), expected_age: self.expected_age }
    }

    /// Whether a lifetime has not yet outlived its expected age.
    pub open spec fn spec_alive(self) -> bool {
        match self.expected_age {
            Some(expected) => self.age.0 <= expected.0,
            None => true,
        }
    }

    /// A lifetime expected to last `expected_age` ticks from `start`.
    pub fn new(start: Tick, expected_age: Tick) -> (r: Lifetime)
        ensures
            r.start == start,
            r.age.0 == 0,
            r.expected_age == Some(expected_age),
    {
        Lifetime { start, age: Tick(0), expected_age: Some(expected_age) }
    }

    /// A lifetime that never expires.
    pub fn new_perpetual(start: Tick) -> (r: Lifetime)
        ensures
            r.start == start,
            r.age.0 == 0,
            r.expected_age is None,
    {
        Lifetime { start, age: Tick(0), expected_age: None }
    }

    /// Age the lifetime one tick. Returns true while it is to be kept
    /// alive, false once it may die. An expected age of 1 survives one
    /// pre-emptive tick, since expiry needs age strictly beyond it.
    pub fn tick(&mut self) -> (keep: bool)
        ensures
            *final(self) == old(self).spec_aged(),
            keep == old(self).spec_aged().spec_alive(),
    {
        self.age.0 = if self.age.0 == usize::MAX {
            self.age.0
        } else {
            self.age.0 + 1
        };
        match &self.expected_age {
            Some(expected) => self.age.0 <= expected.0,
            None => true,
        }
    }
}

/// The scheduler's clock resource: the count of completed phase cycles.
/// Advanced by the built-in incrementor system during `PreProcessing`.
#[derive(Debug, PartialEq, Eq, Structural, Clone, Copy)]
pub struct CurrentTick {
    pub tick: Tick,
}

impl Default for CurrentTick {
    fn default() -> (r: Self)
        ensures
            r.tick.0 == 0,
    {
        CurrentTick { tick: Tick(0) }
    }
}

/// The built-in system that advances the tick counter by one. User systems
/// may advance the counter further; a delta of one per tick is not an
/// invariant of the scheduler.
pub fn tick_incrementor(current_tick: &mut CurrentTick)
    ensures
        final(current_tick).tick.0 == spec_bump(old(current_tick).tick.0),
{
    current_tick.tick.0 = if current_tick.tick.0 == usize::MAX {
        current_tick.tick.0
    } else {
        current_tick.tick.0 + 1
    };
}

} // verus!
