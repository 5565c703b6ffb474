//! The two-generation interrupt pools, keyed by system identifier.
//!
//! An interrupt posted during tick `T` lands in [`NewInterrupts`] and
//! rotates into [`CurrentInterrupts`] at the start of tick `T+1`; a system
//! listed there is skipped for that whole tick. Interrupts are advisory for
//! future ticks, never kill signals.

use vstd::prelude::*;

use crate::id::SystemId;

verus! {

broadcast use vstd::seq_lib::group_seq_properties;

/// Interrupts posted during the running tick.
#[derive(Debug)]
pub struct NewInterrupts {
    interrupts: Vec<SystemId>,
}

impl View for NewInterrupts {
    type V = Set<SystemId>;

    closed spec fn view(&self) -> Set<SystemId> {
        self.interrupts@.to_set()
    }
}

impl NewInterrupts {
    pub closed spec fn wf(&self) -> bool {
        self.interrupts@.no_duplicates()
    }

    pub fn new() -> (r: NewInterrupts)
        ensures
            r.wf(),
            r@ == Set::<SystemId>::empty(),
    {
        let r = NewInterrupts { interrupts: Vec::new() };
        proof {
            assert(r@ =~= Set::<SystemId>::empty());
        }
        r
    }

    /// Request that a system be skipped next tick. Returns true when the
    /// request was not already present; asking twice changes nothing.
    pub fn insert(&mut self, interrupt: SystemId) -> (fresh: bool)
        requires
            old(self).wf(),
        ensures
            final(self).wf(),
            final(self)@ == old(self)@.insert(interrupt),
            fresh == !old(self)@.contains(interrupt),
    {
        let already = contains_system(&self.interrupts, &interrupt);
        if !already {
            self.interrupts.push(interrupt);
            proof {
                assert(self.interrupts@.to_set() =~= old(self)@.insert(interrupt));
            }
        } else {
            proof {
                assert(self@ =~= old(self)@.insert(interrupt));
            }
        }
        !already
    }

    /// Empty the pool, handing its contents out.
    pub fn drain(&mut self) -> (drained: Vec<SystemId>)
        requires
            old(self).wf(),
        ensures
            final(self).wf(),
            final(self)@ == Set::<SystemId>::empty(),
            drained@.to_set() == old(self)@,
            drained@.no_duplicates(),
    {
        let mut out: Vec<SystemId> = Vec::new();
        core::mem::swap(&mut out, &mut self.interrupts);
        proof {
            assert(self@ =~= Set::<SystemId>::empty());
        }
        out
    }
}

impl Default for NewInterrupts {
    fn default() -> (r: Self)
        ensures
            r.wf(),
            r@ == Set::<SystemId>::empty(),
    {
        NewInterrupts::new()
    }
}

/// The systems to be skipped during the running tick.
#[derive(Debug)]
pub struct CurrentInterrupts {
    interrupts: Vec<SystemId>,
}

impl View for CurrentInterrupts {
    type V = Set<SystemId>;

    closed spec fn view(&self) -> Set<SystemId> {
        self.interrupts@.to_set()
    }
}

impl CurrentInterrupts {
    pub closed spec fn wf(&self) -> bool {
        self.interrupts@.no_duplicates()
    }

    pub fn new() -> (r: CurrentInterrupts)
        ensures
            r.wf(),
            r@ == Set::<SystemId>::empty(),
    {
        let r = CurrentInterrupts { interrupts: Vec::new() };
        proof {
            assert(r@ =~= Set::<SystemId>::empty());
        }
        r
    }

    /// Rotate: the current set becomes exactly what was newly posted, and
    /// the new-interrupt pool empties.
    pub fn tick(&mut self, new_interrupts: &mut NewInterrupts)
        requires
            old(self).wf(),
            old(new_interrupts).wf(),
        ensures
            final(self).wf(),
            final(new_interrupts).wf(),
            final(self)@ == old(new_interrupts)@,
            final(new_interrupts)@ == Set::<SystemId>::empty(),
    {
        self.interrupts = new_interrupts.drain();
    }

    pub fn contains(&self, system_id: &SystemId) -> (r: bool)
        ensures
            r == self@.contains(*system_id),
    {
        contains_system(&self.interrupts, system_id)
    }

    /// Add every listed system to the current skip set. Used to extend the
    /// set with the still-running background systems.
    pub fn extend(&mut self, items: &Vec<SystemId>)
        requires
            old(self).wf(),
        ensures
            final(self).wf(),
            final(self)@ == old(self)@.union(items@.to_set()),
    {
        let n = items.len();
        for i in 0..n
            invariant
                n == items@.len(),
                self.wf(),
                self@ == old(self)@.union(items@.take(i as int).to_set()),
        {
            let item = items[i];
            let ghost before = self@;
            if !contains_system(&self.interrupts, &item) {
                self.interrupts.push(item);
            }
            proof {
                assert(self.interrupts@.to_set() =~= before.insert(item));
                assert(items@.take(i + 1).drop_last() =~= items@.take(i as int));
                assert(self@ =~= old(self)@.union(items@.take(i + 1).to_set()));
            }
        }
        proof {
            assert(items@.take(n as int) =~= items@);
        }
    }
}

impl Default for CurrentInterrupts {
    fn default() -> (r: Self)
        ensures
            r.wf(),
            r@ == Set::<SystemId>::empty(),
    {
        CurrentInterrupts::new()
    }
}

/// Asking for the same interrupt twice is idempotent on state: the pool
/// after two identical requests equals the pool after one.
pub proof fn lemma_interrupt_insert_idempotent(pool: Set<SystemId>, id: SystemId)
    ensures
        pool.insert(id).insert(id) == pool.insert(id),
{
    assert(pool.insert(id).insert(id) =~= pool.insert(id));
}

/// Linear membership test over a system list.
pub fn contains_system(items: &Vec<SystemId>, item: &SystemId) -> (r: bool)
    ensures
        r == items@.contains(*item),
        r == items@.to_set().contains(*item),
{
    let n = items.len();
    for i in 0..n
        invariant
            n == items@.len(),
            forall|j: int| 0 <= j < i ==> items@[j] != *item,
    {
        if items[i] == *item {
            return true;
        }
    }
    false
}

} // verus!
