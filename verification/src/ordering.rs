//! Declared execution ordering between systems.

use vstd::prelude::*;

use crate::id::SystemId;

verus! {

broadcast use vstd::seq_lib::group_seq_properties;

/// A system's ordering declaration. "Before": this system precedes every
/// system listed in `before`. "After": every system listed in `after`
/// precedes this system. The priority rank breaks ties among ready leaves;
/// nothing in the execution path depends on it.
#[derive(Debug)]
pub struct SchedulerOrdering {
    pub before: Vec<SystemId>,
    pub after: Vec<SystemId>,
    pub priority: u64,
}

impl Clone for SchedulerOrdering {
    fn clone(&self) -> (r: Self)
        ensures
            r.before@ == self.before@,
            r.after@ == self.after@,
            r.priority == self.priority,
    {
        SchedulerOrdering {
            before: clone_ids(&self.before),
            after: clone_ids(&self.after),
            priority: self.priority,
        }
    }
}

/// A fresh vector with the same identifiers.
fn clone_ids(items: &Vec<SystemId>) -> (r: Vec<SystemId>)
    ensures
        r@ == items@,
{
    let n = items.len();
    let mut r: Vec<SystemId> = Vec::new();
    for i in 0..n
        invariant
            n == items@.len(),
            r@ == items@.take(i as int),
    {
        r.push(items[i]);
        proof {
            assert(r@ =~= items@.take(i + 1));
        }
    }
    proof {
        assert(items@.take(n as int) =~= items@);
    }
    r
}

impl SchedulerOrdering {
    pub open spec fn wf(&self) -> bool {
        self.before@.no_duplicates() && self.after@.no_duplicates()
    }

    pub fn new() -> (r: SchedulerOrdering)
        ensures
            r.wf(),
            r.before@ == Seq::<SystemId>::empty(),
            r.after@ == Seq::<SystemId>::empty(),
            r.priority == 0,
    {
        SchedulerOrdering { before: Vec::new(), after: Vec::new(), priority: 0 }
    }

    /// This ordering restricted to a set of systems: references to systems
    /// outside the set are dropped.
    pub fn subsume(&self, superset: &Vec<SystemId>) -> (r: SchedulerOrdering)
        requires
            self.wf(),
        ensures
            r.wf(),
            forall|id: SystemId|
                r.before@.contains(id) <==> self.before@.contains(id) && superset@.contains(id),
            forall|id: SystemId|
                r.after@.contains(id) <==> self.after@.contains(id) && superset@.contains(id),
            r.priority == self.priority,
    {
        SchedulerOrdering {
            before: intersect_ids(&self.before, superset),
            after: intersect_ids(&self.after, superset),
            priority: self.priority,
        }
    }
}

impl Default for SchedulerOrdering {
    fn default() -> (r: Self)
        ensures
            r.wf(),
            r.before@ == Seq::<SystemId>::empty(),
            r.after@ == Seq::<SystemId>::empty(),
            r.priority == 0,
    {
        SchedulerOrdering::new()
    }
}

/// The members of `items` that also stand in `other`, in order.
fn intersect_ids(items: &Vec<SystemId>, other: &Vec<SystemId>) -> (r: Vec<SystemId>)
    requires
        items@.no_duplicates(),
    ensures
        r@.no_duplicates(),
        forall|id: SystemId| r@.contains(id) <==> items@.contains(id) && other@.contains(id),
{
    let n = items.len();
    let mut r: Vec<SystemId> = Vec::new();
    for i in 0..n
        invariant
            n == items@.len(),
            items@.no_duplicates(),
            r@.no_duplicates(),
            forall|id: SystemId|
                r@.contains(id) <==> items@.take(i as int).contains(id) && other@.contains(id),
    {
        let ghost before = r@;
        if crate::interrupts::contains_system(other, &items[i]) {
            proof {
                if before.contains(items@[i as int]) {
                    let j = choose|j: int| 0 <= j < before.len() && before[j] == items@[i as int];
                    let l = choose|l: int|
                        0 <= l < i && items@.take(i as int)[l] == items@[i as int];
                    assert(items@[l] == items@[i as int]);
                }
            }
            r.push(items[i]);
        }
        proof {
            assert(items@.take(i + 1).drop_last() =~= items@.take(i as int));
            assert forall|id: SystemId|
                r@.contains(id) <==> items@.take(i + 1).contains(id) && other@.contains(
                    id,
                ) by {
                if r@.contains(id) {
                    let j = choose|j: int| 0 <= j < r@.len() && r@[j] == id;
                }
                if items@.take(i + 1).contains(id) && other@.contains(id) {
                    let l = choose|l: int| 0 <= l < i + 1 && (#[trigger] items@.take(i + 1)[l]) == id;
                    if l < i {
                        assert(items@.take(i as int)[l] == id);
                    } else {
                        assert(r@.last() == id);
                    }
                }
            }
        }
    }
    proof {
        assert(items@.take(n as int) =~= items@);
    }
    r
}

} // verus!
