//! The reservation table: which running system holds which accesses.
//!
//! A foreground system's accesses are reserved for the span of its run; a
//! background system's reservation persists across ticks until it is
//! harvested. Admission checks test a candidate's access map against every
//! reservation held here.

use vstd::prelude::*;

use crate::access::{conflicting, Access, AccessMap};
use crate::id::SystemId;

verus! {

broadcast use vstd::seq_lib::group_seq_properties;

/// Per-system access reservations, at most one per system.
#[derive(Debug)]
pub struct Reservations {
    entries: Vec<(SystemId, AccessMap)>,
}

impl Reservations {
    /// The held reservations, in acquisition order.
    pub closed spec fn spec_entries(&self) -> Seq<(SystemId, AccessMap)> {
        self.entries@
    }

    pub open spec fn wf(&self) -> bool {
        crate::tagmap::unique_keys(self.spec_entries()) && forall|i: int|
            0 <= i < self.spec_entries().len() ==> (#[trigger] self.spec_entries()[i]).1.wf()
    }

    /// Whether some system holds a reservation.
    pub open spec fn spec_contains(&self, id: SystemId) -> bool {
        exists|i: int|
            0 <= i < self.spec_entries().len() && (#[trigger] self.spec_entries()[i]).0 == id
    }

    /// Whether an access map conflicts with some held reservation.
    pub open spec fn spec_any_conflict(&self, m: Map<u64, Access>) -> bool {
        exists|i: int|
            0 <= i < self.spec_entries().len() && conflicting(
                (#[trigger] self.spec_entries()[i]).1@,
                m,
            )
    }

    pub fn new() -> (r: Reservations)
        ensures
            r.wf(),
            r.spec_entries() == Seq::<(SystemId, AccessMap)>::empty(),
    {
        Reservations { entries: Vec::new() }
    }

    pub fn contains(&self, id: &SystemId) -> (r: bool)
        ensures
            r == self.spec_contains(*id),
    {
        let n = self.entries.len();
        for i in 0..n
            invariant
                n == self.spec_entries().len(),
                forall|j: int| 0 <= j < i ==> (#[trigger] self.spec_entries()[j]).0 != *id,
        {
            if self.entries[i].0 == *id {
                return true;
            }
        }
        false
    }

    /// Test a candidate's access map against every held reservation.
    pub fn any_conflict(&self, m: &AccessMap) -> (r: bool)
        requires
            self.wf(),
            m.wf(),
        ensures
            r == self.spec_any_conflict(m@),
    {
        let n = self.entries.len();
        for i in 0..n
            invariant
                n == self.spec_entries().len(),
                self.wf(),
                m.wf(),
                forall|j: int|
                    0 <= j < i ==> !conflicting((#[trigger] self.spec_entries()[j]).1@, m@),
        {
            if self.entries[i].1.conflicts(m) {
                return true;
            }
        }
        false
    }

    /// Record a reservation for a system that holds none yet.
    pub fn insert(&mut self, id: SystemId, accesses: AccessMap)
        requires
            old(self).wf(),
            accesses.wf(),
            !old(self).spec_contains(id),
        ensures
            final(self).wf(),
            final(self).spec_entries() == old(self).spec_entries().push((id, accesses)),
    {
        self.entries.push((id, accesses));
    }

    /// Release a system's reservation, keeping every other entry in order.
    pub fn remove(&mut self, id: &SystemId)
        requires
            old(self).wf(),
        ensures
            final(self).wf(),
            !final(self).spec_contains(*id),
            forall|j: int|
                0 <= j < final(self).spec_entries().len() ==> old(self).spec_contains(
                    (#[trigger] final(self).spec_entries()[j]).0,
                ),
            forall|j: int|
                0 <= j < old(self).spec_entries().len() && (#[trigger] old(
                    self,
                ).spec_entries()[j]).0 != *id ==> final(self).spec_contains(
                    old(self).spec_entries()[j].0,
                ),
            forall|j: int, l: int|
                0 <= j < final(self).spec_entries().len() && 0 <= l < old(
                    self,
                ).spec_entries().len() && (#[trigger] final(self).spec_entries()[j]).0 == (
                #[trigger] old(self).spec_entries()[l]).0 ==> final(self).spec_entries()[j] == old(
                    self,
                ).spec_entries()[l],
    {
        let ghost olds = old(self).spec_entries();
        let ghost n = olds.len() as int;
        let mut kept: Vec<(SystemId, AccessMap)> = Vec::new();
        while self.entries.len() > 0
            invariant
                olds == old(self).spec_entries(),
                n == olds.len(),
                self.entries@.len() <= n,
                self.entries@ == olds.take(self.entries@.len() as int),
                old(self).wf(),
                crate::tagmap::unique_keys(kept@),
                forall|j: int| 0 <= j < kept@.len() ==> (#[trigger] kept@[j]).0 != *id,
                forall|j: int|
                    0 <= j < kept@.len() ==> exists|l: int|
                        self.entries@.len() <= l < n && olds[l] == #[trigger] kept@[j],
                forall|l: int|
                    self.entries@.len() <= l < n && (#[trigger] olds[l]).0 != *id ==> exists|
                        j: int,
                    | 0 <= j < kept@.len() && kept@[j] == olds[l],
                forall|j: int, l: int|
                    0 <= j < kept@.len() && 0 <= l < n && (#[trigger] kept@[j]).0 == (
                    #[trigger] olds[l]).0 ==> kept@[j] == olds[l],
            decreases self.entries@.len(),
        {
            let ghost m = self.entries@.len() as int;
            proof {
                assert(self.entries@ == olds.take(m));
            }
            let entry = self.entries.pop().unwrap();
            proof {
                assert(entry == olds.take(m)[m - 1]);
                assert(olds.take(m)[m - 1] == olds[m - 1]);
                assert(self.entries@ =~= olds.take(m - 1));
            }
            if !(entry.0 == *id) {
                proof {
                    assert forall|j: int| 0 <= j < kept@.len() implies (#[trigger] kept@[j]).0
                        != entry.0 by {
                        let l = choose|l: int| m <= l < n && olds[l] == kept@[j];
                        assert(olds[m - 1].0 != olds[l].0);
                    }
                }
                let ghost kept_before = kept@;
                kept.push(entry);
                proof {
                    assert(kept@.drop_last() =~= kept_before);
                    assert(kept@.last() == olds[m - 1]);
                    assert forall|l: int|
                        m - 1 <= l < n && (#[trigger] olds[l]).0 != *id implies exists|j: int|
                        0 <= j < kept@.len() && kept@[j] == olds[l] by {
                        if l == m - 1 {
                            assert(kept@[kept@.len() - 1] == olds[l]);
                        } else {
                            let j = choose|j: int|
                                0 <= j < kept_before.len() && kept_before[j] == olds[l];
                            assert(kept@[j] == olds[l]);
                        }
                    }
                }
            }
        }
        proof {
            assert(olds.take(0) =~= Seq::<(SystemId, AccessMap)>::empty());
        }
        self.entries = kept;
        proof {
            assert forall|j: int|
                0 <= j < self.spec_entries().len() implies (
            #[trigger] self.spec_entries()[j]).1.wf() by {
                let l = choose|l: int| 0 <= l < n && olds[l] == self.spec_entries()[j];
            }
            assert forall|j: int|
                0 <= j < self.spec_entries().len() implies old(self).spec_contains(
                (#[trigger] self.spec_entries()[j]).0,
            ) by {
                let l = choose|l: int|
                    0 <= l < n && old(self).spec_entries()[l] == self.spec_entries()[j];
            }
            assert forall|l: int|
                0 <= l < old(self).spec_entries().len() && (#[trigger] old(
                    self,
                ).spec_entries()[l]).0 != *id implies self.spec_contains(
                old(self).spec_entries()[l].0,
            ) by {
                let j = choose|j: int|
                    0 <= j < self.spec_entries().len() && self.spec_entries()[j] == old(
                        self,
                    ).spec_entries()[l];
            }
        }
    }

    /// The reserving systems, in acquisition order.
    pub fn holders(&self) -> (r: Vec<SystemId>)
        ensures
            r@.len() == self.spec_entries().len(),
            forall|j: int|
                0 <= j < r@.len() ==> r@[j] == (#[trigger] self.spec_entries()[j]).0,
    {
        let mut r: Vec<SystemId> = Vec::new();
        let n = self.entries.len();
        for i in 0..n
            invariant
                n == self.spec_entries().len(),
                r@.len() == i,
                forall|j: int| 0 <= j < i ==> r@[j] == (#[trigger] self.spec_entries()[j]).0,
        {
            r.push(self.entries[i].0);
        }
        r
    }
}

/// A system admitted against a reservation table -- its access map passing
/// the admission test -- conflicts with none of the held reservations, in
/// either direction. With the running background systems' reservations in
/// the table, no two concurrently running systems have conflicting access
/// maps.
pub proof fn lemma_admitted_conflicts_with_no_reservation(
    reservations: &Reservations,
    m: Map<u64, Access>,
    i: int,
)
    requires
        !reservations.spec_any_conflict(m),
        0 <= i < reservations.spec_entries().len(),
    ensures
        !conflicting(reservations.spec_entries()[i].1@, m),
        !conflicting(m, reservations.spec_entries()[i].1@),
{
    crate::access::lemma_conflicting_symmetric(m, reservations.spec_entries()[i].1@);
}

impl Default for Reservations {
    fn default() -> (r: Self)
        ensures
            r.wf(),
            r.spec_entries() == Seq::<(SystemId, AccessMap)>::empty(),
    {
        Reservations::new()
    }
}

} // verus!
