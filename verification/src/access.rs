//! Access declarations and the pairwise conflict engine.
//!
//! Each system declares, per resource type tag, whether it needs a
//! [`Access::Shared`] or [`Access::Unique`] borrow. An [`AccessMap`] is a
//! partial mapping from type tag to access kind; two maps conflict exactly
//! when they share a tag for which at least one side is unique.

use vstd::prelude::*;

use crate::tagmap::{lemma_map_of, lemma_map_of_len, map_of, unique_keys};

verus! {

/// A borrow declaration: shared (read-like) or unique (write-like).
#[derive(Debug, PartialEq, Eq, Structural, Clone, Copy, Hash)]
pub enum Access {
    Shared,
    Unique,
}

/// Two access mappings conflict: some tag is claimed by both, and at least
/// one side claims it uniquely.
pub open spec fn conflicting(a: Map<u64, Access>, b: Map<u64, Access>) -> bool {
    exists|t: u64|
        #![auto]
        a.dom().contains(t) && b.dom().contains(t) && (a[t] == Access::Unique || b[t]
            == Access::Unique)
}

/// Conflict is symmetric: the engine may test either side first.
pub proof fn lemma_conflicting_symmetric(a: Map<u64, Access>, b: Map<u64, Access>)
    ensures
        conflicting(a, b) == conflicting(b, a),
{
}

/// A per-system set of `(type tag, access)` declarations.
#[derive(Debug)]
pub struct AccessMap {
    entries: Vec<(u64, Access)>,
}

impl Clone for AccessMap {
    fn clone(&self) -> (r: Self)
        ensures
            r.spec_entries() == self.spec_entries(),
            r@ == self@,
            r.wf() == self.wf(),
    {
        let mut entries: Vec<(u64, Access)> = Vec::new();
        let n = self.entries.len();
        for i in 0..n
            invariant
                n == self.entries@.len(),
                entries@ == self.entries@.take(i as int),
        {
            entries.push(self.entries[i]);
            proof {
                assert(entries@ =~= self.entries@.take(i + 1));
            }
        }
        proof {
            assert(self.entries@.take(n as int) =~= self.entries@);
        }
        AccessMap { entries }
    }
}

impl View for AccessMap {
    type V = Map<u64, Access>;

    closed spec fn view(&self) -> Map<u64, Access> {
        map_of(self.entries@)
    }
}

impl AccessMap {
    /// Internal shape: no tag is declared twice.
    pub closed spec fn wf(&self) -> bool {
        unique_keys(self.entries@)
    }

    pub fn new() -> (r: AccessMap)
        ensures
            r.wf(),
            r@ == Map::<u64, Access>::empty(),
    {
        AccessMap { entries: Vec::new() }
    }

    /// The declared entries, in declaration order.
    pub closed spec fn spec_entries(&self) -> Seq<(u64, Access)> {
        self.entries@
    }

    /// How the entry list relates to the mapping view.
    pub proof fn lemma_entries(&self)
        requires
            self.wf(),
        ensures
            unique_keys(self.spec_entries()),
            map_of(self.spec_entries()) == self@,
            forall|k: u64|
                self@.dom().contains(k) <==> exists|i: int|
                    0 <= i < self.spec_entries().len() && (#[trigger] self.spec_entries()[i]).0
                        == k,
            forall|i: int|
                0 <= i < self.spec_entries().len() ==> self@[(
                #[trigger] self.spec_entries()[i]).0] == self.spec_entries()[i].1,
    {
        lemma_map_of(self.entries@);
    }

    pub fn num_entries(&self) -> (n: usize)
        ensures
            n == self.spec_entries().len(),
    {
        self.entries.len()
    }

    pub fn entry(&self, i: usize) -> (e: (u64, Access))
        requires
            i < self.spec_entries().len(),
        ensures
            e == self.spec_entries()[i as int],
    {
        self.entries[i]
    }

    /// Look up the access declared for a tag.
    pub fn get(&self, tag: u64) -> (r: Option<Access>)
        requires
            self.wf(),
        ensures
            match r {
                Some(a) => self@.dom().contains(tag) && self@[tag] == a,
                None => !self@.dom().contains(tag),
            },
    {
        proof {
            lemma_map_of(self.entries@);
        }
        let n = self.entries.len();
        for i in 0..n
            invariant
                n == self.entries@.len(),
                self.wf(),
                forall|j: int| 0 <= j < i ==> (#[trigger] self.entries@[j]).0 != tag,
                forall|k: u64|
                    self@.dom().contains(k) <==> exists|j: int|
                        0 <= j < self.entries@.len() && (#[trigger] self.entries@[j]).0 == k,
                forall|j: int|
                    0 <= j < self.entries@.len() ==> self@[(#[trigger] self.entries@[j]).0]
                        == self.entries@[j].1,
        {
            if self.entries[i].0 == tag {
                return Some(self.entries[i].1);
            }
        }
        None
    }

    /// The number of declared tags.
    pub fn len(&self) -> (n: usize)
        requires
            self.wf(),
        ensures
            n == self@.dom().len(),
            self@.dom().finite(),
    {
        proof {
            lemma_map_of_len(self.entries@);
        }
        self.entries.len()
    }

    pub fn is_empty(&self) -> (r: bool)
        requires
            self.wf(),
        ensures
            r == (self@ == Map::<u64, Access>::empty()),
    {
        proof {
            lemma_map_of(self.entries@);
            if self.entries@.len() > 0 {
                assert(self@.dom().contains(self.entries@[0].0));
            }
            assert(self.entries@.len() == 0 ==> self@ =~= Map::<u64, Access>::empty());
        }
        self.entries.len() == 0
    }

    /// The tags this map declares, in declaration order.
    pub fn tags(&self) -> (r: Vec<u64>)
        requires
            self.wf(),
        ensures
            forall|k: u64| self@.dom().contains(k) <==> r@.contains(k),
    {
        proof {
            lemma_map_of(self.entries@);
        }
        let mut r: Vec<u64> = Vec::new();
        let n = self.entries.len();
        for i in 0..n
            invariant
                n == self.entries@.len(),
                r@.len() == i,
                forall|j: int| 0 <= j < i ==> r@[j] == (#[trigger] self.entries@[j]).0,
        {
            r.push(self.entries[i].0);
        }
        assert forall|k: u64| self@.dom().contains(k) implies r@.contains(k) by {
            let j = choose|j: int|
                0 <= j < self.entries@.len() && (#[trigger] self.entries@[j]).0 == k;
            assert(r@[j] == k);
        }
        assert forall|k: u64| r@.contains(k) implies self@.dom().contains(k) by {
            let j = choose|j: int| 0 <= j < r@.len() && r@[j] == k;
            assert(self.entries@[j].0 == k);
        }
        r
    }

    /// Whether declaring `access` for `tag` would clash with a declaration
    /// already present: a unique claim on an already-claimed tag, or any
    /// claim on a tag already claimed uniquely.
    pub open spec fn spec_declare_clashes(m: Map<u64, Access>, tag: u64, access: Access) -> bool {
        match access {
            Access::Shared => m.dom().contains(tag) && m[tag] == Access::Unique,
            Access::Unique => m.dom().contains(tag),
        }
    }

    /// Declare an access contribution for a tag, reporting a clash instead
    /// of recording it. Re-declaring a shared claim is harmless.
    pub fn try_declare(&mut self, tag: u64, access: Access) -> (ok: bool)
        requires
            old(self).wf(),
        ensures
            final(self).wf(),
            ok == !Self::spec_declare_clashes(old(self)@, tag, access),
            ok ==> final(self)@ == old(self)@.insert(tag, access),
            !ok ==> final(self)@ == old(self)@,
    {
        let existing = self.get(tag);
        match (existing, access) {
            (None, _) => {
                proof {
                    lemma_map_of(self.entries@);
                }
                assert(forall|j: int|
                    0 <= j < self.entries@.len() ==> (#[trigger] self.entries@[j]).0 != tag);
                self.entries.push((tag, access));
                proof {
                    assert(self.entries@.drop_last() =~= old(self).entries@);
                }
                true
            },
            (Some(Access::Shared), Access::Shared) => {
                proof {
                    assert(self@.insert(tag, access) =~= self@);
                }
                true
            },
            (Some(_), _) => false,
        }
    }

    /// Declare an access contribution that is known not to clash. A clash
    /// within one system's declarations is a registration-time user error;
    /// callers that cannot rule it out use [`AccessMap::try_declare`].
    pub fn declare(&mut self, tag: u64, access: Access)
        requires
            old(self).wf(),
            !Self::spec_declare_clashes(old(self)@, tag, access),
        ensures
            final(self).wf(),
            final(self)@ == old(self)@.insert(tag, access),
    {
        let _ = self.try_declare(tag, access);
    }

    /// Pairwise conflict test between two access maps.
    pub fn conflicts(&self, other: &AccessMap) -> (r: bool)
        requires
            self.wf(),
            other.wf(),
        ensures
            r == conflicting(self@, other@),
    {
        proof {
            lemma_map_of(self.entries@);
            lemma_map_of(other.entries@);
        }
        let n = other.entries.len();
        for i in 0..n
            invariant
                n == other.entries@.len(),
                self.wf(),
                other.wf(),
                forall|j: int|
                    #![auto]
                    0 <= j < i ==> !(self@.dom().contains(other.entries@[j].0) && (other.entries@[j].1
                        == Access::Unique || self@[other.entries@[j].0] == Access::Unique)),
                forall|k: u64|
                    other@.dom().contains(k) <==> exists|j: int|
                        0 <= j < other.entries@.len() && (#[trigger] other.entries@[j]).0 == k,
                forall|j: int|
                    0 <= j < other.entries@.len() ==> other@[(#[trigger] other.entries@[j]).0]
                        == other.entries@[j].1,
        {
            let (tag, acc) = other.entries[i];
            match self.get(tag) {
                Some(mine) => {
                    if !(matches!(acc, Access::Shared) && matches!(mine, Access::Shared)) {
                        proof {
                            assert(other@.dom().contains(tag));
                        }
                        return true;
                    }
                },
                None => {},
            }
        }
        proof {
            if conflicting(self@, other@) {
                let t = choose|t: u64|
                    #![auto]
                    self@.dom().contains(t) && other@.dom().contains(t) && (self@[t]
                        == Access::Unique || other@[t] == Access::Unique);
                let j = choose|j: int|
                    0 <= j < other.entries@.len() && (#[trigger] other.entries@[j]).0 == t;
                assert(other.entries@[j].1 == other@[t]);
            }
        }
        false
    }

    /// Whether every tag this map declares is present among `keys`.
    pub fn satisfied_by(&self, keys: &Vec<u64>) -> (r: bool)
        requires
            self.wf(),
        ensures
            r == forall|t: u64| #[trigger] self@.dom().contains(t) ==> keys@.contains(t),
    {
        proof {
            lemma_map_of(self.entries@);
        }
        let n = self.entries.len();
        for i in 0..n
            invariant
                n == self.entries@.len(),
                self.wf(),
                forall|j: int| 0 <= j < i ==> keys@.contains((#[trigger] self.entries@[j]).0),
                forall|k: u64|
                    self@.dom().contains(k) <==> exists|j: int|
                        0 <= j < self.entries@.len() && (#[trigger] self.entries@[j]).0 == k,
        {
            if !contains_tag(keys, self.entries[i].0) {
                proof {
                    assert(self@.dom().contains(self.entries@[i as int].0));
                }
                return false;
            }
        }
        assert forall|t: u64| #[trigger] self@.dom().contains(t) implies keys@.contains(t) by {
            let j = choose|j: int|
                0 <= j < self.entries@.len() && (#[trigger] self.entries@[j]).0 == t;
        }
        true
    }
}

/// Linear membership test over a list of indices.
pub fn contains_tag_usize(keys: &Vec<usize>, tag: usize) -> (r: bool)
    ensures
        r == keys@.contains(tag),
{
    let n = keys.len();
    for i in 0..n
        invariant
            n == keys@.len(),
            forall|j: int| 0 <= j < i ==> keys@[j] != tag,
    {
        if keys[i] == tag {
            return true;
        }
    }
    false
}

/// Linear membership test over a plain tag list.
pub fn contains_tag(keys: &Vec<u64>, tag: u64) -> (r: bool)
    ensures
        r == keys@.contains(tag),
{
    let n = keys.len();
    for i in 0..n
        invariant
            n == keys@.len(),
            forall|j: int| 0 <= j < i ==> keys@[j] != tag,
    {
        if keys[i] == tag {
            return true;
        }
    }
    false
}

/// The access demands of one system: one map against the scheduler-global
/// store and one against its private per-system store.
#[derive(Debug)]
pub struct Accesses {
    scheduler: AccessMap,
    system: AccessMap,
}

impl Clone for Accesses {
    fn clone(&self) -> (r: Self)
        ensures
            r.same_as(self),
            r.wf() == self.wf(),
    {
        Accesses { scheduler: self.scheduler.clone(), system: self.system.clone() }
    }
}

impl Accesses {
    /// Entry-for-entry agreement; it carries the views and well-formedness
    /// of both maps with it.
    pub open spec fn same_as(&self, other: &Accesses) -> bool {
        self.spec_scheduler().spec_entries() == other.spec_scheduler().spec_entries()
            && self.spec_system().spec_entries() == other.spec_system().spec_entries()
    }

    pub open spec fn wf(&self) -> bool {
        self.spec_scheduler().wf() && self.spec_system().wf()
    }

    pub closed spec fn spec_scheduler(&self) -> AccessMap {
        self.scheduler
    }

    pub closed spec fn spec_system(&self) -> AccessMap {
        self.system
    }

    pub fn new(scheduler: AccessMap, system: AccessMap) -> (r: Accesses)
        ensures
            r.spec_scheduler() == scheduler,
            r.spec_system() == system,
    {
        Accesses { scheduler, system }
    }

    pub fn scheduler(&self) -> (r: &AccessMap)
        ensures
            r == self.spec_scheduler(),
    {
        &self.scheduler
    }

    pub fn system(&self) -> (r: &AccessMap)
        ensures
            r == self.spec_system(),
    {
        &self.system
    }

    /// Conflict between this system's scheduler-side demands and another
    /// access map (typically a reservation held by a running system).
    pub fn conflicts(&self, other: &AccessMap) -> (r: bool)
        requires
            self.wf(),
            other.wf(),
        ensures
            r == conflicting(self.spec_scheduler()@, other@),
    {
        self.scheduler.conflicts(other)
    }

    /// Whether the scheduler-global store owns every resource type the
    /// scheduler-side demands name.
    pub fn criteria(&self, owned_resources: &Vec<u64>) -> (r: bool)
        requires
            self.wf(),
        ensures
            r == forall|t: u64|
                #[trigger] self.spec_scheduler()@.dom().contains(t) ==> owned_resources@.contains(
                    t,
                ),
    {
        self.scheduler.satisfied_by(owned_resources)
    }
}

} // verus!
