//! The typed resource stores.
//!
//! A [`ResourceMap`] keys values by an opaque type tag; one tag, one value.
//! Insertions either replace, fail fast when the tag is taken
//! (conservative insert), or merge another whole map while reporting every
//! collision and leaving collided entries untouched. [`NewResources`]
//! gathers per-tick insertions, bucketed by destination: the scheduler's
//! global map or one system's private map; it drains at the `Movement`
//! phase, never earlier. A [`SystemResource`] is a private map behind a
//! single-owner reservation flag.

use vstd::prelude::*;

use crate::access::{Access, AccessMap};
use crate::id::SystemId;
use crate::reservations::Reservations;
use crate::tagmap::{lemma_map_of, map_of, unique_keys};

verus! {

broadcast use vstd::seq_lib::group_seq_properties;

/// The relation a conservative merge leaves behind: `after` holds every
/// key of `before` with its old value, plus the fresh keys of `incoming`
/// with their incoming values; `rejected` lists exactly the collisions,
/// each with the incoming value that was turned away.
pub open spec fn merge_outcome<V>(
    before: Map<u64, V>,
    incoming: Map<u64, V>,
    after: Map<u64, V>,
    rejected: Seq<(u64, V)>,
) -> bool {
    &&& forall|k: u64|
        after.dom().contains(k) <==> before.dom().contains(k) || incoming.dom().contains(k)
    &&& forall|k: u64| #[trigger] before.dom().contains(k) ==> after[k] == before[k]
    &&& forall|k: u64|
        #[trigger] incoming.dom().contains(k) && !before.dom().contains(k) ==> after[k]
            == incoming[k]
    &&& forall|j: int|
        0 <= j < rejected.len() ==> before.dom().contains((#[trigger] rejected[j]).0)
            && incoming.dom().contains(rejected[j].0) && incoming[rejected[j].0] == rejected[j].1
    &&& forall|k: u64|
        #[trigger] incoming.dom().contains(k) && before.dom().contains(k) ==> exists|j: int|
            0 <= j < rejected.len() && (#[trigger] rejected[j]).0 == k
}

/// The store after one run's writes land: each write whose tag the store
/// owns replaces that value, later writes winning over earlier ones;
/// writes to unowned tags are dropped, so the key set never changes.
pub open spec fn spec_apply_writes<V>(m: Map<u64, V>, writes: Seq<(u64, V)>) -> Map<u64, V>
    decreases writes.len(),
{
    if writes.len() == 0 {
        m
    } else {
        let rest = spec_apply_writes(m, writes.drop_last());
        if m.dom().contains(writes.last().0) {
            rest.insert(writes.last().0, writes.last().1)
        } else {
            rest
        }
    }
}

/// Applying writes never changes the key set.
pub proof fn lemma_apply_writes_dom<V>(m: Map<u64, V>, writes: Seq<(u64, V)>)
    ensures
        spec_apply_writes(m, writes).dom() == m.dom(),
    decreases writes.len(),
{
    if writes.len() > 0 {
        lemma_apply_writes_dom(m, writes.drop_last());
        if m.dom().contains(writes.last().0) {
            assert(spec_apply_writes(m, writes).dom() =~= m.dom());
        }
    }
}

/// Land one run's writes on a store, in report order.
pub fn apply_writes_to<V>(map: &mut ResourceMap<V>, writes: Vec<(u64, V)>)
    requires
        old(map).wf(),
    ensures
        final(map).wf(),
        final(map)@ == spec_apply_writes(old(map)@, writes@),
{
    let ghost writes0 = writes@;
    let ghost n = writes0.len() as int;
    let mut pending = writes;
    let mut rev: Vec<(u64, V)> = Vec::new();
    while pending.len() > 0
        invariant
            n == writes0.len(),
            pending@.len() <= n,
            pending@ == writes0.take(pending@.len() as int),
            rev@.len() == n - pending@.len(),
            forall|q: int| 0 <= q < rev@.len() ==> rev@[q] == writes0[n - 1 - q],
        decreases pending@.len(),
    {
        let ghost m = pending@.len() as int;
        proof {
            assert(pending@ == writes0.take(m));
        }
        let entry = pending.pop().unwrap();
        proof {
            assert(entry == writes0.take(m)[m - 1]);
            assert(writes0.take(m)[m - 1] == writes0[m - 1]);
            assert(pending@ =~= writes0.take(m - 1));
        }
        rev.push(entry);
        proof {
            assert(rev@.last() == writes0[m - 1]);
        }
    }
    while rev.len() > 0
        invariant
            n == writes0.len(),
            rev@.len() <= n,
            forall|q: int| 0 <= q < rev@.len() ==> rev@[q] == writes0[n - 1 - q],
            map.wf(),
            map@ == spec_apply_writes(old(map)@, writes0.take(n - rev@.len())),
        decreases rev@.len(),
    {
        let ghost k = n - rev@.len() as int;
        let (tag, value) = rev.pop().unwrap();
        proof {
            assert((tag, value) == writes0[k]);
        }
        if map.contains_key(tag) {
            let ghost before = map@;
            let _ = map.insert(tag, value);
            proof {
                lemma_apply_writes_dom(old(map)@, writes0.take(k));
                assert(old(map)@.dom().contains(tag));
                assert(writes0.take(k + 1).drop_last() =~= writes0.take(k));
                assert(writes0.take(k + 1).last() == (tag, value));
            }
        } else {
            proof {
                lemma_apply_writes_dom(old(map)@, writes0.take(k));
                assert(!old(map)@.dom().contains(tag));
                assert(writes0.take(k + 1).drop_last() =~= writes0.take(k));
                assert(writes0.take(k + 1).last() == (tag, value));
            }
        }
    }
    proof {
        assert(writes0.take(n) =~= writes0);
    }
}

/// A single stored value. The store hands borrows of the inner value out
/// and can give the value back whole.
#[derive(Debug)]
pub struct ResourceWrapper<T>(T);

impl<T> ResourceWrapper<T> {
    pub closed spec fn spec_inner(&self) -> T {
        self.0
    }

    pub fn new(v: T) -> (r: Self)
        ensures
            r.spec_inner() == v,
    {
        ResourceWrapper(v)
    }

    pub fn get(&self) -> (r: &T)
        ensures
            r == self.spec_inner(),
    {
        &self.0
    }

    pub fn consume(self) -> (r: T)
        ensures
            r == self.spec_inner(),
    {
        self.0
    }
}

/// A store of typed values, keyed by type tag.
#[derive(Debug)]
pub struct ResourceMap<V> {
    entries: Vec<(u64, V)>,
}

impl<V> View for ResourceMap<V> {
    type V = Map<u64, V>;

    closed spec fn view(&self) -> Map<u64, V> {
        map_of(self.entries@)
    }
}

impl<V> ResourceMap<V> {
    pub closed spec fn spec_entries(&self) -> Seq<(u64, V)> {
        self.entries@
    }

    pub closed spec fn wf(&self) -> bool {
        unique_keys(self.entries@)
    }

    /// How the entry list relates to the mapping view.
    pub proof fn lemma_entries(&self)
        requires
            self.wf(),
        ensures
            unique_keys(self.spec_entries()),
            map_of(self.spec_entries()) == self@,
            forall|k: u64|
                self@.dom().contains(k) <==> exists|i: int|
                    0 <= i < self.spec_entries().len() && (#[trigger] self.spec_entries()[i]).0
                        == k,
            forall|i: int|
                0 <= i < self.spec_entries().len() ==> self@[(
                #[trigger] self.spec_entries()[i]).0] == self.spec_entries()[i].1,
    {
        lemma_map_of(self.entries@);
        assert forall|k: u64| self@.dom().contains(k) implies exists|i: int|
            0 <= i < self.spec_entries().len() && (#[trigger] self.spec_entries()[i]).0 == k by {
            let i = choose|i: int|
                0 <= i < self.entries@.len() && (#[trigger] self.entries@[i]).0 == k;
            assert((self.spec_entries()[i]).0 == k);
        }
        assert forall|k: u64|
            (exists|i: int|
                0 <= i < self.spec_entries().len() && (#[trigger] self.spec_entries()[i]).0
                    == k) implies self@.dom().contains(k) by {
            let i = choose|i: int|
                0 <= i < self.spec_entries().len() && (#[trigger] self.spec_entries()[i]).0 == k;
            assert((self.entries@[i]).0 == k);
        }
    }

    pub fn new() -> (r: ResourceMap<V>)
        ensures
            r.wf(),
            r@ == Map::<u64, V>::empty(),
    {
        ResourceMap { entries: Vec::new() }
    }

    /// The type tags the store currently owns.
    pub fn keys(&self) -> (r: Vec<u64>)
        requires
            self.wf(),
        ensures
            forall|k: u64| self@.dom().contains(k) <==> r@.contains(k),
            r@.no_duplicates(),
    {
        proof {
            self.lemma_entries();
        }
        let mut r: Vec<u64> = Vec::new();
        let n = self.entries.len();
        for i in 0..n
            invariant
                n == self.entries@.len(),
                self.wf(),
                r@.len() == i,
                forall|j: int| 0 <= j < i ==> r@[j] == (#[trigger] self.entries@[j]).0,
        {
            r.push(self.entries[i].0);
        }
        proof {
            assert forall|k: u64| self@.dom().contains(k) implies r@.contains(k) by {
                let j = choose|j: int|
                    0 <= j < self.entries@.len() && (#[trigger] self.entries@[j]).0 == k;
                assert(r@[j] == k);
            }
            assert forall|k: u64| r@.contains(k) implies self@.dom().contains(k) by {
                let j = choose|j: int| 0 <= j < r@.len() && r@[j] == k;
                assert(self.entries@[j].0 == k);
            }
            assert forall|i: int, j: int| 0 <= i < j < r@.len() implies r@[i] != r@[j] by {
                assert(self.entries@[i].0 != self.entries@[j].0);
            }
        }
        r
    }

    pub fn contains_key(&self, tag: u64) -> (r: bool)
        requires
            self.wf(),
        ensures
            r == self@.dom().contains(tag),
    {
        proof {
            self.lemma_entries();
        }
        let n = self.entries.len();
        for i in 0..n
            invariant
                n == self.entries@.len(),
                self.wf(),
                forall|j: int| 0 <= j < i ==> (#[trigger] self.entries@[j]).0 != tag,
                forall|k: u64|
                    self@.dom().contains(k) <==> exists|j: int|
                        0 <= j < self.entries@.len() && (#[trigger] self.entries@[j]).0 == k,
        {
            if self.entries[i].0 == tag {
                return true;
            }
        }
        false
    }

    /// Borrow the value stored under a tag.
    pub fn get(&self, tag: u64) -> (r: Option<&V>)
        requires
            self.wf(),
        ensures
            match r {
                Some(v) => self@.dom().contains(tag) && self@[tag] == v,
                None => !self@.dom().contains(tag),
            },
    {
        proof {
            self.lemma_entries();
        }
        let n = self.entries.len();
        for i in 0..n
            invariant
                n == self.entries@.len(),
                self.wf(),
                forall|j: int| 0 <= j < i ==> (#[trigger] self.entries@[j]).0 != tag,
                forall|k: u64|
                    self@.dom().contains(k) <==> exists|j: int|
                        0 <= j < self.entries@.len() && (#[trigger] self.entries@[j]).0 == k,
                forall|j: int|
                    0 <= j < self.entries@.len() ==> self@[(#[trigger] self.entries@[j]).0]
                        == self.entries@[j].1,
        {
            if self.entries[i].0 == tag {
                return Some(&self.entries[i].1);
            }
        }
        None
    }

    /// Insert a value under a tag, replacing and returning what was there.
    pub fn insert(&mut self, type_id: u64, resource: V) -> (r: Option<V>)
        requires
            old(self).wf(),
        ensures
            final(self).wf(),
            final(self)@ == old(self)@.insert(type_id, resource),
            match r {
                Some(prev) => old(self)@.dom().contains(type_id) && old(self)@[type_id] == prev,
                None => !old(self)@.dom().contains(type_id),
            },
    {
        proof {
            self.lemma_entries();
        }
        let n = self.entries.len();
        for i in 0..n
            invariant
                n == self.entries@.len(),
                self.wf(),
                self.entries@ == old(self).spec_entries(),
                forall|j: int| 0 <= j < i ==> (#[trigger] self.entries@[j]).0 != type_id,
                forall|k: u64|
                    self@.dom().contains(k) <==> exists|j: int|
                        0 <= j < self.entries@.len() && (#[trigger] self.entries@[j]).0 == k,
                forall|j: int|
                    0 <= j < self.entries@.len() ==> self@[(#[trigger] self.entries@[j]).0]
                        == self.entries@[j].1,
        {
            if self.entries[i].0 == type_id {
                let ghost incoming = resource;
                let mut pair = (type_id, resource);
                core::mem::swap(&mut self.entries[i], &mut pair);
                proof {
                    assert(self.entries@ == old(self).spec_entries().update(
                        i as int,
                        (type_id, incoming),
                    ));
                    crate::tagmap::lemma_map_of_update(
                        old(self).spec_entries(),
                        i as int,
                        incoming,
                    );
                }
                return Some(pair.1);
            }
        }
        self.entries.push((type_id, resource));
        proof {
            crate::tagmap::lemma_map_of_push(
                old(self).spec_entries(),
                type_id,
                self.entries@.last().1,
            );
        }
        None
    }

    /// Insert only when the tag is free; otherwise hand the value back.
    pub fn conservatively_insert(&mut self, type_id: u64, resource: V) -> (r: Result<(), V>)
        requires
            old(self).wf(),
        ensures
            final(self).wf(),
            match r {
                Ok(()) => !old(self)@.dom().contains(type_id) && final(self)@ == old(
                    self,
                )@.insert(type_id, resource),
                Err(rejected) => old(self)@.dom().contains(type_id) && rejected == resource
                    && final(self)@ == old(self)@,
            },
    {
        if self.contains_key(type_id) {
            Err(resource)
        } else {
            proof {
                self.lemma_entries();
                assert forall|j: int|
                    0 <= j < self.spec_entries().len() implies (
                #[trigger] self.spec_entries()[j]).0 != type_id by {}
            }
            self.entries.push((type_id, resource));
            proof {
                crate::tagmap::lemma_map_of_push(old(self).spec_entries(), type_id, resource);
            }
            Ok(())
        }
    }

    /// Move the value under a tag out, leaving a replacement in its place.
    pub fn take_replace(&mut self, tag: u64, replacement: V) -> (r: Result<V, V>)
        requires
            old(self).wf(),
        ensures
            final(self).wf(),
            match r {
                Ok(taken) => old(self)@.dom().contains(tag) && old(self)@[tag] == taken && final(self)@ == old(self)@.insert(tag, replacement),
                Err(given_back) => !old(self)@.dom().contains(tag) && given_back == replacement
                    && final(self)@ == old(self)@,
            },
    {
        proof {
            self.lemma_entries();
        }
        let n = self.entries.len();
        for i in 0..n
            invariant
                n == self.entries@.len(),
                self.wf(),
                self.entries@ == old(self).spec_entries(),
                forall|j: int| 0 <= j < i ==> (#[trigger] self.entries@[j]).0 != tag,
                forall|k: u64|
                    self@.dom().contains(k) <==> exists|j: int|
                        0 <= j < self.entries@.len() && (#[trigger] self.entries@[j]).0 == k,
                forall|j: int|
                    0 <= j < self.entries@.len() ==> self@[(#[trigger] self.entries@[j]).0]
                        == self.entries@[j].1,
        {
            if self.entries[i].0 == tag {
                let ghost incoming = replacement;
                let mut pair = (tag, replacement);
                core::mem::swap(&mut self.entries[i], &mut pair);
                proof {
                    assert(self.entries@ == old(self).spec_entries().update(
                        i as int,
                        (tag, incoming),
                    ));
                    crate::tagmap::lemma_map_of_update(
                        old(self).spec_entries(),
                        i as int,
                        incoming,
                    );
                }
                return Ok(pair.1);
            }
        }
        Err(replacement)
    }

    /// Merge another store into this one. Values already present win: each
    /// collision is left untouched here and reported back with the incoming
    /// value, so nothing is lost silently.
    pub fn conservatively_merge(&mut self, other: ResourceMap<V>) -> (rejected: Vec<(u64, V)>)
        requires
            old(self).wf(),
            other.wf(),
        ensures
            final(self).wf(),
            merge_outcome(old(self)@, other@, final(self)@, rejected@),
    {
        proof {
            other.lemma_entries();
        }
        let ghost oth = other.spec_entries();
        let ghost n = oth.len() as int;
        let mut items = other.entries;
        let mut rejected: Vec<(u64, V)> = Vec::new();
        while items.len() > 0
            invariant
                n == oth.len(),
                items@.len() <= n,
                items@ == oth.take(items@.len() as int),
                unique_keys(oth),
                self.wf(),
                forall|k: u64|
                    #[trigger] old(self)@.dom().contains(k) ==> self@.dom().contains(k)
                        && self@[k] == old(self)@[k],
                forall|k: u64|
                    self@.dom().contains(k) ==> old(self)@.dom().contains(k) || exists|l: int|
                        items@.len() <= l < n && (#[trigger] oth[l]).0 == k,
                forall|l: int|
                    items@.len() <= l < n && !old(self)@.dom().contains((#[trigger] oth[l]).0)
                        ==> self@.dom().contains(oth[l].0) && self@[oth[l].0] == oth[l].1,
                forall|j: int|
                    0 <= j < rejected@.len() ==> old(self)@.dom().contains(
                        (#[trigger] rejected@[j]).0,
                    ) && exists|l: int|
                        items@.len() <= l < n && oth[l] == rejected@[j],
                forall|l: int|
                    items@.len() <= l < n && old(self)@.dom().contains((#[trigger] oth[l]).0)
                        ==> exists|j: int|
                        0 <= j < rejected@.len() && (#[trigger] rejected@[j]).0 == oth[l].0,
            decreases items@.len(),
        {
            let ghost m = items@.len() as int;
            proof {
                assert(items@ == oth.take(m));
            }
            let (k, v) = items.pop().unwrap();
            proof {
                assert((k, v) == oth.take(m)[m - 1]);
                assert(oth.take(m)[m - 1] == oth[m - 1]);
                assert(items@ =~= oth.take(m - 1));
            }
            let collides = {
                let ghost before = self@;
                let c = self.contains_key(k);
                c
            };
            if collides {
                let ghost rej_before = rejected@;
                rejected.push((k, v));
                proof {
                    assert(rejected@.drop_last() =~= rej_before);
                    assert(rejected@.last() == (k, v));
                    assert(old(self)@.dom().contains(k)) by {
                        if !old(self)@.dom().contains(k) {
                            let l2 = choose|l2: int|
                                m <= l2 < n && (#[trigger] oth[l2]).0 == k;
                            assert(oth[l2].0 == oth[m - 1].0);
                        }
                    }
                    assert forall|l: int|
                        m - 1 <= l < n && old(self)@.dom().contains(
                            (#[trigger] oth[l]).0,
                        ) implies exists|j: int|
                        0 <= j < rejected@.len() && (#[trigger] rejected@[j]).0 == oth[l].0 by {
                        if l == m - 1 {
                            assert(rejected@[rejected@.len() - 1].0 == oth[l].0);
                        } else {
                            let j = choose|j: int|
                                0 <= j < rej_before.len() && (#[trigger] rej_before[j]).0
                                    == oth[l].0;
                            assert(rejected@[j].0 == oth[l].0);
                        }
                    }
                    assert forall|j: int|
                        0 <= j < rejected@.len() implies old(self)@.dom().contains(
                        (#[trigger] rejected@[j]).0,
                    ) && exists|l: int| m - 1 <= l < n && oth[l] == rejected@[j] by {
                        if j == rejected@.len() - 1 {
                            assert(oth[m - 1] == rejected@[j]);
                        } else {
                            assert(rej_before[j] == rejected@[j]);
                            let l = choose|l: int| m <= l < n && oth[l] == rej_before[j];
                            assert(oth[l] == rejected@[j]);
                        }
                    }
                }
            } else {
                let ghost self_before = self@;
                let prev = self.insert(k, v);
                proof {
                    assert(!old(self)@.dom().contains(k));
                    assert forall|k2: u64| self@.dom().contains(k2) implies old(
                        self,
                    )@.dom().contains(k2) || exists|l: int|
                        m - 1 <= l < n && (#[trigger] oth[l]).0 == k2 by {
                        if k2 == k {
                            assert(oth[m - 1].0 == k2);
                        } else {
                            assert(self_before.dom().contains(k2));
                            if !old(self)@.dom().contains(k2) {
                                let l = choose|l: int| m <= l < n && (#[trigger] oth[l]).0 == k2;
                            }
                        }
                    }
                    assert forall|l: int|
                        m - 1 <= l < n && !old(self)@.dom().contains(
                            (#[trigger] oth[l]).0,
                        ) implies self@.dom().contains(oth[l].0) && self@[oth[l].0]
                        == oth[l].1 by {
                        if l == m - 1 {
                            assert(self@ == self_before.insert(k, v));
                        } else {
                            assert(oth[l].0 != k);
                        }
                    }
                    assert forall|j: int|
                        0 <= j < rejected@.len() implies old(self)@.dom().contains(
                        (#[trigger] rejected@[j]).0,
                    ) && exists|l: int| m - 1 <= l < n && oth[l] == rejected@[j] by {
                        let l = choose|l: int| m <= l < n && oth[l] == rejected@[j];
                    }
                    assert forall|l: int|
                        m - 1 <= l < n && old(self)@.dom().contains(
                            (#[trigger] oth[l]).0,
                        ) implies exists|j: int|
                        0 <= j < rejected@.len() && (#[trigger] rejected@[j]).0 == oth[l].0 by {
                        if l >= m {
                            let j = choose|j: int|
                                0 <= j < rejected@.len() && (#[trigger] rejected@[j]).0
                                    == oth[l].0;
                        }
                    }
                }
            }
        }
        proof {
            assert(oth.take(0) =~= Seq::<(u64, V)>::empty());
            assert forall|k: u64|
                #[trigger] other@.dom().contains(k) && !old(self)@.dom().contains(k) implies self@[k]
                == other@[k] by {
                let l = choose|l: int| 0 <= l < oth.len() && (#[trigger] oth[l]).0 == k;
                assert(other@[oth[l].0] == oth[l].1);
            }
            assert forall|k: u64|
                #[trigger] other@.dom().contains(k) && old(self)@.dom().contains(k) implies exists|
                j: int,
            | 0 <= j < rejected@.len() && (#[trigger] rejected@[j]).0 == k by {
                let l = choose|l: int| 0 <= l < oth.len() && (#[trigger] oth[l]).0 == k;
            }
            assert forall|j: int| 0 <= j < rejected@.len() implies old(self)@.dom().contains(
                (#[trigger] rejected@[j]).0,
            ) && other@.dom().contains(rejected@[j].0) && other@[rejected@[j].0]
                == rejected@[j].1 by {
                let l = choose|l: int| 0 <= l < n && oth[l] == rejected@[j];
                assert(other@[oth[l].0] == oth[l].1);
            }
            assert forall|k: u64| self@.dom().contains(k) implies old(self)@.dom().contains(k)
                || other@.dom().contains(k) by {
                if !old(self)@.dom().contains(k) {
                    let l = choose|l: int| 0 <= l < n && (#[trigger] oth[l]).0 == k;
                }
            }
        }
        rejected
    }
}

impl<V> Default for ResourceMap<V> {
    fn default() -> (r: Self)
        ensures
            r.wf(),
            r@ == Map::<u64, V>::empty(),
    {
        ResourceMap::new()
    }
}

/// Resources posted during a tick, waiting for the `Movement` phase.
/// Bucketed by destination: `None` is the scheduler-global store, `Some`
/// one system's private store.
#[derive(Debug)]
pub struct NewResources<V> {
    buckets: Vec<(Option<SystemId>, ResourceMap<V>)>,
}

impl<V> NewResources<V> {
    pub closed spec fn spec_buckets(&self) -> Seq<(Option<SystemId>, ResourceMap<V>)> {
        self.buckets@
    }

    pub open spec fn wf(&self) -> bool {
        unique_keys(self.spec_buckets()) && forall|i: int|
            0 <= i < self.spec_buckets().len() ==> (#[trigger] self.spec_buckets()[i]).1.wf()
    }

    pub open spec fn spec_has_bucket(&self, owner: Option<SystemId>) -> bool {
        exists|i: int|
            0 <= i < self.spec_buckets().len() && (#[trigger] self.spec_buckets()[i]).0 == owner
    }

    pub fn new() -> (r: NewResources<V>)
        ensures
            r.wf(),
            r.spec_buckets() == Seq::<(Option<SystemId>, ResourceMap<V>)>::empty(),
    {
        NewResources { buckets: Vec::new() }
    }

    /// File a map of fresh resources for a destination. Within the
    /// destination's bucket the merge is conservative: a tag already filed
    /// keeps its first value, and the collisions are reported back.
    pub fn insert(&mut self, system_id: Option<SystemId>, resource_map: ResourceMap<V>) -> (rejected:
        Vec<(u64, V)>)
        requires
            old(self).wf(),
            resource_map.wf(),
        ensures
            final(self).wf(),
            !old(self).spec_has_bucket(system_id) ==> final(self).spec_buckets() == old(
                self,
            ).spec_buckets().push((system_id, resource_map)) && rejected@ == Seq::<
                (u64, V),
            >::empty(),
            old(self).spec_has_bucket(system_id) ==> exists|i: int|
                {
                    &&& 0 <= i < old(self).spec_buckets().len()
                    &&& (#[trigger] old(self).spec_buckets()[i]).0 == system_id
                    &&& final(self).spec_buckets().len() == old(self).spec_buckets().len()
                    &&& forall|j: int|
                        0 <= j < old(self).spec_buckets().len() && j != i ==> final(self).spec_buckets()[j] == old(self).spec_buckets()[j]
                    &&& final(self).spec_buckets()[i].0 == system_id
                    &&& merge_outcome(
                        old(self).spec_buckets()[i].1@,
                        resource_map@,
                        final(self).spec_buckets()[i].1@,
                        rejected@,
                    )
                },
    {
        let n = self.buckets.len();
        for i in 0..n
            invariant
                n == self.buckets@.len(),
                self.wf(),
                self.buckets@ == old(self).spec_buckets(),
                resource_map.wf(),
                forall|j: int| 0 <= j < i ==> (#[trigger] self.buckets@[j]).0 != system_id,
        {
            if option_id_eq(&self.buckets[i].0, &system_id) {
                let ghost before = self.buckets@;
                let bucket = &mut self.buckets[i];
                let rejected = bucket.1.conservatively_merge(resource_map);
                proof {
                    assert forall|a: int, b: int|
                        0 <= a < b < self.buckets@.len() implies (#[trigger] self.buckets@[a]).0
                        != (#[trigger] self.buckets@[b]).0 by {
                        assert(before[a].0 == self.buckets@[a].0);
                        assert(before[b].0 == self.buckets@[b].0);
                    }
                    assert(old(self).spec_buckets()[i as int].0 == system_id);
                    assert(0 <= (i as int) < old(self).spec_buckets().len() && old(
                        self,
                    ).spec_buckets()[i as int].0 == system_id && self.spec_buckets().len() == old(
                        self,
                    ).spec_buckets().len() && (forall|j: int|
                        0 <= j < old(self).spec_buckets().len() && j != i as int
                            ==> self.spec_buckets()[j] == old(self).spec_buckets()[j])
                        && self.spec_buckets()[i as int].0 == system_id && merge_outcome(
                        old(self).spec_buckets()[i as int].1@,
                        resource_map@,
                        self.spec_buckets()[i as int].1@,
                        rejected@,
                    ));
                }
                return rejected;
            }
        }
        proof {
            if old(self).spec_has_bucket(system_id) {
                let i = choose|i: int|
                    0 <= i < old(self).spec_buckets().len() && (#[trigger] old(
                        self,
                    ).spec_buckets()[i]).0 == system_id;
            }
        }
        self.buckets.push((system_id, resource_map));
        proof {
            assert(self.buckets@.drop_last() =~= old(self).spec_buckets());
        }
        Vec::new()
    }

    /// The bucket map filed for a destination; empty when none is filed.
    pub open spec fn spec_bucket_map(&self, owner: Option<SystemId>) -> Map<u64, V> {
        if self.spec_has_bucket(owner) {
            self.spec_buckets()[choose|i: int|
                0 <= i < self.spec_buckets().len() && (#[trigger] self.spec_buckets()[i]).0
                    == owner].1@
        } else {
            Map::empty()
        }
    }

    /// With unique owners, any bucket at the destination is the one the
    /// lookup denotes.
    pub proof fn lemma_bucket_map(&self, i: int)
        requires
            self.wf(),
            0 <= i < self.spec_buckets().len(),
        ensures
            self.spec_bucket_map(self.spec_buckets()[i].0) == self.spec_buckets()[i].1@,
    {
        let owner = self.spec_buckets()[i].0;
        assert(self.spec_has_bucket(owner));
        let j = choose|j: int|
            0 <= j < self.spec_buckets().len() && (#[trigger] self.spec_buckets()[j]).0 == owner;
        if i != j {
            assert(self.spec_buckets()[i].0 != self.spec_buckets()[j].0);
        }
    }

    /// Hand out every bucket, leaving the pool empty.
    pub fn drain(&mut self) -> (drained: Vec<(Option<SystemId>, ResourceMap<V>)>)
        requires
            old(self).wf(),
        ensures
            final(self).wf(),
            final(self).spec_buckets() == Seq::<(Option<SystemId>, ResourceMap<V>)>::empty(),
            drained@ == old(self).spec_buckets(),
            forall|i: int| 0 <= i < drained@.len() ==> (#[trigger] drained@[i]).1.wf(),
    {
        let mut out: Vec<(Option<SystemId>, ResourceMap<V>)> = Vec::new();
        core::mem::swap(&mut out, &mut self.buckets);
        out
    }
}

impl<V> Default for NewResources<V> {
    fn default() -> (r: Self)
        ensures
            r.wf(),
            r.spec_buckets() == Seq::<(Option<SystemId>, ResourceMap<V>)>::empty(),
    {
        NewResources::new()
    }
}

/// Equality of bucket owners.
fn option_id_eq(a: &Option<SystemId>, b: &Option<SystemId>) -> (r: bool)
    ensures
        r == (a == b),
{
    match (a, b) {
        (None, None) => true,
        (Some(x), Some(y)) => x == y,
        _ => false,
    }
}

/// One system's private resource store, behind a single-owner reservation
/// flag: at most one holder at a time.
#[derive(Debug)]
pub struct SystemResource<V> {
    in_use: bool,
    resources: ResourceMap<V>,
}

impl<V> SystemResource<V> {
    pub closed spec fn spec_in_use(&self) -> bool {
        self.in_use
    }

    pub closed spec fn spec_resources(&self) -> ResourceMap<V> {
        self.resources
    }

    pub open spec fn wf(&self) -> bool {
        self.spec_resources().wf()
    }

    pub fn new() -> (r: SystemResource<V>)
        ensures
            r.wf(),
            !r.spec_in_use(),
            r.spec_resources()@ == Map::<u64, V>::empty(),
    {
        SystemResource { in_use: false, resources: ResourceMap::new() }
    }

    /// Take the single-owner reservation if it is free. The caller that
    /// got `true` is the owner until it releases.
    pub fn try_acquire(&mut self) -> (got: bool)
        ensures
            got == !old(self).spec_in_use(),
            final(self).spec_in_use(),
            final(self).spec_resources() == old(self).spec_resources(),
    {
        if self.in_use {
            false
        } else {
            self.in_use = true;
            true
        }
    }

    /// Release the reservation.
    pub fn release(&mut self)
        ensures
            !final(self).spec_in_use(),
            final(self).spec_resources() == old(self).spec_resources(),
    {
        self.in_use = false;
    }

    /// Merge fresh resources into the private store, conservatively.
    pub fn conservatively_merge(&mut self, other: ResourceMap<V>) -> (rejected: Vec<(u64, V)>)
        requires
            old(self).wf(),
            other.wf(),
        ensures
            final(self).wf(),
            final(self).spec_in_use() == old(self).spec_in_use(),
            merge_outcome(
                old(self).spec_resources()@,
                other@,
                final(self).spec_resources()@,
                rejected@,
            ),
    {
        self.resources.conservatively_merge(other)
    }

    pub fn resources(&self) -> (r: &ResourceMap<V>)
        ensures
            r == self.spec_resources(),
    {
        &self.resources
    }

    pub fn resources_mut(&mut self) -> (r: &mut ResourceMap<V>)
        ensures
            *r == old(self).spec_resources(),
            final(self).spec_resources() == *final(r),
            final(self).spec_in_use() == old(self).spec_in_use(),
    {
        &mut self.resources
    }
}

impl<V> Default for SystemResource<V> {
    fn default() -> (r: Self)
        ensures
            r.wf(),
            !r.spec_in_use(),
            r.spec_resources()@ == Map::<u64, V>::empty(),
    {
        SystemResource::new()
    }
}

/// A read view of the global store that honours the reservations held by
/// running systems: a request conflicting with any reservation is denied.
pub struct AccessCheckedResourceMap<'a, V> {
    resource_map: &'a ResourceMap<V>,
    accesses: &'a Reservations,
}

impl<'a, V> AccessCheckedResourceMap<'a, V> {
    pub closed spec fn spec_map(&self) -> &'a ResourceMap<V> {
        self.resource_map
    }

    pub closed spec fn spec_reservations(&self) -> &'a Reservations {
        self.accesses
    }

    pub fn new(resource_map: &'a ResourceMap<V>, accesses: &'a Reservations) -> (r: Self)
        ensures
            r.spec_map() == resource_map,
            r.spec_reservations() == accesses,
    {
        AccessCheckedResourceMap { resource_map, accesses }
    }

    /// Resolve one tag under a requested access kind. Denied exactly when
    /// the request conflicts with a reservation held by a running system.
    pub fn resolve(&self, tag: u64, access: Access) -> (r: Result<Option<&'a V>, &'static str>)
        requires
            self.spec_map().wf(),
            self.spec_reservations().wf(),
        ensures
            match r {
                Ok(found) => !self.spec_reservations().spec_any_conflict(
                    Map::empty().insert(tag, access),
                ) && (match found {
                    Some(v) => self.spec_map()@.dom().contains(tag) && self.spec_map()@[tag] == v,
                    None => !self.spec_map()@.dom().contains(tag),
                }),
                Err(_) => self.spec_reservations().spec_any_conflict(
                    Map::empty().insert(tag, access),
                ),
            },
    {
        let mut wanted = AccessMap::new();
        wanted.declare(tag, access);
        if self.accesses.any_conflict(&wanted) {
            Err("Access Denied")
        } else {
            Ok(self.resource_map.get(tag))
        }
    }
}

} // verus!
