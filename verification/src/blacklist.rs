//! Per-phase blacklists: rules that forbid certain accesses for a while.
//!
//! A rule either forbids every access of one kind, or a specific
//! `(type tag, kind)` pair. Rules carry a [`Lifetime`]; at the start of each
//! tick every rule ages by one and expired rules are reaped.

use vstd::prelude::*;

use crate::access::{Access, AccessMap};
use crate::phase::{Phase, PHASE_COUNT};
use crate::tick::Lifetime;

verus! {

/// Kind-only rules after one tick of aging: each survivor is one tick
/// older, expired rules are gone, order is kept.
pub open spec fn spec_tick_access_rules(s: Seq<(Access, Lifetime)>) -> Seq<(Access, Lifetime)>
    decreases s.len(),
{
    if s.len() == 0 {
        Seq::empty()
    } else {
        let rest = spec_tick_access_rules(s.drop_last());
        let aged = s.last().1.spec_aged();
        if aged.spec_alive() {
            rest.push((s.last().0, aged))
        } else {
            rest
        }
    }
}

/// Typed rules after one tick of aging, as for kind-only rules.
pub open spec fn spec_tick_typed_rules(s: Seq<(u64, Access, Lifetime)>) -> Seq<
    (u64, Access, Lifetime),
>
    decreases s.len(),
{
    if s.len() == 0 {
        Seq::empty()
    } else {
        let rest = spec_tick_typed_rules(s.drop_last());
        let aged = s.last().2.spec_aged();
        if aged.spec_alive() {
            rest.push((s.last().0, s.last().1, aged))
        } else {
            rest
        }
    }
}

/// Whether an access mapping is blocked by the given rules: one of its
/// declarations matches a kind-only rule, or matches a typed rule in both
/// tag and kind.
pub open spec fn spec_rules_block(
    access_rules: Seq<(Access, Lifetime)>,
    typed_rules: Seq<(u64, Access, Lifetime)>,
    m: Map<u64, Access>,
) -> bool {
    (exists|t: u64, i: int|
        #![auto]
        m.dom().contains(t) && 0 <= i < access_rules.len() && access_rules[i].0 == m[t]) || (exists|
        t: u64,
        i: int,
    |
        #![auto]
        m.dom().contains(t) && 0 <= i < typed_rules.len() && typed_rules[i].0 == t
            && typed_rules[i].1 == m[t])
}

/// The blacklist of one phase.
#[derive(Debug, Clone)]
pub struct Blacklist {
    access_blacklist: Vec<(Access, Lifetime)>,
    typed_blacklist: Vec<(u64, Access, Lifetime)>,
}

impl Blacklist {
    /// The kind-only rules, in insertion order.
    pub closed spec fn spec_access_rules(&self) -> Seq<(Access, Lifetime)> {
        self.access_blacklist@
    }

    /// The typed rules, in insertion order.
    pub closed spec fn spec_typed_rules(&self) -> Seq<(u64, Access, Lifetime)> {
        self.typed_blacklist@
    }

    /// An access map is blocked when one of its declarations matches a
    /// kind-only rule, or matches a typed rule in both tag and kind.
    pub open spec fn spec_blocked(&self, m: Map<u64, Access>) -> bool {
        spec_rules_block(self.spec_access_rules(), self.spec_typed_rules(), m)
    }

    pub fn new() -> (r: Blacklist)
        ensures
            r.spec_access_rules() == Seq::<(Access, Lifetime)>::empty(),
            r.spec_typed_rules() == Seq::<(u64, Access, Lifetime)>::empty(),
    {
        Blacklist { access_blacklist: Vec::new(), typed_blacklist: Vec::new() }
    }

    /// Whether this blacklist blocks a system with the given access map.
    pub fn check_blocked(&self, accesses: &AccessMap) -> (r: bool)
        requires
            accesses.wf(),
        ensures
            r == self.spec_blocked(accesses@),
    {
        proof {
            accesses.lemma_entries();
        }
        let n = accesses.num_entries();
        for i in 0..n
            invariant
                n == accesses.spec_entries().len(),
                accesses.wf(),
                forall|k: u64|
                    accesses@.dom().contains(k) <==> exists|j: int|
                        0 <= j < accesses.spec_entries().len() && (
                        #[trigger] accesses.spec_entries()[j]).0 == k,
                forall|j: int|
                    0 <= j < accesses.spec_entries().len() ==> accesses@[(
                    #[trigger] accesses.spec_entries()[j]).0] == accesses.spec_entries()[j].1,
                forall|j: int, l: int|
                    #![auto]
                    0 <= j < i && 0 <= l < self.spec_access_rules().len()
                        ==> self.spec_access_rules()[l].0 != accesses.spec_entries()[j].1,
                forall|j: int, l: int|
                    #![auto]
                    0 <= j < i && 0 <= l < self.spec_typed_rules().len() ==> !(
                    self.spec_typed_rules()[l].0 == accesses.spec_entries()[j].0
                        && self.spec_typed_rules()[l].1 == accesses.spec_entries()[j].1),
        {
            let (tag, acc) = accesses.entry(i);
            let an = self.access_blacklist.len();
            for l in 0..an
                invariant
                    an == self.spec_access_rules().len(),
                    accesses.wf(),
                    tag == accesses.spec_entries()[i as int].0,
                    acc == accesses.spec_entries()[i as int].1,
                    accesses@.dom().contains(tag) && accesses@[tag] == acc,
                    forall|l2: int|
                        #![auto]
                        0 <= l2 < l ==> self.spec_access_rules()[l2].0 != acc,
            {
                if self.access_blacklist[l].0 == acc {
                    return true;
                }
            }
            let tn = self.typed_blacklist.len();
            for l in 0..tn
                invariant
                    tn == self.spec_typed_rules().len(),
                    accesses.wf(),
                    tag == accesses.spec_entries()[i as int].0,
                    acc == accesses.spec_entries()[i as int].1,
                    accesses@.dom().contains(tag) && accesses@[tag] == acc,
                    forall|l2: int|
                        #![auto]
                        0 <= l2 < l ==> !(self.spec_typed_rules()[l2].0 == tag
                            && self.spec_typed_rules()[l2].1 == acc),
            {
                let rule = &self.typed_blacklist[l];
                if rule.0 == tag && rule.1 == acc {
                    return true;
                }
            }
        }
        proof {
            if self.spec_blocked(accesses@) {
                if exists|t: u64, l: int|
                    #![auto]
                    accesses@.dom().contains(t) && 0 <= l < self.spec_access_rules().len()
                        && self.spec_access_rules()[l].0 == accesses@[t] {
                    let (t, l) = choose|t: u64, l: int|
                        #![auto]
                        accesses@.dom().contains(t) && 0 <= l < self.spec_access_rules().len()
                            && self.spec_access_rules()[l].0 == accesses@[t];
                    let j = choose|j: int|
                        0 <= j < accesses.spec_entries().len() && (
                        #[trigger] accesses.spec_entries()[j]).0 == t;
                    assert(accesses.spec_entries()[j].1 == accesses@[t]);
                } else {
                    let (t, l) = choose|t: u64, l: int|
                        #![auto]
                        accesses@.dom().contains(t) && 0 <= l < self.spec_typed_rules().len()
                            && self.spec_typed_rules()[l].0 == t && self.spec_typed_rules()[l].1
                            == accesses@[t];
                    let j = choose|j: int|
                        0 <= j < accesses.spec_entries().len() && (
                        #[trigger] accesses.spec_entries()[j]).0 == t;
                    assert(accesses.spec_entries()[j].1 == accesses@[t]);
                }
            }
        }
        false
    }

    /// Age every rule one tick and reap the expired ones.
    pub fn tick(&mut self)
        ensures
            final(self).spec_access_rules() == spec_tick_access_rules(
                old(self).spec_access_rules(),
            ),
            final(self).spec_typed_rules() == spec_tick_typed_rules(old(self).spec_typed_rules()),
    {
        let n = self.access_blacklist.len();
        let mut kept: Vec<(Access, Lifetime)> = Vec::new();
        assert(self.access_blacklist@.take(0) =~= Seq::<(Access, Lifetime)>::empty());
        for i in 0..n
            invariant
                n == self.access_blacklist@.len(),
                kept@ == spec_tick_access_rules(self.access_blacklist@.take(i as int)),
        {
            let (acc, mut lt) = self.access_blacklist[i];
            let keep = lt.tick();
            if keep {
                kept.push((acc, lt));
            }
            assert(self.access_blacklist@.take(i + 1).drop_last() =~= self.access_blacklist@.take(
                i as int,
            ));
        }
        assert(self.access_blacklist@.take(n as int) =~= self.access_blacklist@);
        self.access_blacklist = kept;

        let tn = self.typed_blacklist.len();
        let mut tkept: Vec<(u64, Access, Lifetime)> = Vec::new();
        assert(self.typed_blacklist@.take(0) =~= Seq::<(u64, Access, Lifetime)>::empty());
        for i in 0..tn
            invariant
                tn == self.typed_blacklist@.len(),
                tkept@ == spec_tick_typed_rules(self.typed_blacklist@.take(i as int)),
        {
            let (tag, acc, mut lt) = self.typed_blacklist[i];
            let keep = lt.tick();
            if keep {
                tkept.push((tag, acc, lt));
            }
            assert(self.typed_blacklist@.take(i + 1).drop_last() =~= self.typed_blacklist@.take(
                i as int,
            ));
        }
        assert(self.typed_blacklist@.take(tn as int) =~= self.typed_blacklist@);
        self.typed_blacklist = tkept;
    }

    /// Forbid every access of the given kind, for the given lifetime.
    pub fn insert_access_blacklist(&mut self, access: Access, lifetime: Lifetime)
        ensures
            final(self).spec_access_rules() == old(self).spec_access_rules().push(
                (access, lifetime),
            ),
            final(self).spec_typed_rules() == old(self).spec_typed_rules(),
    {
        self.access_blacklist.push((access, lifetime));
    }

    /// Forbid the given `(type tag, kind)` pair, for the given lifetime.
    pub fn insert_typed_blacklist(&mut self, type_tag: u64, access: Access, lifetime: Lifetime)
        ensures
            final(self).spec_typed_rules() == old(self).spec_typed_rules().push(
                (type_tag, access, lifetime),
            ),
            final(self).spec_access_rules() == old(self).spec_access_rules(),
    {
        self.typed_blacklist.push((type_tag, access, lifetime));
    }
}

impl Default for Blacklist {
    fn default() -> (r: Self)
        ensures
            r.spec_access_rules() == Seq::<(Access, Lifetime)>::empty(),
            r.spec_typed_rules() == Seq::<(u64, Access, Lifetime)>::empty(),
    {
        Blacklist::new()
    }
}

/// One blacklist per phase of the cycle.
#[derive(Debug, Clone)]
pub struct Blacklists {
    lists: Vec<Blacklist>,
}

impl Blacklists {
    pub closed spec fn spec_lists(&self) -> Seq<Blacklist> {
        self.lists@
    }

    pub open spec fn wf(&self) -> bool {
        self.spec_lists().len() == PHASE_COUNT
    }

    /// The blacklist of one phase.
    pub open spec fn spec_for_phase(&self, phase: Phase) -> Blacklist {
        self.spec_lists()[phase.spec_index()]
    }

    pub fn new() -> (r: Blacklists)
        ensures
            r.wf(),
            forall|p: Phase|
                (#[trigger] r.spec_for_phase(p)).spec_access_rules() == Seq::<
                    (Access, Lifetime),
                >::empty() && r.spec_for_phase(p).spec_typed_rules() == Seq::<
                    (u64, Access, Lifetime),
                >::empty(),
    {
        let mut lists: Vec<Blacklist> = Vec::new();
        let mut i: usize = 0;
        while i < PHASE_COUNT
            invariant
                i == lists@.len(),
                i <= PHASE_COUNT,
                forall|j: int|
                    0 <= j < i ==> (#[trigger] lists@[j]).spec_access_rules() == Seq::<
                        (Access, Lifetime),
                    >::empty() && lists@[j].spec_typed_rules() == Seq::<
                        (u64, Access, Lifetime),
                    >::empty(),
            decreases PHASE_COUNT - i,
        {
            lists.push(Blacklist::new());
            i = i + 1;
        }
        Blacklists { lists }
    }

    /// Borrow one phase's blacklist.
    pub fn get(&self, phase: Phase) -> (r: &Blacklist)
        requires
            self.wf(),
        ensures
            r == self.spec_for_phase(phase),
    {
        &self.lists[phase.index()]
    }

    /// Borrow one phase's blacklist for modification.
    pub fn get_mut(&mut self, phase: Phase) -> (r: &mut Blacklist)
        requires
            old(self).wf(),
        ensures
            *r == old(self).spec_for_phase(phase),
            final(self).wf(),
            final(self).spec_lists() == old(self).spec_lists().update(
                phase.spec_index(),
                *final(r),
            ),
    {
        let i = phase.index();
        &mut self.lists[i]
    }

    /// Age every phase's rules one tick.
    pub fn tick(&mut self)
        requires
            old(self).wf(),
        ensures
            final(self).wf(),
            forall|p: Phase|
                (#[trigger] final(self).spec_for_phase(p)).spec_access_rules()
                    == spec_tick_access_rules(old(self).spec_for_phase(p).spec_access_rules())
                    && final(self).spec_for_phase(p).spec_typed_rules() == spec_tick_typed_rules(
                    old(self).spec_for_phase(p).spec_typed_rules(),
                ),
    {
        let n = self.lists.len();
        for i in 0..n
            invariant
                n == PHASE_COUNT,
                self.lists@.len() == PHASE_COUNT,
                forall|j: int|
                    0 <= j < i ==> (#[trigger] self.lists@[j]).spec_access_rules()
                        == spec_tick_access_rules(old(self).spec_lists()[j].spec_access_rules())
                        && self.lists@[j].spec_typed_rules() == spec_tick_typed_rules(
                        old(self).spec_lists()[j].spec_typed_rules(),
                    ),
                forall|j: int| i <= j < n ==> self.lists@[j] == old(self).spec_lists()[j],
        {
            let list = &mut self.lists[i];
            list.tick();
        }
    }
}

impl Default for Blacklists {
    fn default() -> (r: Self)
        ensures
            r.wf(),
            forall|p: Phase|
                (#[trigger] r.spec_for_phase(p)).spec_access_rules() == Seq::<
                    (Access, Lifetime),
                >::empty() && r.spec_for_phase(p).spec_typed_rules() == Seq::<
                    (u64, Access, Lifetime),
                >::empty(),
    {
        Blacklists::new()
    }
}

} // verus!
