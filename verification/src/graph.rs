//! The execution graph: a DAG over one tick's chosen systems.
//!
//! An edge `u -> v` says `u` must complete before `v` may start. Edges come
//! from the declared orderings: `u -> v` exactly when `v` stands in `u`'s
//! `before` list or `u` stands in `v`'s `after` list; references to systems
//! outside the chosen set are silently dropped. A node is a *leaf* while it
//! is not complete and every predecessor is; the dispatcher claims leaves.

use vstd::prelude::*;

use crate::id::SystemId;
use crate::ordering::SchedulerOrdering;

verus! {

broadcast use vstd::seq_lib::group_seq_properties;

/// A node's progress through the dispatch of one tick.
#[derive(Debug, PartialEq, Eq, Structural, Clone, Copy)]
pub enum NodeStatus {
    Ready,
    Pending,
    Complete,
}

/// The ordering-declared edge relation over a candidate list:
/// `u -> v` when `v` is in `u.before` or `u` is in `v.after`.
pub open spec fn spec_edge(systems: Seq<(SystemId, SchedulerOrdering)>, u: int, v: int) -> bool {
    systems[u].1.before@.contains(systems[v].0) || systems[v].1.after@.contains(systems[u].0)
}

/// How many nodes are not yet complete.
pub open spec fn count_incomplete(s: Seq<NodeStatus>) -> nat
    decreases s.len(),
{
    if s.len() == 0 {
        0
    } else {
        count_incomplete(s.drop_last()) + if s.last() == NodeStatus::Complete {
            0nat
        } else {
            1nat
        }
    }
}

/// Completing a node that was not complete lowers the incomplete count.
pub proof fn lemma_count_incomplete_update(s: Seq<NodeStatus>, v: int)
    requires
        0 <= v < s.len(),
        s[v] != NodeStatus::Complete,
    ensures
        count_incomplete(s.update(v, NodeStatus::Complete)) < count_incomplete(s),
    decreases s.len(),
{
    let upd = s.update(v, NodeStatus::Complete);
    if v == s.len() - 1 {
        assert(upd.drop_last() =~= s.drop_last());
        assert(upd.last() == NodeStatus::Complete);
    } else {
        assert(upd.drop_last() =~= s.drop_last().update(v, NodeStatus::Complete));
        lemma_count_incomplete_update(s.drop_last(), v);
        assert(upd.last() == s.last());
    }
}

/// A DAG over systems with per-node status and a finished flag.
#[derive(Debug)]
pub struct ExecutionGraph {
    ids: Vec<SystemId>,
    preds: Vec<Vec<usize>>,
    status: Vec<NodeStatus>,
    finished: bool,
}

impl ExecutionGraph {
    pub closed spec fn spec_ids(&self) -> Seq<SystemId> {
        self.ids@
    }

    pub closed spec fn spec_preds(&self) -> Seq<Seq<usize>> {
        Seq::new(self.preds@.len(), |i: int| self.preds@[i]@)
    }

    pub closed spec fn spec_status(&self) -> Seq<NodeStatus> {
        self.status@
    }

    pub closed spec fn spec_finished(&self) -> bool {
        self.finished
    }

    pub open spec fn wf(&self) -> bool {
        &&& self.spec_ids().no_duplicates()
        &&& self.spec_preds().len() == self.spec_ids().len()
        &&& self.spec_status().len() == self.spec_ids().len()
        &&& forall|v: int, j: int|
            0 <= v < self.spec_preds().len() && 0 <= j < self.spec_preds()[v].len()
                ==> (#[trigger] self.spec_preds()[v][j]) < self.spec_ids().len()
    }

    /// Whether the graph has an edge from node `u` to node `v`.
    pub open spec fn spec_has_edge(&self, u: int, v: int) -> bool {
        0 <= v < self.spec_preds().len() && exists|j: int|
            0 <= j < self.spec_preds()[v].len() && (#[trigger] self.spec_preds()[v][j]) == u
    }

    /// Whether node `v` is a leaf: not complete, every predecessor complete.
    pub open spec fn spec_is_leaf(&self, v: int) -> bool {
        &&& 0 <= v < self.spec_ids().len()
        &&& self.spec_status()[v] != NodeStatus::Complete
        &&& forall|j: int|
            0 <= j < self.spec_preds()[v].len() ==> self.spec_status()[(
            #[trigger] self.spec_preds()[v][j]) as int] == NodeStatus::Complete
    }

    /// Build the graph for a candidate list: one node per entry, edges from
    /// the declared orderings, every node initially `Ready`.
    pub fn new(systems: &Vec<(SystemId, SchedulerOrdering)>) -> (r: ExecutionGraph)
        requires
            forall|i: int, j: int|
                0 <= i < j < systems@.len() ==> (#[trigger] systems@[i]).0 != (
                #[trigger] systems@[j]).0,
        ensures
            r.wf(),
            r.spec_ids().len() == systems@.len(),
            forall|i: int|
                0 <= i < systems@.len() ==> r.spec_ids()[i] == (#[trigger] systems@[i]).0,
            forall|u: int, v: int|
                0 <= u < systems@.len() && 0 <= v < systems@.len() ==> (#[trigger] r.spec_has_edge(
                    u,
                    v,
                ) == spec_edge(systems@, u, v)),
            forall|i: int|
                0 <= i < r.spec_status().len() ==> r.spec_status()[i] == NodeStatus::Ready,
            !r.spec_finished(),
    {
        let n = systems.len();
        let mut ids: Vec<SystemId> = Vec::new();
        let mut status: Vec<NodeStatus> = Vec::new();
        let mut preds: Vec<Vec<usize>> = Vec::new();
        for i in 0..n
            invariant
                n == systems@.len(),
                ids@.len() == i,
                status@.len() == i,
                forall|j: int| 0 <= j < i ==> ids@[j] == (#[trigger] systems@[j]).0,
                forall|j: int| 0 <= j < i ==> status@[j] == NodeStatus::Ready,
        {
            ids.push(systems[i].0);
            status.push(NodeStatus::Ready);
        }
        for v in 0..n
            invariant
                n == systems@.len(),
                forall|i: int, j: int|
                    0 <= i < j < systems@.len() ==> (#[trigger] systems@[i]).0 != (
                    #[trigger] systems@[j]).0,
                preds@.len() == v,
                forall|v2: int, j: int|
                    0 <= v2 < v && 0 <= j < preds@[v2]@.len() ==> (#[trigger] preds@[v2]@[j])
                        < n,
                forall|v2: int, u: int|
                    0 <= v2 < v && 0 <= u < n ==> ((exists|j: int|
                        0 <= j < preds@[v2]@.len() && (#[trigger] preds@[v2]@[j]) == u)
                        == spec_edge(systems@, u, v2)),
        {
            let mut pv: Vec<usize> = Vec::new();
            for u in 0..n
                invariant
                    n == systems@.len(),
                    0 <= v < n,
                    forall|j: int| 0 <= j < pv@.len() ==> (#[trigger] pv@[j]) < n,
                    forall|u2: int|
                        0 <= u2 < u ==> ((exists|j: int|
                            0 <= j < pv@.len() && (#[trigger] pv@[j]) == u2) == spec_edge(
                            systems@,
                            u2,
                            v as int,
                        )),
                    forall|j: int| 0 <= j < pv@.len() ==> (#[trigger] pv@[j]) < u,
            {
                let is_edge = crate::interrupts::contains_system(
                    &systems[u].1.before,
                    &systems[v].0,
                ) || crate::interrupts::contains_system(&systems[v].1.after, &systems[u].0);
                let ghost pv_before = pv@;
                if is_edge {
                    pv.push(u);
                    proof {
                        assert(pv@.drop_last() =~= pv_before);
                        assert(pv@.last() == u);
                    }
                }
                proof {
                    assert forall|u2: int|
                        0 <= u2 < u + 1 implies ((exists|j: int|
                            0 <= j < pv@.len() && (#[trigger] pv@[j]) == u2) == spec_edge(
                            systems@,
                            u2,
                            v as int,
                        )) by {
                        if u2 == u {
                            if is_edge {
                                assert(pv@[pv@.len() - 1] == u2);
                            } else {
                                if exists|j: int|
                                    0 <= j < pv@.len() && (#[trigger] pv@[j]) == u2 {
                                    let j = choose|j: int|
                                        0 <= j < pv@.len() && (#[trigger] pv@[j]) == u2;
                                    assert(pv@[j] < u);
                                }
                            }
                        } else {
                            if spec_edge(systems@, u2, v as int) {
                                let j = choose|j: int|
                                    0 <= j < pv_before.len() && (#[trigger] pv_before[j]) == u2;
                                assert(pv@[j] == u2);
                            } else {
                                if exists|j: int|
                                    0 <= j < pv@.len() && (#[trigger] pv@[j]) == u2 {
                                    let j = choose|j: int|
                                        0 <= j < pv@.len() && (#[trigger] pv@[j]) == u2;
                                    if j < pv_before.len() {
                                        assert(pv_before[j] == u2);
                                    } else {
                                        assert(pv@[j] == u);
                                    }
                                }
                            }
                        }
                    }
                }
            }
            let ghost preds_before = preds@;
            preds.push(pv);
            proof {
                assert(preds@[v as int] == pv);
                assert forall|v2: int, u: int|
                    0 <= v2 < v + 1 && 0 <= u < n implies ((exists|j: int|
                        0 <= j < preds@[v2]@.len() && (#[trigger] preds@[v2]@[j]) == u)
                        == spec_edge(systems@, u, v2)) by {
                    if v2 < v {
                        assert(preds@[v2] == preds_before[v2]);
                    }
                }
            }
        }
        let r = ExecutionGraph { ids, preds, status, finished: false };
        proof {
            assert forall|i: int, j: int|
                0 <= i < j < r.ids@.len() implies r.ids@[i] != r.ids@[j] by {
                assert(systems@[i].0 != systems@[j].0);
            }
            assert forall|u: int, v: int|
                0 <= u < systems@.len() && 0 <= v < systems@.len() implies (
            #[trigger] r.spec_has_edge(u, v) == spec_edge(systems@, u, v)) by {
                assert(r.spec_preds()[v] == r.preds@[v]@);
            }
        }
        r
    }

    pub fn num_nodes(&self) -> (n: usize)
        ensures
            n == self.spec_ids().len(),
    {
        self.ids.len()
    }

    pub fn id_at(&self, v: usize) -> (id: SystemId)
        requires
            v < self.spec_ids().len(),
        ensures
            id == self.spec_ids()[v as int],
    {
        self.ids[v]
    }

    pub fn status_at(&self, v: usize) -> (s: NodeStatus)
        requires
            self.wf(),
            v < self.spec_ids().len(),
        ensures
            s == self.spec_status()[v as int],
    {
        self.status[v]
    }

    /// Whether node `v` is currently a leaf.
    pub fn is_leaf(&self, v: usize) -> (r: bool)
        requires
            self.wf(),
            v < self.spec_ids().len(),
        ensures
            r == self.spec_is_leaf(v as int),
    {
        if matches!(self.status[v], NodeStatus::Complete) {
            return false;
        }
        let pv = &self.preds[v];
        let m = pv.len();
        proof {
            assert(self.spec_preds()[v as int] == pv@);
        }
        for j in 0..m
            invariant
                m == pv@.len(),
                self.wf(),
                v < self.spec_ids().len(),
                pv@ == self.spec_preds()[v as int],
                forall|l: int|
                    0 <= l < j ==> self.spec_status()[(#[trigger] pv@[l]) as int]
                        == NodeStatus::Complete,
        {
            let p = pv[j];
            if !matches!(self.status[p], NodeStatus::Complete) {
                return false;
            }
        }
        true
    }

    /// The current leaves, in node order.
    pub fn leaves(&self) -> (r: Vec<usize>)
        requires
            self.wf(),
        ensures
            forall|j: int| 0 <= j < r@.len() ==> self.spec_is_leaf((#[trigger] r@[j]) as int),
            forall|v: int|
                0 <= v < self.spec_ids().len() && self.spec_is_leaf(v) ==> r@.contains(
                    v as usize,
                ),
            r@.no_duplicates(),
    {
        let n = self.ids.len();
        let mut r: Vec<usize> = Vec::new();
        for v in 0..n
            invariant
                n == self.spec_ids().len(),
                self.wf(),
                forall|j: int| 0 <= j < r@.len() ==> self.spec_is_leaf((#[trigger] r@[j]) as int),
                forall|v2: int|
                    0 <= v2 < v && self.spec_is_leaf(v2) ==> r@.contains(v2 as usize),
                forall|j: int| 0 <= j < r@.len() ==> (#[trigger] r@[j]) < v,
                r@.no_duplicates(),
        {
            let ghost r_before = r@;
            if self.is_leaf(v) {
                r.push(v);
                proof {
                    assert(r@.drop_last() =~= r_before);
                    assert(r@.last() == v);
                    assert forall|a: int, b: int| 0 <= a < b < r@.len() implies r@[a] != r@[b] by {
                        if b == r@.len() - 1 {
                            assert(r@[a] == r_before[a]);
                            assert(r@[a] < v);
                        }
                    }
                }
            }
            proof {
                assert forall|v2: int| 0 <= v2 < v + 1 && self.spec_is_leaf(v2) implies r@.contains(
                    v2 as usize,
                ) by {
                    if v2 < v {
                        assert(r_before.contains(v2 as usize));
                        let j = choose|j: int|
                            0 <= j < r_before.len() && (#[trigger] r_before[j]) == v2 as usize;
                        assert(r@[j] == v2 as usize);
                    } else {
                        assert(r@[r@.len() - 1] == v2 as usize);
                    }
                }
            }
        }
        r
    }

    /// Mark the node of a system complete, freeing its successors.
    pub fn mark_as_complete(&mut self, v: usize)
        requires
            old(self).wf(),
            v < old(self).spec_ids().len(),
        ensures
            final(self).wf(),
            final(self).spec_ids() == old(self).spec_ids(),
            final(self).spec_preds() == old(self).spec_preds(),
            final(self).spec_finished() == old(self).spec_finished(),
            final(self).spec_status() == old(self).spec_status().update(
                v as int,
                NodeStatus::Complete,
            ),
    {
        self.status[v] = NodeStatus::Complete;
        proof {
            assert(final(self).spec_preds() =~= old(self).spec_preds());
        }
    }

    /// Mark the node of a suspended system pending, without freeing its
    /// successors.
    pub fn mark_as_pending(&mut self, v: usize)
        requires
            old(self).wf(),
            v < old(self).spec_ids().len(),
        ensures
            final(self).wf(),
            final(self).spec_ids() == old(self).spec_ids(),
            final(self).spec_preds() == old(self).spec_preds(),
            final(self).spec_finished() == old(self).spec_finished(),
            final(self).spec_status() == old(self).spec_status().update(
                v as int,
                NodeStatus::Pending,
            ),
    {
        self.status[v] = NodeStatus::Pending;
        proof {
            assert(final(self).spec_preds() =~= old(self).spec_preds());
        }
    }

    pub fn finished(&self) -> (r: bool)
        ensures
            r == self.spec_finished(),
    {
        self.finished
    }

    pub fn set_finished(&mut self)
        ensures
            final(self).wf() == old(self).wf(),
            final(self).spec_ids() == old(self).spec_ids(),
            final(self).spec_preds() == old(self).spec_preds(),
            final(self).spec_status() == old(self).spec_status(),
            final(self).spec_finished(),
    {
        self.finished = true;
        proof {
            assert(final(self).spec_preds() =~= old(self).spec_preds());
        }
    }

    /// Once a node is complete, marking another node complete never takes
    /// that away: completion only grows.
    pub proof fn lemma_completion_monotone(&self, other: &ExecutionGraph, v: int, w: int)
        requires
            other.spec_status() == self.spec_status().update(w, NodeStatus::Complete),
            0 <= w < self.spec_status().len(),
            0 <= v < self.spec_status().len(),
            self.spec_status()[v] == NodeStatus::Complete,
        ensures
            other.spec_status()[v] == NodeStatus::Complete,
    {
    }
}

} // verus!
