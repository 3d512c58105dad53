//! The critical path method: validation of a graph of tasks, and the
//! earliest and latest times of each task.

use std::collections::HashMap;
use std::hash::Hash;
use vstd::prelude::*;
use vstd::std_specs::hash::obeys_key_model;
use crate::graph::Graph;
use crate::members::reversed;
use crate::task::Task;

verus! {

broadcast use {
    vstd::std_specs::hash::group_hash_axioms,
    vstd::seq_lib::lemma_seq_contains_after_push,
};

/// Why a graph cannot be scheduled.
#[derive(Clone, Copy, Debug, PartialEq, Eq)]
pub enum CpmError<VId> {
    /// An edge names this identifier, and it has no vertex record.
    UnknownNodeReference(VId),
    /// This node lies on a directed cycle.
    CyclicDependency(VId),
    /// The task of this node has a negative duration.
    InvalidDuration(VId),
}

/// The times of one task, in the unit of its duration.
#[derive(Clone, Copy, Debug, PartialEq, Eq, Structural)]
pub struct Times {
    pub early_start: i128,
    pub early_finish: i128,
    pub late_start: i128,
    pub late_finish: i128,
    pub slack: i128,
}

/// The outcome of scheduling a graph.
#[derive(Clone, Debug)]
pub struct Schedule<VId> {
    /// The vertices, each before all of its successors.
    pub order: Vec<VId>,
    /// The times of each vertex.
    pub times: HashMap<VId, Times>,
    /// The earliest time at which every task has finished.
    pub project_finish: i128,
    /// The edges whose two ends both have no slack, each once.
    pub critical_edges: Vec<(VId, VId)>,
}

impl<VId: Copy + Eq + Hash> Schedule<VId> {
    /// The times of `node`, if the schedule holds it.
    pub fn times_of(&self, node: &VId) -> (found: Option<Times>)
        requires
            obeys_key_model::<VId>(),
        ensures
            found == if self.times@.contains_key(*node) {
                Some(self.times@[*node])
            } else {
                None::<Times>
            },
    {
        match self.times.get(node) {
            Some(t) => Some(*t),
            None => None,
        }
    }

    /// The earliest time at which `node` can start.
    pub fn early_start(&self, node: &VId) -> (found: Option<i128>)
        requires
            obeys_key_model::<VId>(),
        ensures
            found == if self.times@.contains_key(*node) {
                Some(self.times@[*node].early_start)
            } else {
                None::<i128>
            },
    {
        match self.times.get(node) {
            Some(t) => Some(t.early_start),
            None => None,
        }
    }

    /// The earliest time at which `node` can finish.
    pub fn early_finish(&self, node: &VId) -> (found: Option<i128>)
        requires
            obeys_key_model::<VId>(),
        ensures
            found == if self.times@.contains_key(*node) {
                Some(self.times@[*node].early_finish)
            } else {
                None::<i128>
            },
    {
        match self.times.get(node) {
            Some(t) => Some(t.early_finish),
            None => None,
        }
    }

    /// The latest time at which `node` can start without delaying the
    /// project.
    pub fn late_start(&self, node: &VId) -> (found: Option<i128>)
        requires
            obeys_key_model::<VId>(),
        ensures
            found == if self.times@.contains_key(*node) {
                Some(self.times@[*node].late_start)
            } else {
                None::<i128>
            },
    {
        match self.times.get(node) {
            Some(t) => Some(t.late_start),
            None => None,
        }
    }

    /// The latest time at which `node` can finish without delaying the
    /// project.
    pub fn late_finish(&self, node: &VId) -> (found: Option<i128>)
        requires
            obeys_key_model::<VId>(),
        ensures
            found == if self.times@.contains_key(*node) {
                Some(self.times@[*node].late_finish)
            } else {
                None::<i128>
            },
    {
        match self.times.get(node) {
            Some(t) => Some(t.late_finish),
            None => None,
        }
    }

    /// By how much `node` can be delayed without delaying the project.
    pub fn slack(&self, node: &VId) -> (found: Option<i128>)
        requires
            obeys_key_model::<VId>(),
        ensures
            found == if self.times@.contains_key(*node) {
                Some(self.times@[*node].slack)
            } else {
                None::<i128>
            },
    {
        match self.times.get(node) {
            Some(t) => Some(t.slack),
            None => None,
        }
    }

    /// Whether the schedule holds `node` and gives it no slack.
    pub fn is_critical(&self, node: &VId) -> (critical: bool)
        requires
            obeys_key_model::<VId>(),
        ensures
            critical == (self.times@.contains_key(*node) && self.times@[*node].slack == 0),
    {
        match self.times.get(node) {
            Some(t) => t.slack == 0,
            None => false,
        }
    }
}

impl<VId> Graph<VId, Task> {
    /// The duration of the task at `n`.
    pub open spec fn duration(&self, n: VId) -> int {
        self.vertex_map()[n].duration as int
    }

    /// No edge enters `n`.
    pub open spec fn is_source(&self, n: VId) -> bool {
        forall|p: VId| !#[trigger] self.has_edge(p, n)
    }

    /// No edge leaves `n`.
    pub open spec fn is_sink(&self, n: VId) -> bool {
        forall|s: VId| !#[trigger] self.has_edge(n, s)
    }

    /// `order` lists each vertex once, and before all of its successors.
    pub open spec fn is_topological_order(&self, order: Seq<VId>) -> bool {
        &&& order.no_duplicates()
        &&& order.to_set() == self.vertex_map().dom()
        &&& forall|i: int, j: int|
            0 <= i < order.len() && 0 <= j < order.len() && #[trigger] self.has_edge(
                order[i],
                order[j],
            ) ==> i < j
    }

    /// Some task has a negative duration.
    pub open spec fn has_negative_duration(&self) -> bool {
        exists|id: VId| #[trigger] self.has_vertex(id) && self.duration(id) < 0
    }

    /// Every edge joins two vertices, no cycle exists, and no duration is
    /// negative.
    pub open spec fn schedulable(&self) -> bool {
        &&& !self.has_dangling()
        &&& !self.has_cycle()
        &&& !self.has_negative_duration()
    }

    /// The early start of `n` is the greatest early finish among its
    /// predecessors, and 0 where it has none.
    pub open spec fn early_start_holds(&self, t: Map<VId, Times>, n: VId) -> bool {
        &&& forall|p: VId| #[trigger] self.has_edge(p, n) ==> t[p].early_finish <= t[n].early_start
        &&& if self.is_source(n) {
            t[n].early_start == 0
        } else {
            exists|p: VId| #[trigger] self.has_edge(p, n) && t[p].early_finish == t[n].early_start
        }
    }

    /// The late finish of `n` is the least late start among its
    /// successors, and the project's finish where it has none.
    pub open spec fn late_finish_holds(&self, t: Map<VId, Times>, finish: int, n: VId) -> bool {
        &&& forall|s: VId| #[trigger] self.has_edge(n, s) ==> t[n].late_finish <= t[s].late_start
        &&& if self.is_sink(n) {
            t[n].late_finish == finish
        } else {
            exists|s: VId| #[trigger] self.has_edge(n, s) && t[s].late_start == t[n].late_finish
        }
    }

    /// `finish` is the greatest early finish of all vertices, and 0 where
    /// there is no vertex.
    pub open spec fn finish_holds(&self, t: Map<VId, Times>, finish: int) -> bool {
        &&& forall|n: VId| #[trigger] self.has_vertex(n) ==> t[n].early_finish <= finish
        &&& if self.vertex_map().dom().is_empty() {
            finish == 0
        } else {
            exists|n: VId| #[trigger] self.has_vertex(n) && t[n].early_finish == finish
        }
    }

    /// The five times of `n` obey the rules of the method.
    pub open spec fn times_hold(&self, t: Map<VId, Times>, finish: int, n: VId) -> bool {
        &&& self.early_start_holds(t, n)
        &&& t[n].early_finish == t[n].early_start + self.duration(n)
        &&& self.late_finish_holds(t, finish, n)
        &&& t[n].late_start == t[n].late_finish - self.duration(n)
        &&& t[n].slack == t[n].late_start - t[n].early_start
    }

    /// The early finish recorded for `n` is its duration after the greatest
    /// early finish among its predecessors, or after 0 where it has none.
    spec fn early_finish_holds(&self, early: Map<VId, i128>, n: VId) -> bool {
        let start = early[n] - self.duration(n);
        &&& forall|p: VId| #[trigger] self.has_edge(p, n) ==> early[p] <= start
        &&& if self.is_source(n) {
            start == 0
        } else {
            exists|p: VId| #[trigger] self.has_edge(p, n) && early[p] == start
        }
    }

    /// In a graph that can be scheduled, a topological order holds both
    /// ends of every edge, the source first.
    pub(crate) proof fn lemma_edge_in_order(&self, order: Seq<VId>, a: VId, b: VId) -> (at: (int, int))
        requires
            self.wf(),
            self.schedulable(),
            self.is_topological_order(order),
            self.has_edge(a, b),
        ensures
            0 <= at.0 < at.1 < order.len(),
            order[at.0] == a,
            order[at.1] == b,
    {
        self.lemma_wf();
        assert(!self.dangling(a));
        assert(!self.dangling(b));
        let i = choose|i: int| 0 <= i < order.len() && order[i] == a;
        let j = choose|j: int| 0 <= j < order.len() && order[j] == b;
        assert(self.has_edge(order[i], order[j]));
        (i, j)
    }

    /// The late start recorded for `n` is its duration before the least
    /// late start among its successors, or before `finish` where it has
    /// none.
    spec fn late_start_holds(&self, late: Map<VId, i128>, finish: int, n: VId) -> bool {
        let end = late[n] + self.duration(n);
        &&& forall|s: VId| #[trigger] self.has_edge(n, s) ==> end <= late[s]
        &&& if self.is_sink(n) {
            end == finish
        } else {
            exists|s: VId| #[trigger] self.has_edge(n, s) && late[s] == end
        }
    }

    /// `finish` is the greatest of the recorded early finishes, and 0
    /// where there is no vertex.
    spec fn latest_of(&self, early: Map<VId, i128>, finish: int) -> bool {
        &&& forall|n: VId| #[trigger] self.has_vertex(n) ==> early[n] <= finish
        &&& if self.vertex_map().dom().is_empty() {
            finish == 0
        } else {
            exists|n: VId| #[trigger] self.has_vertex(n) && early[n] == finish
        }
    }

    /// `t` holds for `n` its recorded early finish and late start, and
    /// what follows from them and its duration.
    spec fn times_from(
        &self,
        t: Times,
        early: Map<VId, i128>,
        late: Map<VId, i128>,
        n: VId,
    ) -> bool {
        &&& t.early_start == early[n] - self.duration(n)
        &&& t.early_finish == early[n]
        &&& t.late_start == late[n]
        &&& t.late_finish == late[n] + self.duration(n)
        &&& t.slack == late[n] - early[n] + self.duration(n)
    }

    /// An edge counts as critical when both of its ends have no slack.
    pub open spec fn is_critical_edge(&self, t: Map<VId, Times>, a: VId, b: VId) -> bool {
        self.has_edge(a, b) && t[a].slack == 0 && t[b].slack == 0
    }

    /// The graph can be scheduled, and `s` is what the method yields for
    /// it.
    pub open spec fn is_schedule(&self, s: Schedule<VId>) -> bool {
        &&& self.schedulable()
        &&& self.is_topological_order(s.order@)
        &&& s.times@.dom() == self.vertex_map().dom()
        &&& forall|n: VId| #[trigger]
            self.has_vertex(n) ==> self.times_hold(s.times@, s.project_finish as int, n)
        &&& self.finish_holds(s.times@, s.project_finish as int)
        &&& s.critical_edges@.no_duplicates()
        &&& forall|a: VId, b: VId|
            #![trigger s.critical_edges@.contains((a, b))]
            #![trigger self.is_critical_edge(s.times@, a, b)]
            s.critical_edges@.contains((a, b)) <==> self.is_critical_edge(s.times@, a, b)
    }
}

impl<VId: Copy + Eq + Hash, V> Graph<VId, V> {
    /// Looks for an identifier that an edge names and that has no vertex
    /// record, at either end of the edge.
    pub fn find_dangling(&self) -> (found: Option<VId>)
        requires
            self.wf(),
        ensures
            found is Some <==> self.has_dangling(),
            found matches Some(id) ==> self.dangling(id),
    {
        proof {
            self.lemma_wf();
        }
        let sources = self.edge_sources();
        let mut i: usize = 0;
        while i < sources.len()
            invariant
                self.wf(),
                i <= sources.len(),
                forall|a: VId| #[trigger] sources@.contains(a) <==> !self.successors(a).is_empty(),
                forall|k: int| 0 <= k < i ==> self.has_vertex(#[trigger] sources@[k]),
                forall|k: int, b: VId|
                    0 <= k < i && #[trigger] self.has_edge(sources@[k], b) ==> self.has_vertex(b),
            decreases sources.len() - i,
        {
            let from = sources[i];
            proof {
                assert(sources@.contains(sources@[i as int]));
            }
            if !self.contains_vertex(&from) {
                assert(self.dangling(from));
                return Some(from);
            }
            let targets = self.successor_list(&from);
            let mut j: usize = 0;
            while j < targets.len()
                invariant
                    self.wf(),
                    j <= targets.len(),
                    targets@.to_set() == self.successors(from),
                    forall|k: int| 0 <= k < j ==> self.has_vertex(#[trigger] targets@[k]),
                decreases targets.len() - j,
            {
                let to = targets[j];
                if !self.contains_vertex(&to) {
                    proof {
                        self.lemma_wf();
                        assert(self.has_edge(from, to));
                        assert(self.dangling(to));
                    }
                    return Some(to);
                }
                j += 1;
            }
            proof {
                assert forall|b: VId| self.has_edge(from, b) implies self.has_vertex(b) by {
                    let k = choose|k: int| 0 <= k < targets@.len() && targets@[k] == b;
                    assert(self.has_vertex(targets@[k]));
                }
            }
            i += 1;
        }
        proof {
            assert forall|id: VId| !self.dangling(id) by {
                if self.nodes().contains(id) && !self.has_vertex(id) {
                    if !self.successors(id).is_empty() {
                        assert(sources@.contains(id));
                        let k = choose|k: int| 0 <= k < sources@.len() && sources@[k] == id;
                        assert(self.has_vertex(sources@[k]));
                    } else {
                        let a = choose|a: VId| self.predecessors(id).contains(a);
                        assert(self.has_edge(a, id));
                        assert(!self.successors(a).is_empty());
                        assert(sources@.contains(a));
                        let k = choose|k: int| 0 <= k < sources@.len() && sources@[k] == a;
                        assert(self.has_edge(sources@[k], id));
                    }
                }
            }
        }
        None
    }
}

impl<VId: Copy + Eq + Hash> Graph<VId, Task> {
    /// Looks among `ids` for a task with a negative duration.
    fn find_negative_duration(&self, ids: &Vec<VId>) -> (found: Option<VId>)
        requires
            self.wf(),
            ids@.to_set() == self.vertex_map().dom(),
        ensures
            found is Some <==> self.has_negative_duration(),
            found matches Some(id) ==> self.has_vertex(id) && self.duration(id) < 0,
    {
        let mut i: usize = 0;
        while i < ids.len()
            invariant
                self.wf(),
                i <= ids.len(),
                ids@.to_set() == self.vertex_map().dom(),
                forall|k: int| 0 <= k < i ==> self.duration(#[trigger] ids@[k]) >= 0,
            decreases ids.len() - i,
        {
            let id = ids[i];
            proof {
                assert(ids@.to_set().contains(ids@[i as int]));
            }
            match self.vertex(&id) {
                Some(task) => {
                    if task.duration < 0 {
                        return Some(id);
                    }
                },
                None => {},
            }
            i += 1;
        }
        proof {
            assert forall|id: VId| self.has_vertex(id) implies self.duration(id) >= 0 by {
                let k = choose|k: int| 0 <= k < ids@.len() && ids@[k] == id;
                assert(self.duration(ids@[k]) >= 0);
            }
        }
        None
    }

    /// Checks, in this order, that every edge joins two vertices, that no
    /// directed cycle exists and that no duration is negative. Returns the
    /// vertices, each before all of its successors, or the first fault.
    pub fn validate(&self) -> (res: Result<Vec<VId>, CpmError<VId>>)
        requires
            self.wf(),
        ensures
            res is Ok <==> self.schedulable(),
            self.has_dangling() <==> res matches Err(CpmError::UnknownNodeReference(_)),
            !self.has_dangling() && self.has_cycle() <==> res matches Err(
                CpmError::CyclicDependency(_),
            ),
            !self.has_dangling() && !self.has_cycle() && self.has_negative_duration() <==> res matches Err(
                CpmError::InvalidDuration(_),
            ),
            match res {
                Ok(order) => self.is_topological_order(order@),
                Err(CpmError::UnknownNodeReference(id)) => self.dangling(id),
                Err(CpmError::CyclicDependency(id)) => self.on_cycle(id),
                Err(CpmError::InvalidDuration(id)) => self.has_vertex(id) && self.duration(id) < 0,
            },
    {
        proof {
            self.lemma_wf();
        }
        if let Some(id) = self.find_dangling() {
            return Err(CpmError::UnknownNodeReference(id));
        }
        let ids = self.vertex_ids();
        proof {
            assert forall|i: int| 0 <= i < ids@.len() implies self.nodes().contains(
                #[trigger] ids@[i],
            ) by {
                assert(ids@.to_set().contains(ids@[i]));
            }
        }
        let finished = match self.finish_order(&ids) {
            Ok(finished) => finished,
            Err(id) => {
                return Err(CpmError::CyclicDependency(id));
            },
        };
        proof {
            assert(finished@.to_set() =~= self.vertex_map().dom()) by {
                assert forall|x: VId| self.has_vertex(x) implies finished@.to_set().contains(x) by {
                    let k = choose|k: int| 0 <= k < ids@.len() && ids@[k] == x;
                    assert(finished@.contains(ids@[k]));
                }
                assert forall|x: VId| finished@.to_set().contains(x) implies self.has_vertex(x) by {
                    assert(self.nodes().contains(x));
                    assert(!self.dangling(x));
                }
                assert forall|x: VId|
                    finished@.to_set().contains(x) <==> self.vertex_map().dom().contains(x) by {
                    assert(self.has_vertex(x) <==> self.vertex_map().dom().contains(x));
                }
            }
            assert forall|a: VId| !(#[trigger] self.successors(a)).is_empty() implies finished@.contains(
                a,
            ) by {
                assert(!self.dangling(a));
            }
            self.lemma_finish_order_excludes_cycle(finished@);
        }
        if let Some(id) = self.find_negative_duration(&ids) {
            return Err(CpmError::InvalidDuration(id));
        }
        let order = reversed(&finished);
        proof {
            let n = finished@.len() as int;
            assert(order@.to_set() =~= finished@.to_set()) by {
                assert forall|x: VId| order@.contains(x) <==> finished@.contains(x) by {
                    if order@.contains(x) {
                        let k = choose|k: int| 0 <= k < n && order@[k] == x;
                        assert(finished@[n - 1 - k] == x);
                    }
                    if finished@.contains(x) {
                        let k = choose|k: int| 0 <= k < n && finished@[k] == x;
                        assert(order@[n - 1 - k] == x);
                    }
                }
            }
            assert forall|i: int, j: int|
                0 <= i < order@.len() && 0 <= j < order@.len() && #[trigger] self.has_edge(
                    order@[i],
                    order@[j],
                ) implies i < j by {
                let at = choose|at: int| 0 <= at < n - 1 - i && #[trigger] finished@[at] == order@[j];
                assert(finished@[at] == finished@[n - 1 - j]);
            }
        }
        Ok(order)
    }

    /// The early finish of each vertex, taken in topological order so that
    /// each vertex is computed once, after its predecessors.
    fn early_finishes(&self, order: &Vec<VId>) -> (early: HashMap<VId, i128>)
        requires
            self.wf(),
            self.schedulable(),
            self.is_topological_order(order@),
        ensures
            early@.dom() == self.vertex_map().dom(),
            forall|n: VId| #[trigger]
                self.has_vertex(n) ==> {
                    &&& self.early_finish_holds(early@, n)
                    &&& self.duration(n) <= early@[n] <= order@.len() * 0x7fff_ffff
                },
    {
        proof {
            self.lemma_wf();
        }
        let mut early: HashMap<VId, i128> = HashMap::new();
        let mut i: usize = 0;
        while i < order.len()
            invariant
                self.wf(),
                obeys_key_model::<VId>(),
                self.schedulable(),
                self.is_topological_order(order@),
                i <= order.len(),
                forall|x: VId|
                    early@.contains_key(x) <==> exists|k: int| 0 <= k < i && #[trigger] order@[k] == x,
                forall|k: int|
                    0 <= k < i ==> {
                        &&& self.early_finish_holds(early@, #[trigger] order@[k])
                        &&& self.duration(order@[k]) <= early@[order@[k]] <= (k + 1) * 0x7fff_ffff
                    },
            decreases order.len() - i,
        {
            let node = order[i];
            let preds = self.predecessor_list(&node);
            let ghost so_far = early@;
            proof {
                self.lemma_wf();
                assert forall|k: int| 0 <= k < i implies 0 <= early@[#[trigger] order@[k]] <= i
                    * 0x7fff_ffff by {
                    assert(self.has_vertex(order@[k]));
                }
            }
            let mut best: Option<i128> = None;
            let mut j: usize = 0;
            while j < preds.len()
                invariant
                    self.wf(),
                    obeys_key_model::<VId>(),
                    self.schedulable(),
                    self.is_topological_order(order@),
                    i < order.len(),
                    node == order@[i as int],
                    j <= preds.len(),
                    preds@.to_set() == self.predecessors(node),
                    early@ == so_far,
                    forall|x: VId|
                        early@.contains_key(x) <==> exists|k: int|
                            0 <= k < i && #[trigger] order@[k] == x,
                    forall|k: int|
                        0 <= k < i ==> 0 <= early@[#[trigger] order@[k]] <= i * 0x7fff_ffff,
                    j == 0 ==> best is None,
                    j > 0 ==> best is Some,
                    forall|m: int| 0 <= m < j ==> early@[#[trigger] preds@[m]] <= best->0,
                    j > 0 ==> exists|m: int| 0 <= m < j && early@[#[trigger] preds@[m]] == best->0,
                    best is Some ==> 0 <= best->0 <= i * 0x7fff_ffff,
                decreases preds.len() - j,
            {
                let p = preds[j];
                proof {
                    self.lemma_wf();
                    assert(preds@.to_set().contains(preds@[j as int]));
                    let at = self.lemma_edge_in_order(order@, p, node);
                }
                let finish = match early.get(&p) {
                    Some(v) => *v,
                    None => 0,
                };
                best = match best {
                    Some(b) => if finish > b {
                        Some(finish)
                    } else {
                        Some(b)
                    },
                    None => Some(finish),
                };
                j += 1;
            }
            let start: i128 = match best {
                Some(b) => b,
                None => 0,
            };
            let length: i128 = match self.vertex(&node) {
                Some(task) => task.duration as i128,
                None => 0,
            };
            early.insert(node, start + length);
            proof {
                assert(!so_far.contains_key(node)) by {
                    if so_far.contains_key(node) {
                        let k = choose|k: int| 0 <= k < i && #[trigger] order@[k] == node;
                        assert(order@[k] == order@[i as int]);
                    }
                }
                assert forall|x: VId| early@.contains_key(x) implies exists|k: int|
                    0 <= k < i + 1 && #[trigger] order@[k] == x by {
                    if x != node {
                        let k = choose|k: int| 0 <= k < i && #[trigger] order@[k] == x;
                        assert(order@[k] == x);
                    }
                }
                assert forall|k: int| 0 <= k < i + 1 implies {
                    &&& self.early_finish_holds(early@, #[trigger] order@[k])
                    &&& self.duration(order@[k]) <= early@[order@[k]] <= (k + 1) * 0x7fff_ffff
                } by {
                    let n = order@[k];
                    assert forall|p: VId| #[trigger] self.has_edge(p, n) implies early@[p] == so_far[p]
                        && so_far.contains_key(p) by {
                        self.lemma_edge_in_order(order@, p, n);
                    }
                    if k < i {
                        if !self.is_source(n) {
                            let p = choose|p: VId| #[trigger]
                                self.has_edge(p, n) && so_far[p] == so_far[n] - self.duration(n);
                            assert(self.has_edge(p, n) && early@[p] == early@[n] - self.duration(n));
                        }
                    } else {
                        assert forall|p: VId| #[trigger] self.has_edge(p, n) implies early@[p]
                            <= start by {
                            assert(preds@.to_set().contains(p));
                            let m = choose|m: int| 0 <= m < preds@.len() && preds@[m] == p;
                            assert(so_far[preds@[m]] <= best->0);
                        }
                        if self.is_source(n) {
                            if preds@.len() > 0 {
                                assert(preds@.to_set().contains(preds@[0]));
                            }
                        } else {
                            let p = choose|p: VId| self.has_edge(p, n);
                            assert(preds@.to_set().contains(p));
                            let m = choose|m: int|
                                0 <= m < preds@.len() && so_far[#[trigger] preds@[m]] == best->0;
                            assert(preds@.to_set().contains(preds@[m]));
                            assert(self.has_edge(preds@[m], n));
                        }
                    }
                }
            }
            i += 1;
        }
        proof {
            assert forall|x: VId| early@.contains_key(x) <==> self.vertex_map().dom().contains(x) by {
                if self.vertex_map().dom().contains(x) {
                    let k = choose|k: int| 0 <= k < order@.len() && order@[k] == x;
                    assert(order@[k] == x);
                }
                if early@.contains_key(x) {
                    let k = choose|k: int| 0 <= k < i && #[trigger] order@[k] == x;
                    assert(order@.to_set().contains(order@[k]));
                }
            }
            assert(early@.dom() =~= self.vertex_map().dom());
            assert forall|n: VId| #[trigger] self.has_vertex(n) implies {
                &&& self.early_finish_holds(early@, n)
                &&& self.duration(n) <= early@[n] <= order@.len() * 0x7fff_ffff
            } by {
                let k = choose|k: int| 0 <= k < order@.len() && order@[k] == n;
                assert(self.early_finish_holds(early@, order@[k]));
            }
        }
        early
    }

    /// The greatest early finish over all vertices.
    fn latest_finish(&self, order: &Vec<VId>, early: &HashMap<VId, i128>) -> (finish: i128)
        requires
            self.wf(),
            order@.to_set() == self.vertex_map().dom(),
            early@.dom() == self.vertex_map().dom(),
            forall|n: VId| #[trigger] self.has_vertex(n) ==> 0 <= early@[n] <= order@.len() * 0x7fff_ffff,
        ensures
            self.latest_of(early@, finish as int),
            0 <= finish <= order@.len() * 0x7fff_ffff,
    {
        proof {
            self.lemma_wf();
        }
        let mut finish: i128 = 0;
        let mut i: usize = 0;
        while i < order.len()
            invariant
                obeys_key_model::<VId>(),
                i <= order.len(),
                order@.to_set() == self.vertex_map().dom(),
                early@.dom() == self.vertex_map().dom(),
                forall|n: VId| #[trigger]
                    self.has_vertex(n) ==> 0 <= early@[n] <= order@.len() * 0x7fff_ffff,
                0 <= finish <= order@.len() * 0x7fff_ffff,
                forall|k: int| 0 <= k < i ==> early@[#[trigger] order@[k]] <= finish,
                i == 0 ==> finish == 0,
                i > 0 ==> exists|k: int| 0 <= k < i && early@[#[trigger] order@[k]] == finish,
            decreases order.len() - i,
        {
            let node = order[i];
            proof {
                assert(self.has_vertex(node));
            }
            let value = match early.get(&node) {
                Some(v) => *v,
                None => 0,
            };
            if i == 0 || value > finish {
                finish = value;
            }
            i += 1;
        }
        proof {
            assert forall|n: VId| #[trigger] self.has_vertex(n) implies early@[n] <= finish by {
                let k = choose|k: int| 0 <= k < order@.len() && order@[k] == n;
                assert(early@[order@[k]] <= finish);
            }
            if self.vertex_map().dom().is_empty() {
                if i > 0 {
                    assert(order@.to_set().contains(order@[0]));
                }
            } else {
                let n = choose|n: VId| self.vertex_map().dom().contains(n);
                assert(order@.to_set().contains(n));
                let k = choose|k: int| 0 <= k < i && early@[#[trigger] order@[k]] == finish;
                assert(order@.to_set().contains(order@[k]));
                assert(self.has_vertex(order@[k]));
            }
        }
        finish
    }

    /// The late start of each vertex, taken against the topological order
    /// so that each vertex is computed once, after its successors.
    fn late_starts(&self, order: &Vec<VId>, finish: i128) -> (late: HashMap<VId, i128>)
        requires
            self.wf(),
            self.schedulable(),
            self.is_topological_order(order@),
            0 <= finish <= order@.len() * 0x7fff_ffff,
        ensures
            late@.dom() == self.vertex_map().dom(),
            forall|n: VId| #[trigger]
                self.has_vertex(n) ==> {
                    &&& self.late_start_holds(late@, finish as int, n)
                    &&& finish - order@.len() * 0x7fff_ffff <= late@[n] <= finish
                },
    {
        proof {
            self.lemma_wf();
        }
        let ghost len = order@.len() as int;
        let mut late: HashMap<VId, i128> = HashMap::new();
        let mut i: usize = order.len();
        while i > 0
            invariant
                self.wf(),
                obeys_key_model::<VId>(),
                self.schedulable(),
                self.is_topological_order(order@),
                len == order@.len(),
                0 <= finish <= len * 0x7fff_ffff,
                i <= order.len(),
                forall|x: VId|
                    late@.contains_key(x) <==> exists|k: int| i <= k < len && #[trigger] order@[k] == x,
                forall|k: int|
                    i <= k < len ==> {
                        &&& self.late_start_holds(late@, finish as int, #[trigger] order@[k])
                        &&& finish - (len - k) * 0x7fff_ffff <= late@[order@[k]] <= finish
                    },
            decreases i,
        {
            i -= 1;
            let node = order[i];
            let succs = self.successor_list(&node);
            let ghost so_far = late@;
            proof {
                self.lemma_wf();
            }
            let mut best: Option<i128> = None;
            let mut j: usize = 0;
            while j < succs.len()
                invariant
                    self.wf(),
                    obeys_key_model::<VId>(),
                    self.schedulable(),
                    self.is_topological_order(order@),
                    len == order@.len(),
                    i < order.len(),
                    node == order@[i as int],
                    j <= succs.len(),
                    succs@.to_set() == self.successors(node),
                    late@ == so_far,
                    forall|x: VId|
                        late@.contains_key(x) <==> exists|k: int|
                            i < k < len && #[trigger] order@[k] == x,
                    forall|k: int|
                        i < k < len ==> finish - (len - 1 - i) * 0x7fff_ffff <= late@[#[trigger] order@[k]]
                            <= finish,
                    j == 0 ==> best is None,
                    j > 0 ==> best is Some,
                    forall|m: int| 0 <= m < j ==> best->0 <= late@[#[trigger] succs@[m]],
                    j > 0 ==> exists|m: int| 0 <= m < j && late@[#[trigger] succs@[m]] == best->0,
                    best is Some ==> finish - (len - 1 - i) * 0x7fff_ffff <= best->0 <= finish,
                decreases succs.len() - j,
            {
                let next = succs[j];
                proof {
                    self.lemma_wf();
                    let at = self.lemma_edge_in_order(order@, node, next);
                }
                let start = match late.get(&next) {
                    Some(v) => *v,
                    None => 0,
                };
                best = match best {
                    Some(b) => if start < b {
                        Some(start)
                    } else {
                        Some(b)
                    },
                    None => Some(start),
                };
                j += 1;
            }
            let end: i128 = match best {
                Some(b) => b,
                None => finish,
            };
            let length: i128 = match self.vertex(&node) {
                Some(task) => task.duration as i128,
                None => 0,
            };
            late.insert(node, end - length);
            proof {
                assert(!so_far.contains_key(node)) by {
                    if so_far.contains_key(node) {
                        let k = choose|k: int| i < k < len && #[trigger] order@[k] == node;
                        assert(order@[k] == order@[i as int]);
                    }
                }
                assert forall|x: VId| late@.contains_key(x) implies exists|k: int|
                    i <= k < len && #[trigger] order@[k] == x by {
                    if x != node {
                        let k = choose|k: int| i < k < len && #[trigger] order@[k] == x;
                        assert(order@[k] == x);
                    }
                }
                assert forall|k: int| i <= k < len implies {
                    &&& self.late_start_holds(late@, finish as int, #[trigger] order@[k])
                    &&& finish - (len - k) * 0x7fff_ffff <= late@[order@[k]] <= finish
                } by {
                    let n = order@[k];
                    assert forall|s: VId| #[trigger] self.has_edge(n, s) implies late@[s] == so_far[s]
                        && so_far.contains_key(s) by {
                        self.lemma_edge_in_order(order@, n, s);
                    }
                    if k > i {
                        if !self.is_sink(n) {
                            let s = choose|s: VId| #[trigger]
                                self.has_edge(n, s) && so_far[s] == so_far[n] + self.duration(n);
                            assert(self.has_edge(n, s) && late@[s] == late@[n] + self.duration(n));
                        }
                    } else {
                        assert forall|s: VId| #[trigger] self.has_edge(n, s) implies end
                            <= late@[s] by {
                            let m = choose|m: int| 0 <= m < succs@.len() && succs@[m] == s;
                            assert(best->0 <= so_far[succs@[m]]);
                        }
                        if self.is_sink(n) {
                            if succs@.len() > 0 {
                                assert(self.has_edge(n, succs@[0]));
                            }
                        } else {
                            let s = choose|s: VId| self.has_edge(n, s);
                            assert(succs@.to_set().contains(s));
                            let m = choose|m: int|
                                0 <= m < succs@.len() && so_far[#[trigger] succs@[m]] == best->0;
                            assert(succs@.to_set().contains(succs@[m]));
                            assert(self.has_edge(n, succs@[m]));
                        }
                    }
                }
            }
        }
        proof {
            assert forall|x: VId| late@.contains_key(x) <==> self.vertex_map().dom().contains(x) by {
                if self.vertex_map().dom().contains(x) {
                    let k = choose|k: int| 0 <= k < order@.len() && order@[k] == x;
                    assert(order@[k] == x);
                }
                if late@.contains_key(x) {
                    let k = choose|k: int| 0 <= k < len && #[trigger] order@[k] == x;
                    assert(order@.to_set().contains(order@[k]));
                }
            }
            assert(late@.dom() =~= self.vertex_map().dom());
            assert forall|n: VId| #[trigger] self.has_vertex(n) implies {
                &&& self.late_start_holds(late@, finish as int, n)
                &&& finish - order@.len() * 0x7fff_ffff <= late@[n] <= finish
            } by {
                let k = choose|k: int| 0 <= k < order@.len() && order@[k] == n;
                assert(self.late_start_holds(late@, finish as int, order@[k]));
            }
        }
        late
    }

    /// The five times of each vertex.
    fn tabulate(
        &self,
        order: &Vec<VId>,
        early: &HashMap<VId, i128>,
        late: &HashMap<VId, i128>,
    ) -> (times: HashMap<VId, Times>)
        requires
            self.wf(),
            order@.no_duplicates(),
            order@.to_set() == self.vertex_map().dom(),
            early@.dom() == self.vertex_map().dom(),
            late@.dom() == self.vertex_map().dom(),
            forall|n: VId| #[trigger]
                self.has_vertex(n) ==> {
                    &&& 0 <= early@[n] - self.duration(n)
                    &&& early@[n] <= order@.len() * 0x7fff_ffff
                    &&& -order@.len() * 0x7fff_ffff <= late@[n] <= order@.len() * 0x7fff_ffff
                },
        ensures
            times@.dom() == self.vertex_map().dom(),
            forall|n: VId| #[trigger]
                self.has_vertex(n) ==> self.times_from(times@[n], early@, late@, n),
    {
        proof {
            self.lemma_wf();
        }
        let mut times: HashMap<VId, Times> = HashMap::new();
        let mut i: usize = 0;
        while i < order.len()
            invariant
                self.wf(),
                obeys_key_model::<VId>(),
                i <= order.len(),
                order@.no_duplicates(),
                order@.to_set() == self.vertex_map().dom(),
                early@.dom() == self.vertex_map().dom(),
                late@.dom() == self.vertex_map().dom(),
                forall|n: VId| #[trigger]
                    self.has_vertex(n) ==> {
                        &&& 0 <= early@[n] - self.duration(n)
                        &&& early@[n] <= order@.len() * 0x7fff_ffff
                        &&& -order@.len() * 0x7fff_ffff <= late@[n] <= order@.len() * 0x7fff_ffff
                    },
                forall|x: VId|
                    times@.contains_key(x) <==> exists|k: int| 0 <= k < i && #[trigger] order@[k] == x,
                forall|k: int|
                    0 <= k < i ==> self.times_from(
                        times@[#[trigger] order@[k]],
                        early@,
                        late@,
                        order@[k],
                    ),
            decreases order.len() - i,
        {
            let node = order[i];
            proof {
                assert(order@.to_set().contains(order@[i as int]));
            }
            let length: i128 = match self.vertex(&node) {
                Some(task) => task.duration as i128,
                None => 0,
            };
            let early_finish: i128 = match early.get(&node) {
                Some(v) => *v,
                None => 0,
            };
            let late_start: i128 = match late.get(&node) {
                Some(v) => *v,
                None => 0,
            };
            let early_start = early_finish - length;
            times.insert(
                node,
                Times {
                    early_start,
                    early_finish,
                    late_start,
                    late_finish: late_start + length,
                    slack: late_start - early_start,
                },
            );
            proof {
                assert forall|x: VId| times@.contains_key(x) implies exists|k: int|
                    0 <= k < i + 1 && #[trigger] order@[k] == x by {
                    if x != node {
                        let k = choose|k: int| 0 <= k < i && #[trigger] order@[k] == x;
                        assert(order@[k] == x);
                    }
                }
                assert forall|k: int| 0 <= k < i + 1 implies self.times_from(
                    times@[#[trigger] order@[k]],
                    early@,
                    late@,
                    order@[k],
                ) by {
                    if k < i {
                        assert(order@[k] != order@[i as int]);
                    }
                }
            }
            i += 1;
        }
        proof {
            assert forall|x: VId| times@.contains_key(x) <==> self.vertex_map().dom().contains(x) by {
                if self.vertex_map().dom().contains(x) {
                    let k = choose|k: int| 0 <= k < order@.len() && order@[k] == x;
                    assert(order@[k] == x);
                }
                if times@.contains_key(x) {
                    let k = choose|k: int| 0 <= k < i && #[trigger] order@[k] == x;
                    assert(order@.to_set().contains(order@[k]));
                }
            }
            assert(times@.dom() =~= self.vertex_map().dom());
            assert forall|n: VId| #[trigger] self.has_vertex(n) implies self.times_from(
                times@[n],
                early@,
                late@,
                n,
            ) by {
                let k = choose|k: int| 0 <= k < order@.len() && order@[k] == n;
                assert(self.times_from(times@[order@[k]], early@, late@, order@[k]));
            }
        }
        times
    }

    /// The edges whose two ends both have no slack.
    fn critical_edges(&self, order: &Vec<VId>, times: &HashMap<VId, Times>) -> (out: Vec<(VId, VId)>)
        requires
            self.wf(),
            !self.has_dangling(),
            order@.no_duplicates(),
            order@.to_set() == self.vertex_map().dom(),
            times@.dom() == self.vertex_map().dom(),
        ensures
            out@.no_duplicates(),
            forall|a: VId, b: VId|
                #![trigger out@.contains((a, b))]
                #![trigger self.is_critical_edge(times@, a, b)]
                out@.contains((a, b)) <==> self.is_critical_edge(times@, a, b),
    {
        proof {
            self.lemma_wf();
        }
        let mut out: Vec<(VId, VId)> = Vec::new();
        let mut i: usize = 0;
        while i < order.len()
            invariant
                self.wf(),
                obeys_key_model::<VId>(),
                !self.has_dangling(),
                i <= order.len(),
                order@.no_duplicates(),
                order@.to_set() == self.vertex_map().dom(),
                times@.dom() == self.vertex_map().dom(),
                out@.no_duplicates(),
                forall|a: VId, b: VId|
                    #![trigger out@.contains((a, b))]
                    #![trigger self.is_critical_edge(times@, a, b)]
                    out@.contains((a, b)) <==> self.is_critical_edge(times@, a, b) && order@.take(
                        i as int,
                    ).contains(a),
            decreases order.len() - i,
        {
            let from = order[i];
            let ghost earlier = order@.take(i as int);
            proof {
                assert(order@.take(i + 1) == earlier.push(from));
                assert(!earlier.contains(from)) by {
                    if earlier.contains(from) {
                        let k = choose|k: int| 0 <= k < earlier.len() && earlier[k] == from;
                        assert(order@[k] == order@[i as int]);
                    }
                }
            }
            let tight = match times.get(&from) {
                Some(t) => t.slack == 0,
                None => false,
            };
            if tight {
                let succs = self.successor_list(&from);
                let mut j: usize = 0;
                while j < succs.len()
                    invariant
                        self.wf(),
                        obeys_key_model::<VId>(),
                        !self.has_dangling(),
                        j <= succs.len(),
                        succs@.no_duplicates(),
                        succs@.to_set() == self.successors(from),
                        times@.dom() == self.vertex_map().dom(),
                        times@[from].slack == 0,
                        !earlier.contains(from),
                        out@.no_duplicates(),
                        forall|a: VId, b: VId|
                            #![trigger out@.contains((a, b))]
                            #![trigger self.is_critical_edge(times@, a, b)]
                            out@.contains((a, b)) <==> self.is_critical_edge(times@, a, b) && (
                            earlier.contains(a) || (a == from && succs@.take(j as int).contains(b))),
                    decreases succs.len() - j,
                {
                    let to = succs[j];
                    let ghost tried = succs@.take(j as int);
                    proof {
                        self.lemma_wf();
                        assert(!self.dangling(to));
                        assert(succs@.take(j + 1) == tried.push(to));
                        assert(!tried.contains(to)) by {
                            if tried.contains(to) {
                                let k = choose|k: int| 0 <= k < tried.len() && tried[k] == to;
                                assert(succs@[k] == succs@[j as int]);
                            }
                        }
                    }
                    let also_tight = match times.get(&to) {
                        Some(t) => t.slack == 0,
                        None => false,
                    };
                    if also_tight {
                        proof {
                            assert(!out@.contains((from, to)));
                        }
                        out.push((from, to));
                    }
                    j += 1;
                }
                proof {
                    assert(succs@.take(j as int) == succs@);
                    assert forall|a: VId, b: VId|
                        #![trigger out@.contains((a, b))]
                        #![trigger self.is_critical_edge(times@, a, b)]
                        out@.contains((a, b)) <==> self.is_critical_edge(times@, a, b)
                            && earlier.push(from).contains(a) by {
                        if self.is_critical_edge(times@, a, b) && a == from {
                            assert(succs@.to_set().contains(b));
                        }
                    }
                }
            }
            i += 1;
        }
        proof {
            assert(order@.take(i as int) == order@);
            assert forall|a: VId, b: VId|
                #![trigger out@.contains((a, b))]
                #![trigger self.is_critical_edge(times@, a, b)]
                out@.contains((a, b)) <==> self.is_critical_edge(times@, a, b) by {
                if self.is_critical_edge(times@, a, b) {
                    assert(!self.dangling(a));
                }
            }
        }
        out
    }

    /// Validates the graph, then derives the times of every task and the
    /// critical edges. A graph with a fault yields the fault and nothing
    /// else. The faults are looked for in this order: an edge that names
    /// an identifier without a vertex record, a directed cycle, a negative
    /// duration.
    pub fn compute_schedule(&self) -> (res: Result<Schedule<VId>, CpmError<VId>>)
        requires
            self.wf(),
        ensures
            res is Ok <==> self.schedulable(),
            self.has_dangling() <==> res matches Err(CpmError::UnknownNodeReference(_)),
            !self.has_dangling() && self.has_cycle() <==> res matches Err(
                CpmError::CyclicDependency(_),
            ),
            !self.has_dangling() && !self.has_cycle() && self.has_negative_duration() <==> res matches Err(
                CpmError::InvalidDuration(_),
            ),
            match res {
                Ok(s) => self.is_schedule(s),
                Err(CpmError::UnknownNodeReference(id)) => self.dangling(id),
                Err(CpmError::CyclicDependency(id)) => self.on_cycle(id),
                Err(CpmError::InvalidDuration(id)) => self.has_vertex(id) && self.duration(id) < 0,
            },
    {
        let order = match self.validate() {
            Ok(order) => order,
            Err(fault) => {
                return Err(fault);
            },
        };
        let early = self.early_finishes(&order);
        let project_finish = self.latest_finish(&order, &early);
        let late = self.late_starts(&order, project_finish);
        let times = self.tabulate(&order, &early, &late);
        let critical_edges = self.critical_edges(&order, &times);
        let schedule = Schedule { order, times, project_finish, critical_edges };
        proof {
            self.lemma_wf();
            let t = times@;
            assert forall|n: VId| #[trigger] self.has_vertex(n) implies self.times_hold(
                t,
                project_finish as int,
                n,
            ) by {
                assert forall|p: VId| #[trigger] self.has_edge(p, n) implies t[p].early_finish
                    == early@[p] by {
                    assert(!self.dangling(p));
                }
                assert forall|x: VId| #[trigger] self.has_edge(n, x) implies t[x].late_start
                    == late@[x] by {
                    assert(!self.dangling(x));
                }
                if !self.is_source(n) {
                    let p = choose|p: VId| #[trigger]
                        self.has_edge(p, n) && early@[p] == early@[n] - self.duration(n);
                    assert(self.has_edge(p, n) && t[p].early_finish == t[n].early_start);
                }
                if !self.is_sink(n) {
                    let x = choose|x: VId| #[trigger]
                        self.has_edge(n, x) && late@[x] == late@[n] + self.duration(n);
                    assert(self.has_edge(n, x) && t[x].late_start == t[n].late_finish);
                }
            }
            assert(self.finish_holds(t, project_finish as int)) by {
                assert forall|n: VId| #[trigger] self.has_vertex(n) implies t[n].early_finish
                    == early@[n] by {
                    assert(self.times_from(t[n], early@, late@, n));
                }
                if !self.vertex_map().dom().is_empty() {
                    let n = choose|n: VId| #[trigger]
                        self.has_vertex(n) && early@[n] == project_finish as int;
                    assert(self.has_vertex(n) && t[n].early_finish == project_finish as int);
                }
            }
        }
        Ok(schedule)
    }
}

} // verus!
