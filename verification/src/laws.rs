//! What holds of every schedule of a graph.

use vstd::prelude::*;
use crate::cpm::Schedule;
use crate::graph::Graph;
use crate::task::Task;

verus! {

impl<VId> Graph<VId, Task> {
    /// The slack of a task is the same whether it is taken between its
    /// two starts or between its two finishes.
    pub proof fn lemma_slack_consistent(&self, s: Schedule<VId>, n: VId)
        requires
            self.is_schedule(s),
            self.has_vertex(n),
        ensures
            s.times@[n].late_start - s.times@[n].early_start == s.times@[n].late_finish
                - s.times@[n].early_finish,
            s.times@[n].slack == s.times@[n].late_finish - s.times@[n].early_finish,
    {
    }

    /// A task without predecessors starts at 0.
    pub proof fn lemma_source_starts_at_zero(&self, s: Schedule<VId>, n: VId)
        requires
            self.wf(),
            self.is_schedule(s),
            self.has_vertex(n),
            self.predecessors(n).is_empty(),
        ensures
            s.times@[n].early_start == 0,
    {
        self.lemma_wf();
        assert(self.is_source(n)) by {
            assert forall|p: VId| !#[trigger] self.has_edge(p, n) by {
                assert(!self.predecessors(n).contains(p));
            }
        }
    }

    /// A task without successors may finish as late as the project does,
    /// and the project finishes with the last of all tasks.
    pub proof fn lemma_sink_finishes_with_project(&self, s: Schedule<VId>, n: VId)
        requires
            self.is_schedule(s),
            self.has_vertex(n),
            self.successors(n).is_empty(),
        ensures
            s.times@[n].late_finish == s.project_finish,
            forall|m: VId| #[trigger] self.has_vertex(m) ==> s.times@[m].early_finish <= s.project_finish,
            exists|m: VId| #[trigger] self.has_vertex(m) && s.times@[m].early_finish == s.project_finish,
    {
    }

    /// Two schedules of one graph give each vertex at `k` in the first
    /// one's order the same early start and finish.
    proof fn lemma_early_times_agree(&self, s1: Schedule<VId>, s2: Schedule<VId>, k: int)
        requires
            self.wf(),
            self.is_schedule(s1),
            self.is_schedule(s2),
            0 <= k < s1.order@.len(),
        ensures
            s1.times@[s1.order@[k]].early_start == s2.times@[s1.order@[k]].early_start,
            s1.times@[s1.order@[k]].early_finish == s2.times@[s1.order@[k]].early_finish,
        decreases k,
    {
        let n = s1.order@[k];
        let t1 = s1.times@;
        let t2 = s2.times@;
        assert(self.has_vertex(n));
        assert forall|p: VId| #[trigger] self.has_edge(p, n) implies t1[p].early_finish
            == t2[p].early_finish by {
            let at = self.lemma_edge_in_order(s1.order@, p, n);
            self.lemma_early_times_agree(s1, s2, at.0);
        }
        if !self.is_source(n) {
            let p1 = choose|p: VId| #[trigger]
                self.has_edge(p, n) && t1[p].early_finish == t1[n].early_start;
            let p2 = choose|p: VId| #[trigger]
                self.has_edge(p, n) && t2[p].early_finish == t2[n].early_start;
            assert(t2[p1].early_finish <= t2[n].early_start);
            assert(t1[p2].early_finish <= t1[n].early_start);
        }
    }

    /// Two schedules of one graph give each vertex at `k` in the first
    /// one's order the same late start and finish, once they agree on the
    /// project's finish.
    proof fn lemma_late_times_agree(&self, s1: Schedule<VId>, s2: Schedule<VId>, k: int)
        requires
            self.wf(),
            self.is_schedule(s1),
            self.is_schedule(s2),
            s1.project_finish == s2.project_finish,
            0 <= k < s1.order@.len(),
        ensures
            s1.times@[s1.order@[k]].late_start == s2.times@[s1.order@[k]].late_start,
            s1.times@[s1.order@[k]].late_finish == s2.times@[s1.order@[k]].late_finish,
        decreases s1.order@.len() - k,
    {
        let n = s1.order@[k];
        let t1 = s1.times@;
        let t2 = s2.times@;
        assert(self.has_vertex(n));
        assert forall|x: VId| #[trigger] self.has_edge(n, x) implies t1[x].late_start
            == t2[x].late_start by {
            let at = self.lemma_edge_in_order(s1.order@, n, x);
            self.lemma_late_times_agree(s1, s2, at.1);
        }
        if !self.is_sink(n) {
            let x1 = choose|x: VId| #[trigger]
                self.has_edge(n, x) && t1[x].late_start == t1[n].late_finish;
            let x2 = choose|x: VId| #[trigger]
                self.has_edge(n, x) && t2[x].late_start == t2[n].late_finish;
            assert(t2[n].late_finish <= t2[x1].late_start);
            assert(t1[n].late_finish <= t1[x2].late_start);
        }
    }

    /// A graph has one schedule: two runs on the same graph give every
    /// task the same times, the same project finish and the same critical
    /// edges. Only the order in which the vertices are listed may differ.
    pub proof fn lemma_schedule_unique(&self, s1: Schedule<VId>, s2: Schedule<VId>)
        requires
            self.wf(),
            self.is_schedule(s1),
            self.is_schedule(s2),
        ensures
            s1.times@ == s2.times@,
            s1.project_finish == s2.project_finish,
            s1.critical_edges@.to_set() == s2.critical_edges@.to_set(),
    {
        let t1 = s1.times@;
        let t2 = s2.times@;
        assert forall|n: VId| #[trigger] self.has_vertex(n) implies t1[n].early_finish
            == t2[n].early_finish && t1[n].early_start == t2[n].early_start by {
            let k = choose|k: int| 0 <= k < s1.order@.len() && s1.order@[k] == n;
            self.lemma_early_times_agree(s1, s2, k);
        }
        assert(s1.project_finish == s2.project_finish) by {
            if !self.vertex_map().dom().is_empty() {
                let n1 = choose|n: VId| #[trigger]
                    self.has_vertex(n) && t1[n].early_finish == s1.project_finish as int;
                let n2 = choose|n: VId| #[trigger]
                    self.has_vertex(n) && t2[n].early_finish == s2.project_finish as int;
                assert(t2[n1].early_finish <= s2.project_finish);
                assert(t1[n2].early_finish <= s1.project_finish);
            }
        }
        assert forall|n: VId| t1.contains_key(n) implies t1[n] == t2[n] by {
            assert(self.has_vertex(n));
            let k = choose|k: int| 0 <= k < s1.order@.len() && s1.order@[k] == n;
            self.lemma_late_times_agree(s1, s2, k);
        }
        assert(t1 =~= t2);
        assert forall|e: (VId, VId)|
            s1.critical_edges@.to_set().contains(e) <==> s2.critical_edges@.to_set().contains(e) by {
            assert(s1.critical_edges@.contains((e.0, e.1)) <==> self.is_critical_edge(t1, e.0, e.1));
        }
    }
}

} // verus!
