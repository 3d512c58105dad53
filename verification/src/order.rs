//! Directed paths and cycles, and the depth-first walk that either finds
//! a cycle or lists the nodes so that every edge points backwards.

use std::collections::HashSet;
use std::hash::Hash;
use vstd::prelude::*;
use vstd::std_specs::hash::obeys_key_model;
use crate::graph::Graph;

verus! {

broadcast use {
    vstd::std_specs::hash::group_hash_axioms,
    vstd::seq_lib::lemma_seq_contains_after_push,
    vstd::seq_lib::seq_to_set_is_finite,
};

impl<VId, V> Graph<VId, V> {
    /// `p` is a non-empty walk along edges.
    pub open spec fn is_path(&self, p: Seq<VId>) -> bool {
        &&& p.len() >= 1
        &&& forall|i: int| 0 <= i < p.len() - 1 ==> self.has_edge(#[trigger] p[i], p[i + 1])
    }

    /// `p` leaves `id` along an edge and comes back to it.
    pub open spec fn is_cycle_through(&self, p: Seq<VId>, id: VId) -> bool {
        &&& self.is_path(p)
        &&& p.len() >= 2
        &&& p[0] == id
        &&& p.last() == id
    }

    /// `id` lies on a directed cycle.
    pub open spec fn on_cycle(&self, id: VId) -> bool {
        exists|p: Seq<VId>| self.is_cycle_through(p, id)
    }

    /// The graph has a directed cycle.
    pub open spec fn has_cycle(&self) -> bool {
        exists|id: VId| self.on_cycle(id)
    }

    /// `order` lists each node once, and after all of its successors.
    pub open spec fn is_finish_order(&self, order: Seq<VId>) -> bool {
        &&& order.no_duplicates()
        &&& forall|i: int, b: VId|
            0 <= i < order.len() && #[trigger] self.has_edge(order[i], b) ==> exists|j: int|
                0 <= j < i && #[trigger] order[j] == b
    }

    /// Along a path that starts inside a finish order, each step moves to
    /// an earlier position.
    pub proof fn lemma_path_descends(&self, order: Seq<VId>, p: Seq<VId>, k: int, m: int) -> (j:
        int)
        requires
            self.is_finish_order(order),
            self.is_path(p),
            0 <= k < order.len(),
            order[k] == p[0],
            0 <= m < p.len(),
        ensures
            0 <= j <= k - m,
            order[j] == p[m],
        decreases m,
    {
        if m == 0 {
            k
        } else {
            let prev = self.lemma_path_descends(order, p, k, m - 1);
            choose|j: int| 0 <= j < prev && #[trigger] order[j] == p[m]
        }
    }

    /// A graph whose nodes with an outgoing edge all stand in a finish
    /// order has no directed cycle.
    pub proof fn lemma_finish_order_excludes_cycle(&self, order: Seq<VId>)
        requires
            self.is_finish_order(order),
            forall|a: VId| !(#[trigger] self.successors(a)).is_empty() ==> order.contains(a),
        ensures
            !self.has_cycle(),
    {
        if self.has_cycle() {
            let id = choose|id: VId| self.on_cycle(id);
            let p = choose|p: Seq<VId>| self.is_cycle_through(p, id);
            assert(self.has_edge(p[0], p[0int + 1]));
            assert(!self.successors(id).is_empty());
            let k = choose|k: int| 0 <= k < order.len() && order[k] == id;
            let j = self.lemma_path_descends(order, p, k, p.len() - 1);
            assert(order[j] == order[k]);
        }
    }
}

impl<VId: Copy + Eq + Hash, V> Graph<VId, V> {
    /// Walks depth-first from `node`, which is neither finished nor on the
    /// current trail. Returns a node on a cycle, or `None` once `node` and
    /// all it reaches are appended to `order`.
    fn visit(
        &self,
        node: VId,
        active: &mut HashSet<VId>,
        done: &mut HashSet<VId>,
        order: &mut Vec<VId>,
        Ghost(trail): Ghost<Seq<VId>>,
    ) -> (found: Option<VId>)
        requires
            self.wf(),
            self.nodes().contains(node),
            !old(active)@.contains(node),
            !old(done)@.contains(node),
            old(active)@ == trail.to_set(),
            self.is_path(trail.push(node)),
            old(done)@ == old(order)@.to_set(),
            old(done)@.subset_of(self.nodes()),
            old(active)@.subset_of(self.nodes()),
            old(active)@.disjoint(old(done)@),
            self.is_finish_order(old(order)@),
        ensures
            match found {
                Some(id) => self.on_cycle(id),
                None => {
                    &&& final(active)@ == old(active)@
                    &&& final(done)@ == final(order)@.to_set()
                    &&& final(done)@.subset_of(self.nodes())
                    &&& final(active)@.disjoint(final(done)@)
                    &&& self.is_finish_order(final(order)@)
                    &&& old(order)@.is_prefix_of(final(order)@)
                    &&& final(done)@.contains(node)
                },
            },
        decreases self.nodes().difference(old(active)@.union(old(done)@)).len(),
    {
        proof {
            self.lemma_wf();
        }
        let ghost active0 = active@;
        let ghost done0 = done@;
        let ghost order0 = order@;
        let ghost here = trail.push(node);
        active.insert(node);
        proof {
            assert(active@ =~= here.to_set()) by {
                trail.lemma_push_to_set_commute(node);
            }
        }
        let succs = self.successor_list(&node);
        let mut i: usize = 0;
        while i < succs.len()
            invariant
                self.wf(),
                obeys_key_model::<VId>(),
                self.nodes().finite(),
                i <= succs.len(),
                succs@.to_set() == self.successors(node),
                self.nodes().contains(node),
                active0 == trail.to_set(),
                here == trail.push(node),
                self.is_path(here),
                !active0.contains(node),
                !done0.contains(node),
                active0 == old(active)@,
                done0 == old(done)@,
                order0 == old(order)@,
                active@ == active0.insert(node),
                active@ == here.to_set(),
                done@ == order@.to_set(),
                done0.subset_of(done@),
                done@.subset_of(self.nodes()),
                active0.subset_of(self.nodes()),
                active@.disjoint(done@),
                self.is_finish_order(order@),
                order0.is_prefix_of(order@),
                forall|k: int| 0 <= k < i ==> done@.contains(#[trigger] succs@[k]),
            decreases succs.len() - i,
        {
            let next = succs[i];
            proof {
                self.lemma_wf();
                assert(self.has_edge(node, next));
            }
            if active.contains(&next) {
                proof {
                    let at = choose|at: int| 0 <= at < here.len() && here[at] == next;
                    let cycle = here.subrange(at, here.len() as int).push(next);
                    assert(self.is_path(cycle)) by {
                        assert forall|x: int| 0 <= x < cycle.len() - 1 implies self.has_edge(
                            #[trigger] cycle[x],
                            cycle[x + 1],
                        ) by {
                            if x < cycle.len() - 2 {
                                assert(cycle[x] == here[at + x]);
                            } else {
                                assert(cycle[x] == here.last());
                            }
                        }
                    }
                    assert(self.is_cycle_through(cycle, next));
                }
                return Some(next);
            }
            if !done.contains(&next) {
                proof {
                    let before = self.nodes().difference(active0.union(done0));
                    let now = self.nodes().difference(active@.union(done@));
                    vstd::set_lib::lemma_len_subset(now, before.remove(node));
                    assert(self.is_path(here.push(next))) by {
                        assert forall|x: int| 0 <= x < here.push(next).len() - 1 implies self.has_edge(
                            #[trigger] here.push(next)[x],
                            here.push(next)[x + 1],
                        ) by {
                            if x < here.len() - 1 {
                                assert(self.has_edge(here[x], here[x + 1]));
                            }
                        }
                    }
                }
                let ghost order1 = order@;
                let inner = self.visit(next, active, done, order, Ghost(here));
                if inner.is_some() {
                    return inner;
                }
                proof {
                    assert forall|k: int| 0 <= k < i implies done@.contains(
                        #[trigger] succs@[k],
                    ) by {
                        let at = choose|at: int| 0 <= at < order1.len() && order1[at] == succs@[k];
                        assert(order@[at] == succs@[k]);
                    }
                    assert(done0.subset_of(done@)) by {
                        assert forall|x: VId| done0.contains(x) implies done@.contains(x) by {
                            let at = choose|at: int| 0 <= at < order1.len() && order1[at] == x;
                            assert(order@[at] == x);
                        }
                    }
                }
            }
            i += 1;
        }
        active.remove(&node);
        done.insert(node);
        let ghost order2 = order@;
        order.push(node);
        proof {
            order2.lemma_push_to_set_commute(node);
            assert(self.is_finish_order(order@)) by {
                assert forall|x: int, b: VId|
                    0 <= x < order@.len() && #[trigger] self.has_edge(order@[x], b) implies exists|
                    j: int,
                | 0 <= j < x && #[trigger] order@[j] == b by {
                    if x < order2.len() {
                        let j = choose|j: int| 0 <= j < x && #[trigger] order2[j] == b;
                        assert(order@[j] == b);
                    } else {
                        assert(succs@.to_set().contains(b));
                        let k = choose|k: int| 0 <= k < succs@.len() && succs@[k] == b;
                        assert(done@.contains(succs@[k]));
                        assert(order2.to_set().contains(b));
                        let j = choose|j: int| 0 <= j < order2.len() && order2[j] == b;
                        assert(order@[j] == b);
                    }
                }
            }
        }
        None
    }

    /// Walks depth-first from each of `starts` in turn. Returns the nodes
    /// reached, each after all of its successors, or a node on a cycle.
    pub(crate) fn finish_order(&self, starts: &Vec<VId>) -> (res: Result<Vec<VId>, VId>)
        requires
            self.wf(),
            forall|i: int| 0 <= i < starts@.len() ==> self.nodes().contains(#[trigger] starts@[i]),
        ensures
            match res {
                Ok(order) => {
                    &&& self.is_finish_order(order@)
                    &&& order@.to_set().subset_of(self.nodes())
                    &&& forall|i: int|
                        0 <= i < starts@.len() ==> order@.contains(#[trigger] starts@[i])
                },
                Err(id) => self.on_cycle(id),
            },
    {
        proof {
            self.lemma_wf();
        }
        let mut active: HashSet<VId> = HashSet::new();
        let mut done: HashSet<VId> = HashSet::new();
        let mut order: Vec<VId> = Vec::new();
        let mut i: usize = 0;
        while i < starts.len()
            invariant
                self.wf(),
                obeys_key_model::<VId>(),
                i <= starts.len(),
                forall|k: int|
                    0 <= k < starts@.len() ==> self.nodes().contains(#[trigger] starts@[k]),
                active@ == Set::<VId>::empty(),
                done@ == order@.to_set(),
                done@.subset_of(self.nodes()),
                self.is_finish_order(order@),
                forall|k: int| 0 <= k < i ==> order@.contains(#[trigger] starts@[k]),
            decreases starts.len() - i,
        {
            let start = starts[i];
            if !done.contains(&start) {
                let ghost order1 = order@;
                proof {
                    assert(Seq::<VId>::empty().to_set() =~= Set::<VId>::empty());
                }
                let found = self.visit(start, &mut active, &mut done, &mut order, Ghost(Seq::empty()));
                if let Some(id) = found {
                    return Err(id);
                }
                proof {
                    assert forall|k: int| 0 <= k < i implies order@.contains(
                        #[trigger] starts@[k],
                    ) by {
                        let at = choose|at: int| 0 <= at < order1.len() && order1[at] == starts@[k];
                        assert(order@[at] == starts@[k]);
                    }
                }
            }
            i += 1;
        }
        Ok(order)
    }

    /// Whether the graph is free of directed cycles.
    pub fn is_acyclic(&self) -> (acyclic: bool)
        requires
            self.wf(),
        ensures
            acyclic == !self.has_cycle(),
    {
        let sources = self.edge_sources();
        proof {
            assert forall|i: int| 0 <= i < sources@.len() implies self.nodes().contains(
                #[trigger] sources@[i],
            ) by {
                assert(sources@.contains(sources@[i]));
            }
        }
        match self.finish_order(&sources) {
            Ok(order) => {
                proof {
                    assert forall|a: VId| !(#[trigger] self.successors(a)).is_empty() implies order@.contains(
                        a,
                    ) by {
                        assert(sources@.contains(a));
                        let k = choose|k: int| 0 <= k < sources@.len() && sources@[k] == a;
                        assert(order@.contains(sources@[k]));
                    }
                    self.lemma_finish_order_excludes_cycle(order@);
                }
                true
            },
            Err(_) => false,
        }
    }
}

} // verus!
