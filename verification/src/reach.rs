//! Reachability with edge direction ignored.

use std::collections::HashSet;
use std::hash::Hash;
use vstd::prelude::*;
use vstd::std_specs::hash::obeys_key_model;
use crate::graph::Graph;

verus! {

broadcast use {
    vstd::std_specs::hash::group_hash_axioms,
    vstd::seq_lib::lemma_seq_contains_after_push,
};

impl<VId, V> Graph<VId, V> {
    /// An edge joins `a` and `b`, in either direction.
    pub open spec fn linked(&self, a: VId, b: VId) -> bool {
        self.has_edge(a, b) || self.has_edge(b, a)
    }

    /// `p` is a non-empty walk along edges taken in either direction.
    pub open spec fn is_walk(&self, p: Seq<VId>) -> bool {
        &&& p.len() >= 1
        &&& forall|i: int| 0 <= i < p.len() - 1 ==> self.linked(#[trigger] p[i], p[i + 1])
    }

    /// `p` is a walk from `from` to `to` that touches nothing in `avoid`.
    pub open spec fn is_walk_avoiding(&self, p: Seq<VId>, from: VId, to: VId, avoid: Set<VId>) -> bool {
        &&& self.is_walk(p)
        &&& p[0] == from
        &&& p.last() == to
        &&& forall|i: int| 0 <= i < p.len() ==> !avoid.contains(#[trigger] p[i])
    }

    /// Some walk leads from `from` to `to` and touches nothing in `avoid`.
    pub open spec fn reaches_avoiding(&self, from: VId, to: VId, avoid: Set<VId>) -> bool {
        exists|p: Seq<VId>| self.is_walk_avoiding(p, from, to, avoid)
    }

    /// Some walk leads from `a` to `b`.
    pub open spec fn connected(&self, a: VId, b: VId) -> bool {
        self.reaches_avoiding(a, b, Set::empty())
    }

    /// Any two vertices are joined by a walk.
    pub open spec fn weakly_connected(&self) -> bool {
        forall|a: VId, b: VId|
            self.has_vertex(a) && self.has_vertex(b) ==> #[trigger] self.connected(a, b)
    }

    /// A walk can be taken backwards.
    pub proof fn lemma_connected_symmetric(&self, a: VId, b: VId)
        requires
            self.connected(a, b),
        ensures
            self.connected(b, a),
    {
        let p = choose|p: Seq<VId>| self.is_walk_avoiding(p, a, b, Set::empty());
        let r = p.reverse();
        assert forall|i: int| 0 <= i < r.len() - 1 implies self.linked(#[trigger] r[i], r[i + 1]) by {
            let j = p.len() - 2 - i;
            assert(r[i] == p[j + 1]);
        }
        assert(self.is_walk_avoiding(r, b, a, Set::empty()));
    }

    /// Two walks that meet make one walk.
    pub proof fn lemma_connected_transitive(&self, a: VId, b: VId, c: VId)
        requires
            self.connected(a, b),
            self.connected(b, c),
        ensures
            self.connected(a, c),
    {
        let p = choose|p: Seq<VId>| self.is_walk_avoiding(p, a, b, Set::empty());
        let q = choose|q: Seq<VId>| self.is_walk_avoiding(q, b, c, Set::empty());
        let r = p + q.subrange(1, q.len() as int);
        assert forall|i: int| 0 <= i < r.len() - 1 implies self.linked(#[trigger] r[i], r[i + 1]) by {
            if i < p.len() - 1 {
                assert(self.linked(p[i], p[i + 1]));
            } else if i == p.len() - 1 {
                assert(r[i] == q[0]);
                assert(self.linked(q[0], q[0int + 1]));
            } else {
                let j = i - p.len() + 1;
                assert(r[i] == q[j]);
                assert(self.linked(q[j], q[j + 1]));
            }
        }
        assert(self.is_walk_avoiding(r, a, c, Set::empty()));
    }

    /// A set that holds `from`, and with each of its members outside
    /// `avoid` all that the member is linked to, holds everything that
    /// `from` reaches without touching `avoid`.
    pub proof fn lemma_closed_set_holds_reach(
        &self,
        found: Set<VId>,
        from: VId,
        to: VId,
        avoid: Set<VId>,
    )
        requires
            found.contains(from),
            forall|x: VId, y: VId|
                found.contains(x) && !avoid.contains(x) && #[trigger] self.linked(x, y)
                    ==> found.contains(y),
            self.reaches_avoiding(from, to, avoid),
        ensures
            found.contains(to),
    {
        let p = choose|p: Seq<VId>| self.is_walk_avoiding(p, from, to, avoid);
        self.lemma_closed_set_holds_walk(found, p, avoid, p.len() - 1);
    }

    proof fn lemma_closed_set_holds_walk(&self, found: Set<VId>, p: Seq<VId>, avoid: Set<VId>, m: int)
        requires
            self.is_walk(p),
            found.contains(p[0]),
            forall|i: int| 0 <= i < p.len() ==> !avoid.contains(#[trigger] p[i]),
            forall|x: VId, y: VId|
                found.contains(x) && !avoid.contains(x) && #[trigger] self.linked(x, y)
                    ==> found.contains(y),
            0 <= m < p.len(),
        ensures
            found.contains(p[m]),
        decreases m,
    {
        if m > 0 {
            self.lemma_closed_set_holds_walk(found, p, avoid, m - 1);
        }
    }
}

impl<VId: Copy + Eq + Hash, V> Graph<VId, V> {
    /// Everything `id` is linked to. A node that is both a predecessor and
    /// a successor is listed twice.
    fn neighbor_list(&self, id: &VId) -> (out: Vec<VId>)
        requires
            self.wf(),
        ensures
            forall|y: VId| out@.contains(y) <==> #[trigger] self.linked(*id, y),
    {
        proof {
            self.lemma_wf();
        }
        let mut out = self.predecessor_list(id);
        let succs = self.successor_list(id);
        let ghost preds = out@;
        let mut i: usize = 0;
        while i < succs.len()
            invariant
                i <= succs.len(),
                forall|y: VId|
                    out@.contains(y) <==> preds.contains(y) || succs@.take(i as int).contains(y),
            decreases succs.len() - i,
        {
            proof {
                assert(succs@.take(i + 1) == succs@.take(i as int).push(succs@[i as int]));
            }
            out.push(succs[i]);
            i += 1;
        }
        proof {
            assert(succs@.take(i as int) == succs@);
            assert forall|y: VId| out@.contains(y) <==> #[trigger] self.linked(*id, y) by {
                assert(preds.to_set().contains(y) <==> preds.contains(y));
            }
        }
        out
    }

    /// Adds to `visited` what `id` reaches without touching what was
    /// visited before.
    fn explore(&self, id: VId, visited: &mut HashSet<VId>)
        requires
            self.wf(),
        ensures
            old(visited)@.subset_of(final(visited)@),
            old(visited)@.contains(id) ==> final(visited)@ == old(visited)@,
            final(visited)@.contains(id),
            forall|x: VId|
                final(visited)@.contains(x) && !old(visited)@.contains(x)
                    ==> #[trigger] self.reaches_avoiding(id, x, old(visited)@),
            forall|x: VId, y: VId|
                final(visited)@.contains(x) && !old(visited)@.contains(x) && #[trigger] self.linked(
                    x,
                    y,
                ) ==> final(visited)@.contains(y),
        decreases self.nodes().difference(old(visited)@).len(),
    {
        proof {
            self.lemma_wf();
        }
        if visited.contains(&id) {
            return ;
        }
        let ghost before = visited@;
        visited.insert(id);
        let near = self.neighbor_list(&id);
        proof {
            let alone = seq![id];
            assert(self.is_walk_avoiding(alone, id, id, before));
        }
        let mut i: usize = 0;
        while i < near.len()
            invariant
                self.wf(),
                obeys_key_model::<VId>(),
                self.nodes().finite(),
                i <= near.len(),
                before == old(visited)@,
                !before.contains(id),
                before.subset_of(visited@),
                visited@.contains(id),
                forall|y: VId| near@.contains(y) <==> #[trigger] self.linked(id, y),
                forall|k: int| 0 <= k < i ==> visited@.contains(#[trigger] near@[k]),
                forall|x: VId|
                    visited@.contains(x) && !before.contains(x) ==> #[trigger] self.reaches_avoiding(
                        id,
                        x,
                        before,
                    ),
                forall|x: VId, y: VId|
                    visited@.contains(x) && !before.contains(x) && x != id && #[trigger] self.linked(
                        x,
                        y,
                    ) ==> visited@.contains(y),
            decreases near.len() - i,
        {
            let next = near[i];
            let ghost seen = visited@;
            proof {
                self.lemma_wf();
                assert(self.linked(id, next));
                let was = self.nodes().difference(before);
                let now = self.nodes().difference(seen);
                vstd::set_lib::lemma_len_subset(now, was.remove(id));
            }
            self.explore(next, visited);
            proof {
                assert forall|x: VId|
                    visited@.contains(x) && !before.contains(x) implies #[trigger] self.reaches_avoiding(
                    id,
                    x,
                    before,
                ) by {
                    if !seen.contains(x) {
                        assert(self.reaches_avoiding(next, x, seen));
                        let q = choose|q: Seq<VId>| self.is_walk_avoiding(q, next, x, seen);
                        let p = seq![id] + q;
                        assert forall|j: int| 0 <= j < p.len() - 1 implies self.linked(
                            #[trigger] p[j],
                            p[j + 1],
                        ) by {
                            if j > 0 {
                                assert(p[j] == q[j - 1]);
                            } else {
                                assert(p[1] == q[0]);
                            }
                        }
                        assert forall|j: int| 0 <= j < p.len() implies !before.contains(
                            #[trigger] p[j],
                        ) by {
                            if j > 0 {
                                assert(p[j] == q[j - 1]);
                            }
                        }
                        assert(self.is_walk_avoiding(p, id, x, before));
                    }
                }
            }
            i += 1;
        }
        proof {
            assert forall|x: VId, y: VId|
                visited@.contains(x) && !before.contains(x) && #[trigger] self.linked(
                    x,
                    y,
                ) implies visited@.contains(y) by {
                if x == id {
                    let k = choose|k: int| 0 <= k < near@.len() && near@[k] == y;
                    assert(visited@.contains(near@[k]));
                }
            }
        }
    }

    /// `visited`, and with it every node that `id` reaches, edge direction
    /// ignored, along a walk that touches nothing in `visited`.
    pub fn connected_nodes(&self, id: VId, visited: HashSet<VId>) -> (found: HashSet<VId>)
        requires
            self.wf(),
        ensures
            found@ == visited@.union(Set::new(|x: VId| self.reaches_avoiding(id, x, visited@))),
    {
        let mut found = visited;
        self.explore(id, &mut found);
        proof {
            let reach = Set::new(|x: VId| self.reaches_avoiding(id, x, visited@));
            assert forall|x: VId| found@.contains(x) <==> visited@.union(reach).contains(x) by {
                if reach.contains(x) {
                    if visited@.contains(id) {
                        let p = choose|p: Seq<VId>| self.is_walk_avoiding(p, id, x, visited@);
                        assert(!visited@.contains(p[0]));
                    } else {
                        self.lemma_closed_set_holds_reach(found@, id, x, visited@);
                    }
                }
            }
        }
        found
    }

    /// Whether any two vertices are joined by a walk along edges taken in
    /// either direction. A graph with a cycle can pass: this finds tasks
    /// cut off from the rest, not cycles.
    pub fn is_weakly_connected(&self) -> (joined: bool)
        requires
            self.wf(),
        ensures
            joined == self.weakly_connected(),
    {
        proof {
            self.lemma_wf();
        }
        let ids = self.vertex_ids();
        if ids.len() == 0 {
            proof {
                assert forall|a: VId| !self.has_vertex(a) by {
                    assert(!ids@.to_set().contains(a));
                }
            }
            return true;
        }
        let first = ids[0];
        let reached = self.connected_nodes(first, HashSet::new());
        proof {
            assert(ids@.to_set().contains(ids@[0]));
        }
        let mut i: usize = 0;
        while i < ids.len()
            invariant
                obeys_key_model::<VId>(),
                i <= ids.len(),
                self.has_vertex(first),
                ids@.to_set() == self.vertex_map().dom(),
                reached@ == Set::<VId>::empty().union(
                    Set::new(|x: VId| self.reaches_avoiding(first, x, Set::empty())),
                ),
                forall|k: int| 0 <= k < i ==> self.connected(first, #[trigger] ids@[k]),
            decreases ids.len() - i,
        {
            if !reached.contains(&ids[i]) {
                proof {
                    assert(!self.connected(first, ids@[i as int]));
                }
                return false;
            }
            i += 1;
        }
        proof {
            assert forall|a: VId, b: VId| self.has_vertex(a) && self.has_vertex(b) implies #[trigger] self.connected(
                a,
                b,
            ) by {
                let ka = choose|k: int| 0 <= k < ids@.len() && ids@[k] == a;
                let kb = choose|k: int| 0 <= k < ids@.len() && ids@[k] == b;
                assert(self.connected(first, ids@[ka]));
                assert(self.connected(first, ids@[kb]));
                self.lemma_connected_symmetric(first, a);
                self.lemma_connected_transitive(a, first, b);
            }
        }
        true
    }
}

} // verus!
