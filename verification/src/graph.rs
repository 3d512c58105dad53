//! A directed graph keyed by node identifier, with a payload per vertex
//! and adjacency recorded in both directions.

use std::collections::HashMap;
use std::collections::HashSet;
use std::hash::Hash;
use vstd::prelude::*;
use vstd::std_specs::hash::obeys_key_model;
use crate::members::{collect, map_keys, set_members};

verus! {

broadcast use {
    vstd::std_specs::hash::group_hash_axioms,
    vstd::seq_lib::lemma_seq_contains_after_push,
};

/// A directed graph. An edge may name an identifier that has no vertex
/// record; such an identifier simply has no payload.
#[derive(Debug)]
pub struct Graph<VId, V = ()> {
    pub(crate) vertices: HashMap<VId, V>,
    pub(crate) successor_edges: HashMap<VId, HashSet<VId>>,
    pub(crate) predecessor_edges: HashMap<VId, HashSet<VId>>,
}

impl<VId, V> Graph<VId, V> {
    /// The payload of each vertex.
    pub closed spec fn vertex_map(&self) -> Map<VId, V> {
        self.vertices@
    }

    /// The targets of the edges that leave `id`.
    pub closed spec fn successors(&self, id: VId) -> Set<VId> {
        if self.successor_edges@.contains_key(id) {
            self.successor_edges@[id]@
        } else {
            Set::empty()
        }
    }

    /// The sources of the edges that enter `id`.
    pub closed spec fn predecessors(&self, id: VId) -> Set<VId> {
        if self.predecessor_edges@.contains_key(id) {
            self.predecessor_edges@[id]@
        } else {
            Set::empty()
        }
    }

    /// The keys of the two adjacency maps.
    spec fn endpoints(&self) -> Set<VId> {
        self.successor_edges@.dom().union(self.predecessor_edges@.dom())
    }

    /// `id` has a vertex record.
    pub open spec fn has_vertex(&self, id: VId) -> bool {
        self.vertex_map().contains_key(id)
    }

    /// The edge `from -> to` is recorded.
    pub open spec fn has_edge(&self, from: VId, to: VId) -> bool {
        self.successors(from).contains(to)
    }

    /// The key type hashes and compares as a key must, and the two
    /// adjacency maps are inverse to each other.
    pub closed spec fn wf(&self) -> bool {
        &&& obeys_key_model::<VId>()
        &&& forall|a: VId, b: VId|
            #![trigger self.successors(a).contains(b)]
            #![trigger self.predecessors(b).contains(a)]
            self.successors(a).contains(b) <==> self.predecessors(b).contains(a)
        &&& forall|a: VId| #[trigger] self.successors(a).finite()
        &&& forall|a: VId| #[trigger] self.predecessors(a).finite()
    }

    /// Every identifier the graph knows of: one with a vertex record, or
    /// one that an edge leaves or enters.
    pub open spec fn nodes(&self) -> Set<VId> {
        Set::new(
            |id: VId|
                self.has_vertex(id) || !self.successors(id).is_empty() || !self.predecessors(
                    id,
                ).is_empty(),
        )
    }

    /// An identifier that an edge names and that has no vertex record.
    pub open spec fn dangling(&self, id: VId) -> bool {
        self.nodes().contains(id) && !self.has_vertex(id)
    }

    /// Some edge names an identifier that has no vertex record.
    pub open spec fn has_dangling(&self) -> bool {
        exists|id: VId| #[trigger] self.dangling(id)
    }

    /// What well-formedness gives to code outside this module.
    pub proof fn lemma_wf(&self)
        requires
            self.wf(),
        ensures
            obeys_key_model::<VId>(),
            self.vertex_map().dom().finite(),
            self.nodes().finite(),
            forall|a: VId, b: VId|
                self.has_edge(a, b) <==> #[trigger] self.predecessors(b).contains(a),
            forall|a: VId, b: VId| #[trigger]
                self.has_edge(a, b) ==> self.nodes().contains(a) && self.nodes().contains(b),
            forall|a: VId| #[trigger] self.successors(a).finite(),
            forall|a: VId| #[trigger] self.predecessors(a).finite(),
    {
        let all = self.vertices@.dom().union(self.endpoints());
        assert(self.nodes().subset_of(all));
        vstd::set_lib::lemma_len_subset(self.nodes(), all);
    }
}

impl<VId: Copy + Eq + Hash, V> Graph<VId, V> {
    /// An empty graph.
    pub fn new() -> (g: Self)
        requires
            obeys_key_model::<VId>(),
        ensures
            g.wf(),
            g.vertex_map() == Map::<VId, V>::empty(),
            forall|id: VId| g.successors(id) == Set::<VId>::empty(),
            forall|id: VId| g.predecessors(id) == Set::<VId>::empty(),
    {
        Graph {
            vertices: HashMap::new(),
            successor_edges: HashMap::new(),
            predecessor_edges: HashMap::new(),
        }
    }

    /// Inserts the payload for `vertex`, replacing an earlier one.
    pub fn add_vertex(&mut self, vertex: VId, value: V)
        requires
            old(self).wf(),
        ensures
            final(self).wf(),
            final(self).vertex_map() == old(self).vertex_map().insert(vertex, value),
            forall|id: VId| final(self).successors(id) == old(self).successors(id),
            forall|id: VId| final(self).predecessors(id) == old(self).predecessors(id),
    {
        self.vertices.insert(vertex, value);
        proof {
            assert forall|id: VId| final(self).successors(id) == old(self).successors(id) by {}
            assert forall|id: VId| final(self).predecessors(id) == old(self).predecessors(id) by {}
        }
    }

    /// Records the edge `from -> to` in both directions. Connecting a pair
    /// a second time changes nothing.
    pub fn connect_vertices(&mut self, from: VId, to: VId)
        requires
            old(self).wf(),
        ensures
            final(self).wf(),
            final(self).vertex_map() == old(self).vertex_map(),
            forall|id: VId|
                final(self).successors(id) == if id == from {
                    old(self).successors(id).insert(to)
                } else {
                    old(self).successors(id)
                },
            forall|id: VId|
                final(self).predecessors(id) == if id == to {
                    old(self).predecessors(id).insert(from)
                } else {
                    old(self).predecessors(id)
                },
    {
        let mut targets = match self.successor_edges.remove(&from) {
            Some(s) => s,
            None => HashSet::new(),
        };
        targets.insert(to);
        self.successor_edges.insert(from, targets);
        let mut sources = match self.predecessor_edges.remove(&to) {
            Some(s) => s,
            None => HashSet::new(),
        };
        sources.insert(from);
        self.predecessor_edges.insert(to, sources);
        proof {
            assert forall|id: VId|
                final(self).successors(id) == if id == from {
                    old(self).successors(id).insert(to)
                } else {
                    old(self).successors(id)
                } by {}
            assert forall|id: VId|
                final(self).predecessors(id) == if id == to {
                    old(self).predecessors(id).insert(from)
                } else {
                    old(self).predecessors(id)
                } by {}
        }
    }

    /// Whether `id` has a vertex record.
    pub fn contains_vertex(&self, id: &VId) -> (found: bool)
        requires
            self.wf(),
        ensures
            found == self.has_vertex(*id),
    {
        self.vertices.contains_key(id)
    }

    /// The payload of `id`, if it has a vertex record.
    pub fn vertex(&self, id: &VId) -> (payload: Option<&V>)
        requires
            self.wf(),
        ensures
            payload == if self.has_vertex(*id) {
                Some(&self.vertex_map()[*id])
            } else {
                None
            },
    {
        self.vertices.get(id)
    }

    /// The number of vertex records.
    pub fn vertex_count(&self) -> (n: usize)
        requires
            self.wf(),
        ensures
            n == self.vertex_map().dom().len(),
    {
        self.vertices.len()
    }

    /// The identifiers that have a vertex record, each once.
    pub fn vertex_ids(&self) -> (ids: Vec<VId>)
        requires
            self.wf(),
        ensures
            ids@.to_set() == self.vertex_map().dom(),
            ids@.no_duplicates(),
            ids@.len() == self.vertex_map().dom().len(),
    {
        map_keys(&self.vertices)
    }

    /// The identifiers that some edge leaves, each once.
    pub fn edge_sources(&self) -> (ids: Vec<VId>)
        requires
            self.wf(),
        ensures
            ids@.no_duplicates(),
            forall|a: VId| #[trigger]
                ids@.contains(a) <==> !self.successors(a).is_empty(),
    {
        let keys = map_keys(&self.successor_edges);
        let mut ids: Vec<VId> = Vec::new();
        let mut i: usize = 0;
        while i < keys.len()
            invariant
                self.wf(),
                i <= keys.len(),
                keys@.to_set() == self.successor_edges@.dom(),
                keys@.no_duplicates(),
                ids@.no_duplicates(),
                forall|a: VId| #[trigger]
                    ids@.contains(a) <==> !self.successors(a).is_empty() && keys@.take(
                        i as int,
                    ).contains(a),
            decreases keys.len() - i,
        {
            let k = keys[i];
            let nonempty = match self.successor_edges.get(&k) {
                Some(s) => !s.is_empty(),
                None => false,
            };
            let ghost seen = keys@.take(i as int);
            proof {
                assert(keys@.take(i + 1) == seen.push(k));
                assert(!seen.contains(k)) by {
                    if seen.contains(k) {
                        let j = choose|j: int| 0 <= j < seen.len() && seen[j] == k;
                        assert(keys@[j] == keys@[i as int]);
                    }
                }
            }
            if nonempty {
                assert(!ids@.contains(k));
                ids.push(k);
            }
            i += 1;
        }
        proof {
            assert(keys@.take(i as int) == keys@);
            assert forall|a: VId| !self.successors(a).is_empty() implies keys@.contains(a) by {
                assert(self.successor_edges@.dom().contains(a));
            }
        }
        ids
    }

    /// The targets of the edges that leave `id`, each once.
    pub fn successor_list(&self, id: &VId) -> (out: Vec<VId>)
        requires
            self.wf(),
        ensures
            out@.to_set() == self.successors(*id),
            out@.no_duplicates(),
    {
        match self.successor_edges.get(id) {
            Some(s) => set_members(s),
            None => {
                let out: Vec<VId> = Vec::new();
                out
            },
        }
    }

    /// The sources of the edges that enter `id`, each once.
    pub fn predecessor_list(&self, id: &VId) -> (out: Vec<VId>)
        requires
            self.wf(),
        ensures
            out@.to_set() == self.predecessors(*id),
            out@.no_duplicates(),
    {
        match self.predecessor_edges.get(id) {
            Some(s) => set_members(s),
            None => {
                let out: Vec<VId> = Vec::new();
                out
            },
        }
    }

    /// The set of successors of `id`; empty where `id` is unknown.
    pub fn successors_of(&self, id: &VId) -> (out: HashSet<VId>)
        requires
            self.wf(),
        ensures
            out@ == self.successors(*id),
    {
        let list = self.successor_list(id);
        collect(&list)
    }

    /// The set of predecessors of `id`; empty where `id` is unknown.
    pub fn predecessors_of(&self, id: &VId) -> (out: HashSet<VId>)
        requires
            self.wf(),
        ensures
            out@ == self.predecessors(*id),
    {
        let list = self.predecessor_list(id);
        collect(&list)
    }
}

} // verus!
