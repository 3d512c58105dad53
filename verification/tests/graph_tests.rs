use std::collections::HashSet;

use critical_path::graph::Graph;

fn diamond() -> Graph<&'static str, i32> {
    let mut graph = Graph::new();
    graph.add_vertex("a", 1);
    graph.add_vertex("b", 2);
    graph.add_vertex("c", 3);
    graph.add_vertex("d", 4);
    graph.connect_vertices("a", "b");
    graph.connect_vertices("a", "c");
    graph.connect_vertices("b", "d");
    graph.connect_vertices("c", "d");
    graph
}

#[test]
fn normal_graph_works() {
    let mut graph = Graph::new();

    graph.add_vertex("a", 1);
    graph.add_vertex("b", 2);
    graph.add_vertex("c", 3);
    graph.add_vertex("d", 4);

    graph.connect_vertices("a", "b");
    graph.connect_vertices("a", "c");
    graph.connect_vertices("b", "d");
    graph.connect_vertices("c", "d");

    assert!(graph.is_acyclic());

    assert_eq!(graph.connected_nodes("a", HashSet::new()), HashSet::from(["a", "b", "c", "d"]));
}

#[test]
fn new_graph_is_empty() {
    let graph: Graph<u32, i32> = Graph::new();
    assert_eq!(graph.vertex_count(), 0);
    assert!(graph.vertex_ids().is_empty());
    assert!(graph.edge_sources().is_empty());
    assert!(!graph.contains_vertex(&1));
    assert_eq!(graph.vertex(&1), None);
    assert!(graph.successors_of(&1).is_empty());
    assert!(graph.predecessors_of(&1).is_empty());
}

#[test]
fn add_vertex_replaces_the_payload() {
    let mut graph: Graph<u32, i32> = Graph::new();
    graph.add_vertex(7, 1);
    graph.add_vertex(7, 2);
    assert_eq!(graph.vertex_count(), 1);
    assert_eq!(graph.vertex(&7), Some(&2));
    assert_eq!(graph.vertex_ids(), vec![7]);
}

#[test]
fn connect_records_both_directions() {
    let graph = diamond();
    assert_eq!(graph.successors_of(&"a"), HashSet::from(["b", "c"]));
    assert_eq!(graph.predecessors_of(&"a"), HashSet::new());
    assert_eq!(graph.successors_of(&"d"), HashSet::new());
    assert_eq!(graph.predecessors_of(&"d"), HashSet::from(["b", "c"]));
    assert_eq!(graph.predecessors_of(&"b"), HashSet::from(["a"]));
    assert_eq!(graph.successors_of(&"b"), HashSet::from(["d"]));
}

#[test]
fn connecting_twice_changes_nothing() {
    let mut graph: Graph<u32, i32> = Graph::new();
    graph.add_vertex(1, 0);
    graph.add_vertex(2, 0);
    graph.connect_vertices(1, 2);
    graph.connect_vertices(1, 2);
    assert_eq!(graph.successor_list(&1), vec![2]);
    assert_eq!(graph.predecessor_list(&2), vec![1]);
    assert_eq!(graph.successors_of(&1), HashSet::from([2]));
}

#[test]
fn unknown_identifier_has_no_neighbours() {
    let graph = diamond();
    assert!(graph.successors_of(&"z").is_empty());
    assert!(graph.predecessors_of(&"z").is_empty());
    assert!(graph.successor_list(&"z").is_empty());
    assert!(graph.predecessor_list(&"z").is_empty());
}

#[test]
fn an_edge_may_come_before_its_vertices() {
    let mut graph: Graph<u32, i32> = Graph::new();
    graph.connect_vertices(1, 2);
    assert_eq!(graph.vertex_count(), 0);
    assert_eq!(graph.successors_of(&1), HashSet::from([2]));
    assert_eq!(graph.predecessors_of(&2), HashSet::from([1]));
    assert_eq!(graph.edge_sources(), vec![1]);
    let found = graph.find_dangling();
    assert!(found == Some(1) || found == Some(2));
    graph.add_vertex(1, 10);
    assert_eq!(graph.find_dangling(), Some(2));
    graph.add_vertex(2, 20);
    assert_eq!(graph.find_dangling(), None);
    assert_eq!(graph.successors_of(&1), HashSet::from([2]));
}

#[test]
fn vertex_ids_lists_each_vertex_once() {
    let graph = diamond();
    let ids: HashSet<&str> = graph.vertex_ids().into_iter().collect();
    assert_eq!(graph.vertex_ids().len(), 4);
    assert_eq!(ids, HashSet::from(["a", "b", "c", "d"]));
    let sources: HashSet<&str> = graph.edge_sources().into_iter().collect();
    assert_eq!(graph.edge_sources().len(), 3);
    assert_eq!(sources, HashSet::from(["a", "b", "c"]));
}

#[test]
fn connected_nodes_keeps_what_was_visited() {
    let graph = diamond();
    let visited = HashSet::from(["b", "c"]);
    // "d" can only be reached through "b" or "c".
    assert_eq!(graph.connected_nodes("a", visited), HashSet::from(["a", "b", "c"]));
    let visited = HashSet::from(["a", "x"]);
    assert_eq!(graph.connected_nodes("a", visited), HashSet::from(["a", "x"]));
}

#[test]
fn connected_nodes_ignores_direction() {
    let graph = diamond();
    assert_eq!(graph.connected_nodes("d", HashSet::new()), HashSet::from(["a", "b", "c", "d"]));
    assert_eq!(graph.connected_nodes("b", HashSet::new()), HashSet::from(["a", "b", "c", "d"]));
}

#[test]
fn connected_nodes_of_a_lone_or_unknown_node() {
    let mut graph = diamond();
    graph.add_vertex("e", 5);
    assert_eq!(graph.connected_nodes("e", HashSet::new()), HashSet::from(["e"]));
    assert_eq!(graph.connected_nodes("z", HashSet::new()), HashSet::from(["z"]));
}

#[test]
fn weak_connectivity_of_small_graphs() {
    let mut graph: Graph<u32, i32> = Graph::new();
    assert!(graph.is_weakly_connected());
    graph.add_vertex(1, 0);
    assert!(graph.is_weakly_connected());
    graph.add_vertex(2, 0);
    assert!(!graph.is_weakly_connected());
    graph.connect_vertices(2, 1);
    assert!(graph.is_weakly_connected());
}

#[test]
fn weak_connectivity_finds_an_orphan() {
    let mut graph = diamond();
    assert!(graph.is_weakly_connected());
    graph.add_vertex("e", 5);
    assert!(!graph.is_weakly_connected());
}

#[test]
fn a_cycle_can_be_weakly_connected() {
    let mut graph: Graph<u32, i32> = Graph::new();
    graph.add_vertex(1, 0);
    graph.add_vertex(2, 0);
    graph.add_vertex(3, 0);
    graph.connect_vertices(1, 2);
    graph.connect_vertices(2, 3);
    graph.connect_vertices(3, 1);
    assert!(graph.is_weakly_connected());
    assert!(!graph.is_acyclic());
}

#[test]
fn acyclic_tells_cycles_from_diamonds() {
    let mut graph = diamond();
    assert!(graph.is_acyclic());
    graph.connect_vertices("d", "a");
    assert!(!graph.is_acyclic());
}

#[test]
fn a_self_loop_is_a_cycle() {
    let mut graph: Graph<u32, i32> = Graph::new();
    assert!(graph.is_acyclic());
    graph.add_vertex(1, 0);
    assert!(graph.is_acyclic());
    graph.connect_vertices(1, 1);
    assert!(!graph.is_acyclic());
}

#[test]
fn a_cycle_among_unrecorded_identifiers_counts() {
    let mut graph: Graph<u32, i32> = Graph::new();
    graph.add_vertex(1, 0);
    graph.connect_vertices(8, 9);
    assert!(graph.is_acyclic());
    graph.connect_vertices(9, 8);
    assert!(!graph.is_acyclic());
}

#[test]
fn weak_connectivity_looks_at_vertices_only() {
    let mut graph: Graph<u32, i32> = Graph::new();
    graph.add_vertex(1, 0);
    graph.connect_vertices(1, 9);
    assert!(graph.is_weakly_connected());
    graph.add_vertex(2, 0);
    assert!(!graph.is_weakly_connected());
    graph.connect_vertices(2, 9);
    // 1 and 2 are joined through 9, which has no vertex record.
    assert!(graph.is_weakly_connected());
}
