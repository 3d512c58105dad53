use std::collections::HashSet;

use critical_path::cpm::{CpmError, Schedule, Times};
use critical_path::graph::Graph;
use critical_path::task::Task;

fn task(id: &str, duration: i32) -> Task {
    Task {
        id: id.to_string(),
        description: format!("task {}", id),
        duration,
        predecessors: Vec::new(),
    }
}

fn times(early_start: i128, early_finish: i128, late_start: i128, late_finish: i128, slack: i128) -> Times {
    Times { early_start, early_finish, late_start, late_finish, slack }
}

/// A(3) -> B(2) -> D(4), A -> C(5) -> D.
fn four_tasks() -> Graph<&'static str, Task> {
    let mut graph = Graph::new();
    graph.add_vertex("A", task("A", 3));
    graph.add_vertex("B", task("B", 2));
    graph.add_vertex("C", task("C", 5));
    graph.add_vertex("D", task("D", 4));
    graph.connect_vertices("A", "B");
    graph.connect_vertices("A", "C");
    graph.connect_vertices("B", "D");
    graph.connect_vertices("C", "D");
    graph
}

fn fault_of(graph: &Graph<&'static str, Task>) -> CpmError<&'static str> {
    match graph.compute_schedule() {
        Ok(_) => panic!("the graph was scheduled"),
        Err(fault) => fault,
    }
}

fn schedule_of<VId: Copy + Eq + std::hash::Hash>(graph: &Graph<VId, Task>) -> Schedule<VId> {
    match graph.compute_schedule() {
        Ok(schedule) => schedule,
        Err(_) => panic!("the graph was refused"),
    }
}

#[test]
fn four_tasks_get_their_times() {
    let schedule = schedule_of(&four_tasks());
    assert_eq!(schedule.times_of(&"A"), Some(times(0, 3, 0, 3, 0)));
    assert_eq!(schedule.times_of(&"B"), Some(times(3, 5, 6, 8, 3)));
    assert_eq!(schedule.times_of(&"C"), Some(times(3, 8, 3, 8, 0)));
    assert_eq!(schedule.times_of(&"D"), Some(times(8, 12, 8, 12, 0)));
    assert_eq!(schedule.project_finish, 12);
    assert_eq!(schedule.times.len(), 4);
}

#[test]
fn four_tasks_have_three_critical_nodes() {
    let graph = four_tasks();
    let schedule = schedule_of(&graph);
    let critical: HashSet<&str> =
        graph.vertex_ids().into_iter().filter(|id| schedule.is_critical(id)).collect();
    assert_eq!(critical, HashSet::from(["A", "C", "D"]));
    assert!(!schedule.is_critical(&"B"));
    assert!(!schedule.is_critical(&"Z"));
    let edges: HashSet<(&str, &str)> = schedule.critical_edges.iter().copied().collect();
    assert_eq!(schedule.critical_edges.len(), 2);
    assert_eq!(edges, HashSet::from([("A", "C"), ("C", "D")]));
}

#[test]
fn accessors_read_the_table() {
    let schedule = schedule_of(&four_tasks());
    assert_eq!(schedule.early_start(&"B"), Some(3));
    assert_eq!(schedule.early_finish(&"B"), Some(5));
    assert_eq!(schedule.late_start(&"B"), Some(6));
    assert_eq!(schedule.late_finish(&"B"), Some(8));
    assert_eq!(schedule.slack(&"B"), Some(3));
    assert_eq!(schedule.early_start(&"Z"), None);
    assert_eq!(schedule.early_finish(&"Z"), None);
    assert_eq!(schedule.late_start(&"Z"), None);
    assert_eq!(schedule.late_finish(&"Z"), None);
    assert_eq!(schedule.slack(&"Z"), None);
    assert_eq!(schedule.times_of(&"Z"), None);
}

#[test]
fn the_order_puts_predecessors_first() {
    let graph = four_tasks();
    let schedule = schedule_of(&graph);
    let place = |id: &str| schedule.order.iter().position(|x| *x == id).unwrap();
    assert_eq!(schedule.order.len(), 4);
    assert!(place("A") < place("B"));
    assert!(place("A") < place("C"));
    assert!(place("B") < place("D"));
    assert!(place("C") < place("D"));
    let order = match graph.validate() {
        Ok(order) => order,
        Err(_) => panic!("the graph was refused"),
    };
    assert_eq!(order.len(), 4);
    assert_eq!(order[0], "A");
    assert_eq!(order[3], "D");
}

#[test]
fn an_edge_between_two_critical_nodes_is_reported() {
    // A -> D is no part of the longest path A, C, D, and both of its
    // ends have no slack.
    let mut graph = four_tasks();
    graph.connect_vertices("A", "D");
    let schedule = schedule_of(&graph);
    assert_eq!(schedule.project_finish, 12);
    let edges: HashSet<(&str, &str)> = schedule.critical_edges.iter().copied().collect();
    assert_eq!(edges, HashSet::from([("A", "C"), ("C", "D"), ("A", "D")]));
}

#[test]
fn two_sinks_share_the_later_finish() {
    let mut graph: Graph<u32, Task> = Graph::new();
    graph.add_vertex(1, task("short", 10));
    graph.add_vertex(2, task("long", 15));
    let schedule = schedule_of(&graph);
    assert_eq!(schedule.project_finish, 15);
    assert_eq!(schedule.times_of(&1), Some(times(0, 10, 5, 15, 5)));
    assert_eq!(schedule.times_of(&2), Some(times(0, 15, 0, 15, 0)));
    assert!(schedule.critical_edges.is_empty());
}

#[test]
fn two_sinks_behind_one_source() {
    let mut graph: Graph<u32, Task> = Graph::new();
    graph.add_vertex(0, task("start", 2));
    graph.add_vertex(1, task("short", 8));
    graph.add_vertex(2, task("long", 13));
    graph.connect_vertices(0, 1);
    graph.connect_vertices(0, 2);
    let schedule = schedule_of(&graph);
    assert_eq!(schedule.project_finish, 15);
    assert_eq!(schedule.times_of(&0), Some(times(0, 2, 0, 2, 0)));
    assert_eq!(schedule.times_of(&1), Some(times(2, 10, 7, 15, 5)));
    assert_eq!(schedule.times_of(&2), Some(times(2, 15, 2, 15, 0)));
    assert_ne!(schedule.slack(&1), Some(0));
    assert_eq!(schedule.critical_edges, vec![(0, 2)]);
}

#[test]
fn an_empty_graph_finishes_at_zero() {
    let graph: Graph<u32, Task> = Graph::new();
    let schedule = schedule_of(&graph);
    assert_eq!(schedule.project_finish, 0);
    assert!(schedule.times.is_empty());
    assert!(schedule.order.is_empty());
    assert!(schedule.critical_edges.is_empty());
}

#[test]
fn one_task_is_critical() {
    let mut graph: Graph<u32, Task> = Graph::new();
    graph.add_vertex(5, task("only", 7));
    let schedule = schedule_of(&graph);
    assert_eq!(schedule.times_of(&5), Some(times(0, 7, 0, 7, 0)));
    assert_eq!(schedule.project_finish, 7);
    assert!(schedule.is_critical(&5));
}

#[test]
fn tasks_of_no_duration() {
    let mut graph: Graph<u32, Task> = Graph::new();
    graph.add_vertex(1, task("a", 0));
    graph.add_vertex(2, task("b", 0));
    graph.connect_vertices(1, 2);
    let schedule = schedule_of(&graph);
    assert_eq!(schedule.times_of(&1), Some(times(0, 0, 0, 0, 0)));
    assert_eq!(schedule.times_of(&2), Some(times(0, 0, 0, 0, 0)));
    assert_eq!(schedule.project_finish, 0);
    assert_eq!(schedule.critical_edges, vec![(1, 2)]);
}

#[test]
fn the_largest_durations_do_not_overflow() {
    let mut graph: Graph<u32, Task> = Graph::new();
    for id in 0..4u32 {
        graph.add_vertex(id, task("big", i32::MAX));
    }
    for id in 0..3u32 {
        graph.connect_vertices(id, id + 1);
    }
    let schedule = schedule_of(&graph);
    let step = i32::MAX as i128;
    assert_eq!(schedule.project_finish, 4 * step);
    assert_eq!(schedule.times_of(&3), Some(times(3 * step, 4 * step, 3 * step, 4 * step, 0)));
    assert_eq!(schedule.times_of(&0), Some(times(0, step, 0, step, 0)));
}

#[test]
fn a_cycle_is_refused() {
    let mut graph = four_tasks();
    graph.connect_vertices("D", "A");
    match fault_of(&graph) {
        CpmError::CyclicDependency(id) => assert!(["A", "B", "C", "D"].contains(&id)),
        other => panic!("expected a cycle, got {:?}", other),
    }
}

#[test]
fn the_cycle_error_names_a_node_on_the_cycle() {
    let mut graph = four_tasks();
    graph.add_vertex("E", task("E", 1));
    graph.add_vertex("F", task("F", 1));
    graph.connect_vertices("D", "E");
    graph.connect_vertices("E", "F");
    graph.connect_vertices("F", "E");
    match fault_of(&graph) {
        CpmError::CyclicDependency(id) => assert!(id == "E" || id == "F"),
        other => panic!("expected a cycle, got {:?}", other),
    }
}

#[test]
fn a_self_loop_is_refused() {
    let mut graph: Graph<&'static str, Task> = Graph::new();
    graph.add_vertex("A", task("A", 1));
    graph.connect_vertices("A", "A");
    assert_eq!(fault_of(&graph), CpmError::CyclicDependency("A"));
}

#[test]
fn an_edge_to_an_unknown_node_is_refused() {
    let mut graph = four_tasks();
    graph.connect_vertices("D", "ghost");
    assert_eq!(fault_of(&graph), CpmError::UnknownNodeReference("ghost"));
}

#[test]
fn an_edge_from_an_unknown_node_is_refused() {
    let mut graph = four_tasks();
    graph.connect_vertices("ghost", "A");
    assert_eq!(fault_of(&graph), CpmError::UnknownNodeReference("ghost"));
}

#[test]
fn a_negative_duration_is_refused() {
    let mut graph = four_tasks();
    graph.add_vertex("B", task("B", -1));
    assert_eq!(fault_of(&graph), CpmError::InvalidDuration("B"));
}

#[test]
fn an_unknown_node_is_reported_before_a_cycle() {
    let mut graph = four_tasks();
    graph.connect_vertices("D", "A");
    graph.connect_vertices("ghost", "A");
    graph.add_vertex("B", task("B", -1));
    assert_eq!(fault_of(&graph), CpmError::UnknownNodeReference("ghost"));
    assert_eq!(graph.validate(), Err(CpmError::UnknownNodeReference("ghost")));
}

#[test]
fn a_cycle_is_reported_before_a_negative_duration() {
    let mut graph = four_tasks();
    graph.connect_vertices("D", "A");
    graph.add_vertex("B", task("B", -1));
    match fault_of(&graph) {
        CpmError::CyclicDependency(_) => {},
        other => panic!("expected a cycle, got {:?}", other),
    }
}

#[test]
fn two_runs_agree() {
    let graph = four_tasks();
    let first = schedule_of(&graph);
    let second = schedule_of(&graph);
    assert_eq!(first.times, second.times);
    assert_eq!(first.project_finish, second.project_finish);
    let a: HashSet<(&str, &str)> = first.critical_edges.iter().copied().collect();
    let b: HashSet<(&str, &str)> = second.critical_edges.iter().copied().collect();
    assert_eq!(a, b);
}

#[test]
fn slack_is_the_same_at_both_ends() {
    let graph = four_tasks();
    let schedule = schedule_of(&graph);
    for id in graph.vertex_ids() {
        let t = schedule.times_of(&id).unwrap();
        assert_eq!(t.late_start - t.early_start, t.late_finish - t.early_finish);
        assert_eq!(t.slack, t.late_start - t.early_start);
    }
}

#[test]
fn sources_start_at_zero_and_sinks_end_with_the_project() {
    let mut graph = four_tasks();
    graph.add_vertex("E", task("E", 1));
    let schedule = schedule_of(&graph);
    assert_eq!(schedule.early_start(&"A"), Some(0));
    assert_eq!(schedule.early_start(&"E"), Some(0));
    assert_eq!(schedule.late_finish(&"D"), Some(schedule.project_finish));
    assert_eq!(schedule.late_finish(&"E"), Some(schedule.project_finish));
    let latest = graph.vertex_ids().iter().map(|id| schedule.early_finish(id).unwrap()).max();
    assert_eq!(latest, Some(schedule.project_finish));
    assert_eq!(schedule.times_of(&"E"), Some(times(0, 1, 11, 12, 11)));
}

#[test]
fn a_chain_of_diamonds_is_scheduled_once_per_node() {
    // Node 3k fans out to 3k+1 and 3k+2, which join again in 3k+3: the
    // paths from the first node to the last double with every diamond.
    let diamonds: u32 = 1000;
    let mut graph: Graph<u32, Task> = Graph::new();
    for id in 0..=(3 * diamonds) {
        let duration = if id % 3 == 2 { 2 } else { 1 };
        graph.add_vertex(id, task("step", duration));
    }
    for k in 0..diamonds {
        graph.connect_vertices(3 * k, 3 * k + 1);
        graph.connect_vertices(3 * k, 3 * k + 2);
        graph.connect_vertices(3 * k + 1, 3 * k + 3);
        graph.connect_vertices(3 * k + 2, 3 * k + 3);
    }
    let schedule = schedule_of(&graph);
    let end = 3 * diamonds as i128 + 1;
    assert_eq!(schedule.project_finish, end);
    assert_eq!(schedule.times.len(), 3 * diamonds as usize + 1);
    assert_eq!(schedule.times_of(&0), Some(times(0, 1, 0, 1, 0)));
    assert_eq!(schedule.times_of(&1), Some(times(1, 2, 2, 3, 1)));
    assert_eq!(schedule.times_of(&2), Some(times(1, 3, 1, 3, 0)));
    assert_eq!(schedule.times_of(&(3 * diamonds)), Some(times(end - 1, end, end - 1, end, 0)));
    assert_eq!(schedule.critical_edges.len(), 2 * diamonds as usize);
    assert!(graph.is_acyclic());
    assert!(graph.is_weakly_connected());
}

#[test]
fn task_fields_are_kept() {
    let mut graph: Graph<u32, Task> = Graph::new();
    let mut t = task("build", 4);
    t.predecessors.push("plan".to_string());
    graph.add_vertex(1, t.clone());
    assert_eq!(graph.vertex(&1), Some(&t));
    let kept = graph.vertex(&1).unwrap();
    assert_eq!(kept.id, "build");
    assert_eq!(kept.description, "task build");
    assert_eq!(kept.duration, 4);
    assert_eq!(kept.predecessors, vec!["plan".to_string()]);
}
