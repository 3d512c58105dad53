//! Critical-path scheduling over a directed dependency graph.
//!
//! [`graph::Graph`] stores vertices with forward and backward adjacency.
//! [`order`] finds directed cycles, [`reach`] tells whether the graph
//! hangs together when edge direction is ignored. [`cpm`] validates a
//! graph of [`task::Task`]s and derives, for each task, its earliest and
//! latest start and finish and its slack; [`laws`] states what holds of
//! every such schedule.

mod members;
pub mod graph;
pub mod order;
pub mod reach;
pub mod task;
pub mod cpm;
pub mod laws;

pub use cpm::{CpmError, Schedule, Times};
pub use graph::Graph;
pub use task::Task;
