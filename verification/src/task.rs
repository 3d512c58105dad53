//! The payload of a vertex in a project plan.

use vstd::prelude::*;

verus! {

/// One task of a project. `predecessors` names the tasks that must
/// finish before this one starts.
#[derive(Clone, Debug, Hash, PartialEq, Eq)]
pub struct Task {
    pub id: String,
    pub description: String,
    pub duration: i32,
    pub predecessors: Vec<String>,
}

} // verus!
