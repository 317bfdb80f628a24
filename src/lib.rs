use vstd::prelude::*;

/// The tracker's state: users, teams, projects, memberships, and the
/// project-level views and cascades over them.
pub mod database;
/// Task nodes and the node registry operations.
pub mod group;
/// Fresh identifier generation.
pub mod ids;
/// Directed edges between task nodes, their store and its validator.
pub mod pointer;
/// Materialization of task trees from nodes and edges.
pub mod task;

verus! {

} // verus!
