//! Dependency-graph analysis for work items ("beads").
//!
//! Each bead declares the items it is blocked by and the items it blocks;
//! the two views are reconciled into one canonical directed graph. Over that
//! graph the library answers a fixed menu of questions: topological order,
//! cycle detection, the set of items inside cycles, readiness, parallel
//! execution waves, the outward adjacency map, and critical-path analysis
//! (longest-duration chain, per-item slack).

use vstd::prelude::*;

pub mod model;
pub mod snapshot;
pub mod topo;
pub mod dag;
pub mod critical;
pub mod hash;
pub mod intern;
pub mod pool;

verus! {

/// A unit of work: an id, a status, the two dependency views, and an
/// optional duration (absent means 1).
pub struct BeadNode {
    pub id: String,
    pub title: String,
    pub status: String,
    pub priority: u32,
    pub blocked_by: Vec<String>,
    pub blocks: Vec<String>,
    pub duration: Option<u32>,
}

/// A dependency graph listed as node ids and directed id pairs.
#[derive(Debug)]
pub struct BeadGraph {
    pub nodes: Vec<String>,
    pub edges: Vec<(String, String)>,
}

/// Result of a topological sort. When a cycle is found, `sorted` is empty
/// and `cycle_nodes` lists the ids that could not be ordered.
#[derive(Debug)]
pub struct TopoSortResult {
    pub sorted: Vec<String>,
    pub has_cycle: bool,
    pub cycle_nodes: Vec<String>,
}

/// Result of critical-path analysis: one longest-duration chain, the total
/// duration of the schedule, and the slack of every item (in item order).
#[derive(Debug)]
pub struct CriticalPathResult {
    pub path: Vec<String>,
    pub total_duration: u32,
    pub slack: Vec<(String, u32)>,
}

impl CriticalPathResult {
    /// Look up the slack recorded for `id`, if any.
    pub fn slack_of(&self, id: &String) -> (r: Option<u32>)
        ensures
            match r {
                Some(s) => exists|i: int|
                    0 <= i < self.slack@.len() && self.slack@[i].0@ == id@ && self.slack@[i].1
                        == s,
                None => forall|i: int|
                    0 <= i < self.slack@.len() ==> (#[trigger] self.slack@[i].0)@ != id@,
            },
    {
        let n = self.slack.len();
        for i in 0..n
            invariant
                n == self.slack@.len(),
                forall|j: int| 0 <= j < i ==> (#[trigger] self.slack@[j].0)@ != id@,
        {
            if self.slack[i].0 == *id {
                return Some(self.slack[i].1);
            }
        }
        None
    }
}

/// Execution levels: items grouped into waves that may run in parallel,
/// plus the size of the largest wave.
#[derive(Debug)]
pub struct LevelsResult {
    pub levels: Vec<Vec<String>>,
    pub max_parallelism: usize,
}

/// Errors raised by operations that require an acyclic graph.
#[derive(Debug)]
pub enum GraphError {
    /// The dependency graph contains a directed cycle.
    CycleDetected,
}

impl GraphError {
    /// A short diagnostic string for the error.
    pub fn message(&self) -> &'static str {
        match self {
            GraphError::CycleDetected => "Cycle detected in dependency graph",
        }
    }
}

/// Effective duration of a bead in the model: the declared value, or 1 when
/// absent.
pub open spec fn spec_duration(b: BeadNode) -> int {
    match b.duration {
        Some(d) => d as int,
        None => 1,
    }
}

/// Effective duration of the bead, defaulting to 1.
pub fn effective_duration(b: &BeadNode) -> (r: u32)
    ensures
        r as int == spec_duration(*b),
{
    match b.duration {
        Some(d) => d,
        None => 1,
    }
}

} // verus!
