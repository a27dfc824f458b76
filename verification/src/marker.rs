//! Marker traits that keep the three graphs apart at the type level: the
//! physics knowledge graph, the runtime constraint graph and the execution graph.

use vstd::prelude::*;

verus! {

/// Entity of the physics knowledge graph (persistent, semantic).
pub trait PkqEntity {
    /// Id type of the entity (usually a node id).
    type Id: Copy + Eq + core::hash::Hash;
}

/// Entity of the runtime constraint graph (per-frame constraint rows).
pub trait RuntimeConstraintEntity {
    /// Handle type of the entity (usually a constraint handle).
    type Handle: Copy + Eq + core::hash::Hash;
}

/// Entity of the execution graph (jobs of the task DAG).
pub trait ExecutionEntity {
    /// Job id type.
    type Id: Copy + Eq + core::hash::Hash;
}

} // verus!
