//! Errors of the knowledge-graph store.

use vstd::prelude::*;
use crate::graph::edge::EdgeId;
use crate::graph::node::NodeId;

verus! {

/// Errors of the knowledge-graph store.
#[derive(Clone, Copy, Debug, PartialEq, Eq)]
pub enum GraphError {
    /// No node has this id.
    UnknownNode(NodeId),
    /// No edge has this id.
    UnknownEdge(EdgeId),
    /// An edge end names no node: `(id, "src" or "dst")`.
    UnknownEndpoint(NodeId, &'static str),
    /// A node with this id already exists.
    DuplicateNode(NodeId),
    /// An edge with this id already exists.
    DuplicateEdge(EdgeId),
    /// A bounded traversal was asked for `max_depth == 0`.
    ZeroMaxDepth(usize),
}

/// Result type of the knowledge-graph store.
pub type GraphResult<T> = Result<T, GraphError>;

} // verus!
