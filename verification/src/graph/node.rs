//! Node ids and the [`Node`] trait of knowledge-graph payloads.

use vstd::prelude::*;
use vstd::string::StringExecFns;
use crate::text::{hex_digits, hex_text};

verus! {

/// Node id of the physics knowledge graph (unique within a graph).
#[derive(Clone, Copy, Debug, Default, PartialEq, Eq, Hash, PartialOrd, Ord, Structural)]
pub struct NodeId(pub u64);

impl NodeId {
    /// Builds a node id.
    pub fn new(id: u64) -> (n: NodeId)
        ensures
            n.0 == id,
    {
        NodeId(id)
    }

    /// The raw `u64`.
    pub fn get(self) -> (r: u64)
        ensures
            r == self.0,
    {
        self.0
    }

    /// Text of the id: `NodeId(0x` and the id in 16 lowercase hex digits, then `)`.
    pub fn to_string(&self) -> (s: String)
        ensures
            s@ == "NodeId(0x"@ + hex_digits(self.0 as nat, 16) + ")"@,
    {
        String::from_str("NodeId(0x").concat(hex_text(self.0, 16).as_str()).concat(")")
    }

    /// The sentinel id `0` ("no node").
    pub fn invalid() -> (n: NodeId)
        ensures
            n.0 == 0,
    {
        NodeId(0)
    }
}

/// Node payload of the knowledge graph, implemented by the graph's users.
///
/// `id` must be stable: the graph records it when the node is added.
pub trait Node: core::fmt::Debug + Clone {
    /// The id the node reports.
    spec fn spec_id(&self) -> NodeId;

    /// The node's stable id.
    fn id(&self) -> (r: NodeId)
        ensures
            r == self.spec_id(),
    ;

    /// Human-readable label (for diagnostics).
    fn label(&self) -> &'static str;
}

} // verus!
