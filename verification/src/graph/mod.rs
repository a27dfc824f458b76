//! In-memory store and bounded traversals of the physics knowledge graph.

pub mod bfs_reach;
pub mod callback_laws;
pub mod components;
pub mod dfs_reach;
pub mod edge;
pub mod error;
pub mod graph;
pub mod node;
pub mod traversal_laws;
pub mod walker;

pub use edge::{Edge, EdgeId, RelationKind};
pub use error::{GraphError, GraphResult};
pub use graph::{Graph, GraphStats};
pub use node::{Node, NodeId};
pub use walker::{BfsOrder, ComponentId, DfsOrder, GraphTraverser, GraphWalker, TraversalEvent};
