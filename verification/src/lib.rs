//! Verified core of the GVPE physics runtime: handles, allocators, the
//! knowledge-graph store and its bounded traversals, the four-stage
//! scheduler, the sweep-and-prune broad phase and the body/island
//! bookkeeping of the dynamics world.

pub mod collision;
pub mod dynamics;
pub mod graph;
pub mod handle;
pub mod marker;
pub mod memory;
pub mod scheduler;
pub mod tags;
pub mod text;

pub use collision::{add_edge, broad_phase, AabbKey, BodyIndex};
pub use dynamics::{BodyStore, BodyStoreError};
pub use graph::{
    BfsOrder, ComponentId, DfsOrder, Edge, EdgeId, Graph, GraphError, GraphResult, GraphStats,
    GraphTraverser, GraphWalker, Node, NodeId, RelationKind, TraversalEvent,
};
pub use handle::{BodyHandle, ConstraintHandle, IslandHandle};
pub use marker::{ExecutionEntity, PkqEntity, RuntimeConstraintEntity};
pub use memory::{Arena, ArenaError, Pool, PoolError, Slab, SlabError, SlabHandle};
pub use scheduler::{
    max_concurrent_stages, outcome_of_reports, CollisionStage, IntegrateStage, JobHandle, JobId, JobKind,
    PredictStage, ScheduleError, Scheduler, SchedulerStats, SequentialPool, SolverStage, Stage,
    StageKind, StageOutput, WorkerPool, WorkerPoolBuilder,
};
pub use tags::{
    check_hull_point_count, ConvexError, DeterminismMode, PhysicsLodTag, ShapeType, SolverTypeId,
    TimeStepper,
};
