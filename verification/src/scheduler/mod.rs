//! Four-stage frame scheduler (sequential), job handles and worker pools.

pub mod job;
pub mod pool;
pub mod scheduler;
pub mod stage;

pub use job::{JobHandle, JobId, JobKind};
pub use pool::{max_concurrent_stages, SequentialPool, WorkerPool, WorkerPoolBuilder};
pub use scheduler::{outcome_of_reports, ScheduleError, Scheduler, SchedulerStats};
pub use stage::{CollisionStage, IntegrateStage, PredictStage, SolverStage, Stage, StageKind, StageOutput};
