//! Job identities and handles (every job is a whole stage for now).

use vstd::prelude::*;
use crate::scheduler::stage::StageKind;

verus! {

/// Kind of job: a whole stage.
#[derive(Clone, Copy, Debug, PartialEq, Eq, Hash, Structural)]
pub enum JobKind {
    /// A whole stage run as one job.
    Stage(StageKind),
}

impl Default for JobKind {
    /// `Stage(Predict)`, the placeholder kind of the invalid handle.
    fn default() -> (k: JobKind)
        ensures
            k == JobKind::Stage(StageKind::Predict),
    {
        JobKind::Stage(StageKind::Predict)
    }
}

/// Job id; `0` is reserved for "no job".
#[derive(Clone, Copy, Debug, Default, PartialEq, Eq, Hash, Structural)]
pub struct JobId(pub u32);

impl JobId {
    /// The invalid id `0`.
    pub fn invalid() -> (j: JobId)
        ensures
            j.0 == 0,
    {
        JobId(0)
    }

    /// Builds an id directly (for tests).
    pub fn new_for_test(id: u32) -> (j: JobId)
        ensures
            j.0 == id,
    {
        JobId(id)
    }

    /// Whether this is the invalid id.
    pub fn is_invalid(self) -> (r: bool)
        ensures
            r == (self.0 == 0),
    {
        self.0 == 0
    }
}

/// Job handle: id plus kind.
#[derive(Clone, Copy, Debug, PartialEq, Eq, Hash, Structural)]
pub struct JobHandle {
    /// Job id.
    pub id: JobId,
    /// Job kind.
    pub kind: JobKind,
}

impl JobHandle {
    /// The invalid handle: id `0`, kind `Stage(Predict)`.
    pub fn invalid() -> (h: JobHandle)
        ensures
            h.id.0 == 0,
            h.kind == JobKind::Stage(StageKind::Predict),
    {
        JobHandle { id: JobId(0), kind: JobKind::Stage(StageKind::Predict) }
    }

    /// Whether the handle's id is the invalid id.
    pub fn is_invalid(&self) -> (r: bool)
        ensures
            r == (self.id.0 == 0),
    {
        self.id.is_invalid()
    }
}

impl Default for JobHandle {
    /// The invalid handle.
    fn default() -> (h: JobHandle)
        ensures
            h.id.0 == 0,
            h.kind == JobKind::Stage(StageKind::Predict),
    {
        JobHandle::invalid()
    }
}

} // verus!
