//! The four stages of a frame: `Predict`, `Collision`, `Solver`, `Integrate`.

use vstd::prelude::*;
use crate::handle::IslandHandle;

verus! {

/// What one stage reports after running.
#[derive(Clone, Copy, Debug, Default, PartialEq, Eq, Structural)]
pub struct StageOutput {
    /// Islands processed.
    pub islands_processed: u32,
    /// Islands skipped (sleeping or empty).
    pub islands_skipped: u32,
    /// Whether the stage failed.
    pub failed: bool,
}

impl StageOutput {
    /// The zero output.
    pub fn new() -> (o: StageOutput)
        ensures
            o == (StageOutput { islands_processed: 0, islands_skipped: 0, failed: false }),
    {
        StageOutput { islands_processed: 0, islands_skipped: 0, failed: false }
    }

    /// Every island skipped (the legal case of an empty island set).
    pub fn all_skipped(islands_skipped: u32) -> (o: StageOutput)
        ensures
            o == (StageOutput { islands_processed: 0, islands_skipped, failed: false }),
    {
        StageOutput { islands_processed: 0, islands_skipped, failed: false }
    }

    /// Successful output after processing `islands_processed` islands.
    pub fn ok(islands_processed: u32) -> (o: StageOutput)
        ensures
            o == (StageOutput { islands_processed, islands_skipped: 0, failed: false }),
    {
        StageOutput { islands_processed, islands_skipped: 0, failed: false }
    }

    /// Failed output.
    pub fn failed() -> (o: StageOutput)
        ensures
            o == (StageOutput { islands_processed: 0, islands_skipped: 0, failed: true }),
    {
        StageOutput { islands_processed: 0, islands_skipped: 0, failed: true }
    }

    /// Islands handled in total (processed plus skipped).
    pub fn total(self) -> (n: u32)
        requires
            self.islands_processed + self.islands_skipped <= u32::MAX,
        ensures
            n == self.islands_processed + self.islands_skipped,
    {
        self.islands_processed + self.islands_skipped
    }
}

/// Stage kinds, in the order the scheduler runs them.
#[derive(Clone, Copy, Debug, PartialEq, Eq, Hash, Structural)]
pub enum StageKind {
    /// Stage 1: forces, gravity, inertial prediction.
    Predict,
    /// Stage 2: broad and narrow phase, contact manifolds.
    Collision,
    /// Stage 3: constraint solving.
    Solver,
    /// Stage 4: position and velocity update.
    Integrate,
}

/// Position of a stage kind in the run order.
pub open spec fn stage_pos(k: StageKind) -> nat {
    match k {
        StageKind::Predict => 0,
        StageKind::Collision => 1,
        StageKind::Solver => 2,
        StageKind::Integrate => 3,
    }
}

/// The stage kind at position `i` of the run order (`i < 4`).
pub open spec fn stage_at(i: int) -> StageKind {
    if i == 0 {
        StageKind::Predict
    } else if i == 1 {
        StageKind::Collision
    } else if i == 2 {
        StageKind::Solver
    } else {
        StageKind::Integrate
    }
}

/// The stage run just before `k`: the one a position earlier, none for the
/// first.
pub open spec fn prev_stage(k: StageKind) -> Option<StageKind> {
    if stage_pos(k) == 0 {
        None
    } else {
        Some(stage_at(stage_pos(k) - 1))
    }
}

/// The stage run just after `k`: the one a position later, none for the
/// last.
pub open spec fn next_stage(k: StageKind) -> Option<StageKind> {
    if stage_pos(k) == 3 {
        None
    } else {
        Some(stage_at(stage_pos(k) + 1int))
    }
}

/// The stage met after following `next_stage` `n` times from `k`, if any.
pub open spec fn stage_after(k: StageKind, n: nat) -> Option<StageKind>
    decreases n,
{
    if n == 0 {
        Some(k)
    } else {
        match next_stage(k) {
            Some(j) => stage_after(j, (n - 1) as nat),
            None => None,
        }
    }
}

/// The stages form one chain in both directions: `b` follows `a` exactly
/// when `a` precedes `b`; the chain starts at `Predict`, which has no
/// predecessor, ends at `Integrate`, which has no successor, and holds all
/// four stages.
pub proof fn law_stage_chain(a: StageKind, b: StageKind)
    ensures
        next_stage(a) == Some(b) <==> prev_stage(b) == Some(a),
        prev_stage(StageKind::Predict) is None,
        next_stage(StageKind::Integrate) is None,
        stage_after(StageKind::Predict, 3) == Some(StageKind::Integrate),
        stage_after(StageKind::Predict, 4) is None,
        stage_at(stage_pos(a) as int) == a,
{
    reveal_with_fuel(stage_after, 5);
}

impl StageKind {
    /// All four stages, in run order.
    pub fn all() -> (a: [StageKind; 4])
        ensures
            forall|i: int| 0 <= i < 4 ==> #[trigger] a@[i] == stage_at(i),
    {
        [StageKind::Predict, StageKind::Collision, StageKind::Solver, StageKind::Integrate]
    }

    /// Position of this stage in the run order (always `Some`, in `0..=3`).
    pub fn index(self) -> (r: Option<usize>)
        ensures
            r == Some(stage_pos(self) as usize),
    {
        match self {
            StageKind::Predict => Some(0),
            StageKind::Collision => Some(1),
            StageKind::Solver => Some(2),
            StageKind::Integrate => Some(3),
        }
    }

    /// The stage run just before this one (`None` for `Predict`).
    pub fn predecessor(self) -> (r: Option<StageKind>)
        ensures
            r == prev_stage(self),
    {
        match self {
            StageKind::Predict => None,
            StageKind::Collision => Some(StageKind::Predict),
            StageKind::Solver => Some(StageKind::Collision),
            StageKind::Integrate => Some(StageKind::Solver),
        }
    }

    /// The stage run just after this one (`None` for `Integrate`).
    pub fn successor(self) -> (r: Option<StageKind>)
        ensures
            r == next_stage(self),
    {
        match self {
            StageKind::Predict => Some(StageKind::Collision),
            StageKind::Collision => Some(StageKind::Solver),
            StageKind::Solver => Some(StageKind::Integrate),
            StageKind::Integrate => None,
        }
    }

    /// Name of the stage.
    pub fn name(self) -> (s: &'static str)
        ensures
            s@ == stage_name(self),
    {
        match self {
            StageKind::Predict => "Predict",
            StageKind::Collision => "Collision",
            StageKind::Solver => "Solver",
            StageKind::Integrate => "Integrate",
        }
    }
}

/// Name of a stage kind, as printed in messages.
pub open spec fn stage_name(k: StageKind) -> Seq<char> {
    match k {
        StageKind::Predict => "Predict"@,
        StageKind::Collision => "Collision"@,
        StageKind::Solver => "Solver"@,
        StageKind::Integrate => "Integrate"@,
    }
}

/// A stage: implemented by the engine's users. `run` returns once the stage
/// has completely finished. A stage's kind is fixed: running it does not
/// change it.
pub trait Stage {
    /// The kind the stage reports.
    spec fn spec_kind(&self) -> StageKind;

    /// Whether `out` is a report this stage, in its present state, may give
    /// for a run over `islands`.
    spec fn reports(&self, islands: &[IslandHandle], out: StageOutput) -> bool;

    /// Which stage this is.
    fn kind(&self) -> (k: StageKind)
        ensures
            k == self.spec_kind(),
    ;

    /// Runs the stage over the active islands of this frame.
    fn run(&mut self, islands: &[IslandHandle]) -> (out: StageOutput)
        ensures
            old(self).reports(islands, out),
            final(self).spec_kind() == old(self).spec_kind(),
    ;
}

/// Marker for the `Predict` stage.
#[derive(Clone, Copy, Debug, Default)]
pub struct PredictStage;

/// Marker for the `Collision` stage.
#[derive(Clone, Copy, Debug, Default)]
pub struct CollisionStage;

/// Marker for the `Solver` stage.
#[derive(Clone, Copy, Debug, Default)]
pub struct SolverStage;

/// Marker for the `Integrate` stage.
#[derive(Clone, Copy, Debug, Default)]
pub struct IntegrateStage;

} // verus!
