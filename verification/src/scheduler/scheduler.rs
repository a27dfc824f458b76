//! [`Scheduler`]: runs the four stages in order on the calling thread.

use vstd::prelude::*;
use vstd::string::StringExecFns;
use crate::handle::IslandHandle;
use crate::scheduler::pool::SequentialPool;
use crate::scheduler::stage::{Stage, StageKind, StageOutput, stage_at, stage_pos, stage_name};

verus! {

/// Why a run stopped.
#[derive(Clone, Copy, Debug, PartialEq, Eq, Structural)]
pub enum ScheduleError {
    /// The stage reported failure.
    StageFailed {
        /// The failed stage.
        kind: StageKind,
    },
    /// No stage of this kind is installed.
    MissingStage(StageKind),
}

/// Message of a schedule error.
pub open spec fn schedule_error_message(e: ScheduleError) -> Seq<char> {
    match e {
        ScheduleError::StageFailed { kind } => "schedule failed at stage "@ + stage_name(kind),
        ScheduleError::MissingStage(kind) => "scheduler missing stage "@ + stage_name(kind),
    }
}

impl ScheduleError {
    /// The error's message.
    pub fn to_string(&self) -> (s: String)
        ensures
            s@ == schedule_error_message(*self),
    {
        match self {
            ScheduleError::StageFailed { kind } => String::from_str("schedule failed at stage ").concat(
                kind.name(),
            ),
            ScheduleError::MissingStage(kind) => String::from_str("scheduler missing stage ").concat(
                kind.name(),
            ),
        }
    }
}

/// Statistics of one [`Scheduler::run`].
#[derive(Clone, Copy, Debug, Default, PartialEq, Eq, Structural)]
pub struct SchedulerStats {
    /// Islands processed, summed over the stages (saturating).
    pub total_islands_processed: u32,
    /// Islands skipped, summed over the stages (saturating).
    pub total_islands_skipped: u32,
    /// Stages that completed.
    pub stages_completed: u32,
    /// Stages that failed (0 or 1: a failure ends the run).
    pub stages_failed: u32,
}

impl SchedulerStats {
    /// Statistics of a run where all four stages succeeded.
    pub fn all_ok(processed: u32, skipped: u32) -> (s: SchedulerStats)
        ensures
            s == (SchedulerStats {
                total_islands_processed: processed,
                total_islands_skipped: skipped,
                stages_completed: 4,
                stages_failed: 0,
            }),
    {
        SchedulerStats {
            total_islands_processed: processed,
            total_islands_skipped: skipped,
            stages_completed: 4,
            stages_failed: 0,
        }
    }
}

/// `a + b`, saturating at `u32::MAX`.
pub open spec fn sat_add(a: u32, b: u32) -> u32 {
    if a + b > u32::MAX {
        u32::MAX
    } else {
        (a + b) as u32
    }
}

/// Statistics after adding one stage's output to `s`.
pub open spec fn accumulate(s: SchedulerStats, out: StageOutput) -> SchedulerStats {
    SchedulerStats {
        total_islands_processed: sat_add(s.total_islands_processed, out.islands_processed),
        total_islands_skipped: sat_add(s.total_islands_skipped, out.islands_skipped),
        stages_completed: if out.failed {
            s.stages_completed
        } else {
            sat_add(s.stages_completed, 1)
        },
        stages_failed: s.stages_failed,
    }
}

/// Outcome of a run that has reached stage position `i` with statistics `s`,
/// given which stages are installed and what the stages from `i` on report
/// (`outs[0]` is what stage `i` reports; `outs` holds `4 - i` reports).
pub open spec fn run_from(
    installed: Seq<bool>,
    i: int,
    s: SchedulerStats,
    outs: Seq<StageOutput>,
) -> Result<SchedulerStats, ScheduleError>
    decreases 4 - i,
{
    if i >= 4 {
        Ok(s)
    } else if !installed[i] {
        Err(ScheduleError::MissingStage(stage_at(i)))
    } else {
        let s2 = accumulate(s, outs[0]);
        if outs[0].failed {
            Err(ScheduleError::StageFailed { kind: stage_at(i) })
        } else {
            run_from(installed, i + 1, s2, outs.drop_first())
        }
    }
}

/// Outcome of a whole run from zeroed statistics.
pub open spec fn run_outcome(installed: Seq<bool>, outs: Seq<StageOutput>) -> Result<
    SchedulerStats,
    ScheduleError,
> {
    run_from(installed, 0, SchedulerStats::default_spec(), outs)
}

impl SchedulerStats {
    /// The statistics after one stage's report is added (counts saturate).
    pub fn absorb(self, out: StageOutput) -> (t: SchedulerStats)
        ensures
            t == accumulate(self, out),
    {
        SchedulerStats {
            total_islands_processed: self.total_islands_processed.saturating_add(out.islands_processed),
            total_islands_skipped: self.total_islands_skipped.saturating_add(out.islands_skipped),
            stages_completed: if out.failed {
                self.stages_completed
            } else {
                self.stages_completed.saturating_add(1)
            },
            stages_failed: self.stages_failed,
        }
    }
}

/// Outcome of a run in which the stages, in run order, are installed as
/// `installed` says and report `reports` (the report of a stage that is not
/// installed, or that comes after the stopping point, is not looked at).
pub fn outcome_of_reports(installed: &[bool], reports: &[StageOutput]) -> (r: Result<SchedulerStats, ScheduleError>)
    requires
        installed@.len() == 4,
        reports@.len() == 4,
    ensures
        r == run_outcome(installed@, reports@),
{
    let kinds = StageKind::all();
    let mut stats = SchedulerStats {
        total_islands_processed: 0,
        total_islands_skipped: 0,
        stages_completed: 0,
        stages_failed: 0,
    };
    let mut i: usize = 0;
    assert(reports@.subrange(0, 4) =~= reports@);
    while i < 4
        invariant
            0 <= i <= 4,
            installed@.len() == 4,
            reports@.len() == 4,
            forall|k: int| 0 <= k < 4 ==> #[trigger] kinds@[k] == stage_at(k),
            run_outcome(installed@, reports@) == run_from(
                installed@,
                i as int,
                stats,
                reports@.subrange(i as int, 4),
            ),
        decreases 4 - i,
    {
        let ghost tail = reports@.subrange(i as int, 4);
        assert(tail[0] == reports@[i as int]);
        if !installed[i] {
            return Err(ScheduleError::MissingStage(kinds[i]));
        }
        let out = reports[i];
        if out.failed {
            return Err(ScheduleError::StageFailed { kind: kinds[i] });
        }
        assert(tail.drop_first() =~= reports@.subrange(i + 1, 4));
        stats = stats.absorb(out);
        i = i + 1;
    }
    Ok(stats)
}

/// A report of a stage that handled nothing.
pub open spec fn idle_output() -> StageOutput {
    StageOutput { islands_processed: 0, islands_skipped: 0, failed: false }
}

impl SchedulerStats {
    /// All-zero statistics.
    pub open spec fn default_spec() -> SchedulerStats {
        SchedulerStats {
            total_islands_processed: 0,
            total_islands_skipped: 0,
            stages_completed: 0,
            stages_failed: 0,
        }
    }
}

/// Stage position `i` lets the run go on: installed, and its report is not
/// a failure.
pub open spec fn stage_passes(installed: Seq<bool>, outs: Seq<StageOutput>, i: int) -> bool {
    installed[i] && !outs[i].failed
}

/// The error a run reports when it stops at stage position `i`.
pub open spec fn stop_error(installed: Seq<bool>, i: int) -> ScheduleError {
    if !installed[i] {
        ScheduleError::MissingStage(stage_at(i))
    } else {
        ScheduleError::StageFailed { kind: stage_at(i) }
    }
}

/// The slot holds a stage that may give report `out` for a run over
/// `islands`.
pub open spec fn stage_reported(slot: Option<Box<dyn Stage>>, islands: &[IslandHandle], out: StageOutput) -> bool {
    slot matches Some(st) && st.reports(islands, out)
}

/// Stage position `k` runs: it is installed and every stage before it
/// passed.
pub open spec fn stage_ran(installed: Seq<bool>, outs: Seq<StageOutput>, k: int) -> bool {
    installed[k] && forall|j: int| 0 <= j < k ==> #[trigger] stage_passes(installed, outs, j)
}

/// From stage position `i` on (with `i` stages completed so far and no
/// failure), the run succeeds exactly when every remaining stage passes,
/// completing all four; otherwise it stops at the first remaining stage that
/// does not pass.
proof fn lemma_run_from(installed: Seq<bool>, outs: Seq<StageOutput>, i: int, s: SchedulerStats)
    requires
        installed.len() == 4,
        outs.len() == 4,
        0 <= i <= 4,
        s.stages_completed == i,
        s.stages_failed == 0,
    ensures
        run_from(installed, i, s, outs.subrange(i, 4)) is Ok <==> (forall|j: int|
            i <= j < 4 ==> #[trigger] stage_passes(installed, outs, j)),
        run_from(installed, i, s, outs.subrange(i, 4)) matches Ok(t) ==> t.stages_completed == 4
            && t.stages_failed == 0,
        run_from(installed, i, s, outs.subrange(i, 4)) is Err ==> exists|j: int|
            i <= j < 4 && !stage_passes(installed, outs, j) && (forall|k: int|
                i <= k < j ==> #[trigger] stage_passes(installed, outs, k)) && run_from(
                installed,
                i,
                s,
                outs.subrange(i, 4),
            ) == Err::<SchedulerStats, ScheduleError>(stop_error(installed, j)),
    decreases 4 - i,
{
    let tail = outs.subrange(i, 4);
    if i < 4 {
        assert(tail[0] == outs[i]);
        if installed[i] && !outs[i].failed {
            let s2 = accumulate(s, outs[i]);
            assert(tail.drop_first() =~= outs.subrange(i + 1, 4));
            lemma_run_from(installed, outs, i + 1, s2);
            if run_from(installed, i + 1, s2, outs.subrange(i + 1, 4)) is Err {
                let j = choose|j: int|
                    i + 1 <= j < 4 && !stage_passes(installed, outs, j) && (forall|k: int|
                        i + 1 <= k < j ==> #[trigger] stage_passes(installed, outs, k)) && run_from(
                        installed,
                        i + 1,
                        s2,
                        outs.subrange(i + 1, 4),
                    ) == Err::<SchedulerStats, ScheduleError>(stop_error(installed, j));
                assert(stage_passes(installed, outs, i));
            } else {
                assert forall|j: int| i <= j < 4 implies #[trigger] stage_passes(installed, outs, j) by {
                    if j > i {
                        assert(stage_passes(installed, outs, j));
                    }
                }
            }
        } else {
            assert(!stage_passes(installed, outs, i));
        }
    }
}

/// A run succeeds exactly when all four stages are installed and none
/// reports failure, and then counts four completed stages and no failure;
/// otherwise it stops at the first stage, in run order, that is missing or
/// failed, and names it (a missing stage wins over a failure report).
pub proof fn law_run_outcome(installed: Seq<bool>, outs: Seq<StageOutput>)
    requires
        installed.len() == 4,
        outs.len() == 4,
    ensures
        run_outcome(installed, outs) is Ok <==> (forall|j: int|
            0 <= j < 4 ==> #[trigger] stage_passes(installed, outs, j)),
        run_outcome(installed, outs) matches Ok(t) ==> t.stages_completed == 4 && t.stages_failed
            == 0,
        run_outcome(installed, outs) is Err ==> exists|j: int|
            0 <= j < 4 && !stage_passes(installed, outs, j) && (forall|k: int|
                0 <= k < j ==> #[trigger] stage_passes(installed, outs, k)) && run_outcome(
                installed,
                outs,
            ) == Err::<SchedulerStats, ScheduleError>(stop_error(installed, j)),
{
    assert(outs.subrange(0, 4) =~= outs);
    lemma_run_from(installed, outs, 0, SchedulerStats::default_spec());
}

/// Four-stage scheduler (one slot per stage kind) over a sequential pool.
pub struct Scheduler {
    stages: Vec<Option<Box<dyn Stage>>>,
    pool: SequentialPool,
}

impl Scheduler {
    /// Four slots, one per stage kind in run order, each empty or holding a
    /// stage of its own kind.
    pub open spec fn slots_by_kind(&self) -> bool {
        &&& self.stages().len() == 4
        &&& forall|i: int|
            0 <= i < 4 ==> (#[trigger] self.stages()[i] matches Some(st) ==> st.spec_kind() == stage_at(i))
    }

    /// Four empty slots.
    fn empty_slots() -> (v: Vec<Option<Box<dyn Stage>>>)
        ensures
            v@.len() == 4,
            forall|i: int| 0 <= i < 4 ==> v@[i] is None,
    {
        let mut v: Vec<Option<Box<dyn Stage>>> = Vec::new();
        v.push(None);
        v.push(None);
        v.push(None);
        v.push(None);
        v
    }

    /// The installed stages, by run position.
    pub closed spec fn stages(&self) -> Seq<Option<Box<dyn Stage>>> {
        self.stages@
    }

    /// Which slots hold a stage, by run position.
    pub closed spec fn installed(&self) -> Seq<bool> {
        self.stages@.map_values(|s: Option<Box<dyn Stage>>| s is Some)
    }

    /// The scheduler's pool.
    pub closed spec fn spec_pool(&self) -> SequentialPool {
        self.pool
    }

    /// Empty scheduler: no stage installed, pool of one worker.
    pub fn new() -> (s: Scheduler)
        ensures
            s.slots_by_kind(),
            s.installed() == seq![false, false, false, false],
            s.spec_pool().configured() == 1,
    {
        let s = Scheduler { stages: Self::empty_slots(), pool: SequentialPool::new() };
        proof {
            assert(s.installed() =~= seq![false, false, false, false]);
        }
        s
    }

    /// Empty scheduler whose pool records `max(n, 1)` workers.
    pub fn with_worker_count(n: u32) -> (s: Scheduler)
        ensures
            s.slots_by_kind(),
            s.installed() == seq![false, false, false, false],
            s.spec_pool().configured() == if n == 0 { 1 } else { n },
    {
        let s = Scheduler {
            stages: Self::empty_slots(),
            pool: SequentialPool::with_configured(n),
        };
        proof {
            assert(s.installed() =~= seq![false, false, false, false]);
        }
        s
    }

    /// Installs `stage` in the slot of its kind (the kind the stage reports);
    /// returns the stage it replaces.
    pub fn install_stage(&mut self, stage: Box<dyn Stage>) -> (r: Option<Box<dyn Stage>>)
        requires
            old(self).slots_by_kind(),
        ensures
            final(self).slots_by_kind(),
            final(self).spec_pool() == old(self).spec_pool(),
            final(self).stages()[stage_pos(stage.spec_kind()) as int] == Some(stage),
            forall|j: int|
                0 <= j < 4 && j != stage_pos(stage.spec_kind()) ==> #[trigger] final(self).stages()[j]
                    == old(self).stages()[j],
            r == old(self).stages()[stage_pos(stage.spec_kind()) as int],
            final(self).installed() == old(self).installed().update(
                stage_pos(stage.spec_kind()) as int,
                true,
            ),
    {
        let kind = stage.kind();
        let idx: usize = match kind {
            StageKind::Predict => 0,
            StageKind::Collision => 1,
            StageKind::Solver => 2,
            StageKind::Integrate => 3,
        };
        let ghost g = Some(stage);
        let mut old_stage = Some(stage);
        std::mem::swap(&mut self.stages[idx], &mut old_stage);
        proof {
            assert(self.stages@[idx as int] == g);
            assert(self.installed() =~= old(self).installed().update(idx as int, true));
        }
        old_stage
    }

    /// Removes and returns the stage of kind `kind`, if installed.
    pub fn take_stage(&mut self, kind: StageKind) -> (r: Option<Box<dyn Stage>>)
        requires
            old(self).slots_by_kind(),
        ensures
            final(self).slots_by_kind(),
            final(self).spec_pool() == old(self).spec_pool(),
            r == old(self).stages()[stage_pos(kind) as int],
            final(self).stages() == old(self).stages().update(stage_pos(kind) as int, None),
            (r is Some) == old(self).installed()[stage_pos(kind) as int],
            final(self).installed() == old(self).installed().update(stage_pos(kind) as int, false),
    {
        let idx: usize = match kind {
            StageKind::Predict => 0,
            StageKind::Collision => 1,
            StageKind::Solver => 2,
            StageKind::Integrate => 3,
        };
        let taken = self.stages[idx].take();
        proof {
            assert(self.installed() =~= old(self).installed().update(idx as int, false));
            assert(self.stages() =~= old(self).stages().update(idx as int, None));
        }
        taken
    }

    /// Whether a stage of kind `kind` is installed.
    pub fn has_stage(&self, kind: StageKind) -> (r: bool)
        requires
            self.slots_by_kind(),
        ensures
            r == self.installed()[stage_pos(kind) as int],
    {
        let idx: usize = match kind {
            StageKind::Predict => 0,
            StageKind::Collision => 1,
            StageKind::Solver => 2,
            StageKind::Integrate => 3,
        };
        self.stages[idx].is_some()
    }

    /// The scheduler's worker pool.
    pub fn pool(&self) -> (p: &SequentialPool)
        ensures
            *p == self.spec_pool(),
    {
        &self.pool
    }

    /// Runs one frame: `Predict`, `Collision`, `Solver`, `Integrate` in order,
    /// each installed stage over `islands`. A missing stage stops the run
    /// with `MissingStage`, a failed stage with `StageFailed`; the statistics
    /// sum the stages' counts (saturating). The result is the outcome of the
    /// reports of the stages that ran, each a report its stage may give for
    /// `islands`; the stages after the stopping point do not run.
    pub fn run(&mut self, islands: &[IslandHandle]) -> (r: Result<SchedulerStats, ScheduleError>)
        requires
            old(self).slots_by_kind(),
        ensures
            final(self).slots_by_kind(),
            final(self).installed() == old(self).installed(),
            final(self).spec_pool() == old(self).spec_pool(),
            exists|outs: Seq<StageOutput>|
                {
                    &&& outs.len() == 4
                    &&& r == run_outcome(old(self).installed(), outs)
                    &&& forall|k: int|
                        0 <= k < 4 && #[trigger] stage_ran(old(self).installed(), outs, k)
                            ==> stage_reported(old(self).stages()[k], islands, outs[k])
                    &&& forall|k: int|
                        0 <= k < 4 && !stage_ran(old(self).installed(), outs, k)
                            ==> #[trigger] final(self).stages()[k] == old(self).stages()[k]
                },
            !old(self).installed()[0] ==> r == Err::<SchedulerStats, ScheduleError>(
                ScheduleError::MissingStage(StageKind::Predict),
            ),
    {
        let ghost installed = self.installed();
        let ghost before = self.stages();
        let ghost mut outs: Seq<StageOutput> = Seq::empty();
        let mut stats = SchedulerStats {
            total_islands_processed: 0,
            total_islands_skipped: 0,
            stages_completed: 0,
            stages_failed: 0,
        };
        let kinds = StageKind::all();
        let mut i: usize = 0;
        while i < 4
            invariant
                0 <= i <= 4,
                self.slots_by_kind(),
                self.installed() == installed,
                installed == old(self).installed(),
                before == old(self).stages(),
                before.len() == 4,
                installed.len() == 4,
                self.pool == old(self).pool,
                outs.len() == i,
                forall|k: int| 0 <= k < 4 ==> #[trigger] kinds@[k] == stage_at(k),
                forall|k: int| 0 <= k < i ==> #[trigger] stage_passes(installed, outs, k),
                forall|k: int|
                    0 <= k < i ==> stage_reported(#[trigger] before[k], islands, outs[k]),
                forall|k: int| i <= k < 4 ==> #[trigger] self.stages()[k] == before[k],
                forall|tail: Seq<StageOutput>|
                    run_outcome(installed, outs + tail) == run_from(installed, i as int, stats, tail),
            decreases 4 - i,
        {
            let kind = kinds[i];
            let ghost pre = self.stages();
            let mut slot: Option<Box<dyn Stage>> = None;
            std::mem::swap(&mut self.stages[i], &mut slot);
            assert(forall|k: int| 0 <= k < 4 && k != i ==> #[trigger] self.stages()[k] == pre[k]);
            let mut st = match slot {
                Some(st) => st,
                None => {
                    proof {
                        assert(self.stages()[i as int] is None);
                        assert(self.installed() =~= installed);
                        let pad = Seq::new((4 - i) as nat, |k: int| idle_output());
                        let full = outs + pad;
                        assert(run_outcome(installed, full) == run_from(installed, i as int, stats, pad));
                        assert(full.len() == 4);
                        assert forall|k: int| 0 <= k < 4 && #[trigger] stage_ran(installed, full, k) implies stage_reported(before[k], islands, full[k]) by {
                            if k >= i {
                                assert(!installed[i as int]);
                                if k > i {
                                    assert(!stage_passes(installed, full, i as int));
                                }
                            } else {
                                assert(full[k] == outs[k]);
                            }
                        }
                        assert forall|j: int| 0 <= j < i implies #[trigger] stage_passes(installed, full, j) by {
                            assert(full[j] == outs[j]);
                            assert(stage_passes(installed, outs, j));
                        }
                        assert forall|k: int| 0 <= k < 4 && !stage_ran(installed, full, k) implies #[trigger] self.stages()[k]
                            == before[k] by {
                            if k < i {
                                assert(stage_passes(installed, full, k));
                                assert forall|j: int| 0 <= j < k implies #[trigger] stage_passes(installed, full, j) by {
                                    assert(stage_passes(installed, full, j));
                                }
                                assert(stage_ran(installed, full, k));
                            }
                        }
                    }
                    return Err(ScheduleError::MissingStage(kind));
                },
            };
            let ghost st0 = st;
            let out = st.run(islands);
            let mut back = Some(st);
            std::mem::swap(&mut self.stages[i], &mut back);
            proof {
                assert(before[i as int] == Some(st0));
                assert(st0.spec_kind() == stage_at(i as int));
                assert(st.spec_kind() == stage_at(i as int));
                assert(stage_reported(before[i as int], islands, out));
                assert(forall|k: int| 0 <= k < 4 && k != i ==> #[trigger] self.stages()[k] == pre[k]);
                assert(self.stages()[i as int] is Some);
                assert(self.installed() =~= installed);
                assert forall|k: int| 0 <= k < 4 implies (#[trigger] self.stages()[k] matches Some(t)
                    ==> t.spec_kind() == stage_at(k)) by {}
            }
            if out.failed {
                proof {
                    let pad = seq![out] + Seq::new((3 - i) as nat, |k: int| idle_output());
                    let full = outs + pad;
                    assert(pad[0] == out);
                    assert(full[i as int] == out);
                    assert(run_outcome(installed, full) == run_from(installed, i as int, stats, pad));
                    assert(full.len() == 4);
                    assert forall|j: int| 0 <= j < i implies #[trigger] stage_passes(installed, full, j) by {
                        assert(full[j] == outs[j]);
                        assert(stage_passes(installed, outs, j));
                    }
                    assert forall|k: int| 0 <= k < 4 && #[trigger] stage_ran(installed, full, k) implies stage_reported(before[k], islands, full[k]) by {
                        if k > i {
                            assert(!stage_passes(installed, full, i as int));
                        } else if k < i {
                            assert(full[k] == outs[k]);
                        }
                    }
                    assert forall|k: int| 0 <= k < 4 && !stage_ran(installed, full, k) implies #[trigger] self.stages()[k]
                        == before[k] by {
                        if k <= i {
                            assert(installed[k]);
                            assert forall|j: int| 0 <= j < k implies #[trigger] stage_passes(installed, full, j) by {
                                assert(stage_passes(installed, full, j));
                            }
                            assert(stage_ran(installed, full, k));
                        }
                    }
                }
                return Err(ScheduleError::StageFailed { kind });
            }
            proof {
                assert(installed[i as int]);
                assert forall|tail: Seq<StageOutput>|
                    run_outcome(installed, outs.push(out) + tail) == run_from(installed, i + 1, accumulate(stats, out), tail) by {
                    let t2 = seq![out] + tail;
                    assert(outs.push(out) + tail == outs + t2);
                    assert(t2.drop_first() == tail);
                    assert(t2[0] == out);
                    assert(run_outcome(installed, outs + t2) == run_from(installed, i as int, stats, t2));
                    assert(run_from(installed, i as int, stats, t2) == run_from(installed, i + 1, accumulate(stats, out), tail));
                }
            }
            stats = stats.absorb(out);
            proof {
                let o2 = outs.push(out);
                assert forall|k: int| 0 <= k < i + 1 implies #[trigger] stage_passes(installed, o2, k) by {
                    if k < i {
                        assert(o2[k] == outs[k]);
                        assert(stage_passes(installed, outs, k));
                    }
                }
                assert forall|k: int| 0 <= k < i + 1 implies stage_reported(#[trigger] before[k], islands, o2[k]) by {
                    if k < i {
                        assert(o2[k] == outs[k]);
                    }
                }
                outs = o2;
            }
            i = i + 1;
        }
        proof {
            assert(run_outcome(installed, outs + Seq::<StageOutput>::empty()) == run_from(installed, 4, stats, Seq::<StageOutput>::empty()));
            assert(outs + Seq::<StageOutput>::empty() == outs);
            assert forall|k: int| 0 <= k < 4 && #[trigger] stage_ran(installed, outs, k) implies stage_reported(before[k], islands, outs[k]) by {}
            assert forall|k: int| 0 <= k < 4 && !stage_ran(installed, outs, k) implies #[trigger] self.stages()[k]
                == before[k] by {
                assert forall|j: int| 0 <= j < k implies #[trigger] stage_passes(installed, outs, j) by {
                    assert(stage_passes(installed, outs, j));
                }
                assert(stage_passes(installed, outs, k));
            }
        }
        Ok(stats)
    }
}

impl Default for Scheduler {
    /// Same as [`Scheduler::new`].
    fn default() -> (s: Scheduler)
        ensures
            s.slots_by_kind(),
            s.installed() == seq![false, false, false, false],
            s.spec_pool().configured() == 1,
    {
        Scheduler::new()
    }
}

} // verus!
