//! Worker pools: the sequential pool is the only implementation for now.

use vstd::prelude::*;

verus! {

/// Worker pool abstraction between the scheduler and a thread pool.
pub trait WorkerPool {
    /// Number of workers.
    fn worker_count(&self) -> u32;

    /// Whether the pool runs jobs one after another.
    fn is_sequential(&self) -> bool;
}

/// Builder of worker pools (records the desired worker count).
#[derive(Clone, Copy, Debug, Default)]
pub struct WorkerPoolBuilder {
    desired_workers: u32,
}

impl WorkerPoolBuilder {
    /// Worker count the builder records.
    pub closed spec fn desired(self) -> u32 {
        self.desired_workers
    }

    /// New builder asking for one worker.
    pub fn new() -> (b: WorkerPoolBuilder)
        ensures
            b.desired() == 1,
    {
        WorkerPoolBuilder { desired_workers: 1 }
    }

    /// Records `n` as the desired worker count (execution stays sequential).
    pub fn worker_count(self, n: u32) -> (b: WorkerPoolBuilder)
        ensures
            b.desired() == n,
    {
        WorkerPoolBuilder { desired_workers: n }
    }

    /// Builds the sequential pool, recording `max(desired, 1)` workers.
    pub fn build_sequential(self) -> (p: SequentialPool)
        ensures
            p.configured() == if self.desired() == 0 { 1 } else { self.desired() },
    {
        let n = if self.desired_workers == 0 { 1 } else { self.desired_workers };
        SequentialPool { configured_workers: n }
    }

    /// Builds the pool (the same as [`WorkerPoolBuilder::build_sequential`]).
    pub fn build(self) -> (p: SequentialPool)
        ensures
            p.configured() == if self.desired() == 0 { 1 } else { self.desired() },
    {
        self.build_sequential()
    }
}

/// Sequential pool: one worker; `configured_workers` records what was asked for.
#[derive(Clone, Copy, Debug)]
pub struct SequentialPool {
    pub(crate) configured_workers: u32,
}

impl SequentialPool {
    /// Worker count recorded at construction.
    pub closed spec fn configured(self) -> u32 {
        self.configured_workers
    }

    /// Pool recording one worker.
    pub fn new() -> (p: SequentialPool)
        ensures
            p.configured() == 1,
    {
        SequentialPool { configured_workers: 1 }
    }

    /// Pool recording `max(n, 1)` workers.
    pub(crate) fn with_configured(n: u32) -> (p: SequentialPool)
        ensures
            p.configured() == if n == 0 { 1 } else { n },
    {
        SequentialPool { configured_workers: if n == 0 { 1 } else { n } }
    }

    /// Worker count recorded at construction.
    pub fn configured_workers(self) -> (n: u32)
        ensures
            n == self.configured(),
    {
        self.configured_workers
    }
}

impl Default for SequentialPool {
    /// Same as [`SequentialPool::new`].
    fn default() -> (p: SequentialPool)
        ensures
            p.configured() == 1,
    {
        SequentialPool::new()
    }
}

impl WorkerPool for SequentialPool {
    /// Always one worker.
    fn worker_count(&self) -> (n: u32)
        ensures
            n == 1,
    {
        1
    }

    /// Always sequential.
    fn is_sequential(&self) -> (b: bool)
        ensures
            b,
    {
        true
    }
}

/// Theoretical parallelism of the four stages when every stage fans out.
pub fn max_concurrent_stages() -> (n: u32)
    ensures
        n == 4,
{
    4
}

} // verus!
