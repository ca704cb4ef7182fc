//! The worker pool's supervision rule.
//!
//! A pool keeps a fixed number of worker threads alive. Workers only die
//! when a task they host panics; the rule that keeps the pool stable is
//! that exactly such an exit spawns one replacement. The bookkeeping of
//! that rule lives here, verified: after any sequence of task outcomes
//! the number of live workers equals the number the pool was built with.
//! The threads themselves, and the shared task queue they drain, stand
//! outside the library.

use vstd::prelude::*;
use crate::error::KvsError;

verus! {

/// How a task ended on its worker.
#[derive(Debug, Clone, Copy, PartialEq, Eq, Structural)]
pub enum TaskOutcome {
    /// The task ran to completion; its worker lives on.
    Completed,
    /// The task panicked, tearing its worker down.
    Panicked,
}

/// The supervision ledger of a worker pool.
pub struct PoolSupervisor {
    target: u32,
    live: u32,
}

impl PoolSupervisor {
    /// The number of workers the pool was built to hold.
    pub closed spec fn target_workers(&self) -> u32 {
        self.target
    }

    /// The number of workers alive now.
    pub closed spec fn live_workers(&self) -> u32 {
        self.live
    }

    /// The pool's invariant: full strength, and never empty.
    pub open spec fn wf(&self) -> bool {
        &&& self.live_workers() == self.target_workers()
        &&& self.target_workers() >= 1
    }

    /// Start supervising a pool of `n` workers; `n` must be at least one.
    pub fn new(n: u32) -> (r: Result<PoolSupervisor, KvsError>)
        ensures
            r is Ok <==> n >= 1,
            (match r {
                Ok(p) => p.wf() && p.target_workers() == n,
                Err(e) => e == KvsError::Io,
            }),
    {
        if n == 0 {
            Err(KvsError::Io)
        } else {
            Ok(PoolSupervisor { target: n, live: n })
        }
    }

    /// Record that a worker finished hosting a task, and decide whether a
    /// replacement worker must be spawned: exactly when the task
    /// panicked, so the worker count is restored either way.
    pub fn worker_finished(&mut self, outcome: TaskOutcome) -> (respawn: bool)
        requires
            old(self).wf(),
        ensures
            final(self).wf(),
            final(self).target_workers() == old(self).target_workers(),
            final(self).live_workers() == old(self).live_workers(),
            respawn == (outcome is Panicked),
    {
        match outcome {
            TaskOutcome::Completed => false,
            TaskOutcome::Panicked => {
                // the hosting worker is gone; its replacement comes up
                self.live = self.live - 1;
                self.live = self.live + 1;
                true
            }
        }
    }
}

} // verus!
