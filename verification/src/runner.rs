//! The life of one task once it is handed out: which backend runs it, and
//! whether a failed run is tried again.

use crate::backends::{conclude, error_text, outcome_of, BackendKind, ProcessEvent};
use crate::scheduler::{Dispatch, Outcome};
use vstd::prelude::*;

verus! {

/// The backend for a selector. Only the local backend can be selected;
/// any other selector falls back to it.
pub fn select_backend(selector: &str) -> (r: BackendKind)
    ensures
        r == BackendKind::Local,
{
    BackendKind::Local
}

/// The runs of one task: how many may still be tried after a failure.
#[derive(Clone, Copy, Debug)]
pub struct Runner {
    pub kind: BackendKind,
    /// How many times a failed run is tried again at most.
    pub retries: u32,
    /// How many of them have been used.
    pub used: u32,
}

/// What to do after a run.
#[derive(Debug)]
pub enum RunnerStep {
    /// Run the same command once more.
    Retry,
    /// Report this outcome.
    Done(Outcome),
}

impl Runner {
    /// No more retries were used than are allowed.
    pub open spec fn wf(&self) -> bool {
        self.used <= self.retries
    }

    /// The number of the run under way, the first being 1.
    pub open spec fn attempt(&self) -> nat {
        (self.used + 1) as nat
    }

    /// The runner of a task that was just handed out.
    pub fn new(job: &Dispatch) -> (r: Runner)
        ensures
            r.wf(),
            r.kind == BackendKind::Local,
            r.retries == job.retries,
            r.used == 0,
    {
        Runner { kind: select_backend(job.backend.as_str()), retries: job.retries, used: 0 }
    }

    /// Decides what follows a run. A command that ran to its end is done,
    /// whatever its exit code. A run that failed is tried again while
    /// retries are left, and is done with its error once they are used up.
    pub fn after_run(&mut self, event: ProcessEvent) -> (r: RunnerStep)
        requires
            old(self).wf(),
        ensures
            final(self).wf(),
            final(self).kind == old(self).kind,
            final(self).retries == old(self).retries,
            match outcome_of(event) {
                Ok(out) => final(self).used == old(self).used && r == RunnerStep::Done(
                    Outcome::Exited { stdout: out.stdout, stderr: out.stderr, code: out.exit_code },
                ),
                Err(e) => if old(self).used < old(self).retries {
                    r is Retry && final(self).used == old(self).used + 1
                } else {
                    &&& final(self).used == old(self).used
                    &&& r matches RunnerStep::Done(Outcome::Errored { message })
                    &&& message@ == error_text(e, old(self).kind)
                },
            },
    {
        match conclude(event) {
            Ok(out) => RunnerStep::Done(
                Outcome::Exited { stdout: out.stdout, stderr: out.stderr, code: out.exit_code },
            ),
            Err(e) => {
                if self.used < self.retries {
                    self.used = self.used + 1;
                    RunnerStep::Retry
                } else {
                    RunnerStep::Done(Outcome::Errored { message: e.message(self.kind) })
                }
            },
        }
    }
}

/// A task with `retries` retries is run `retries + 1` times at most: after
/// that many failures no retry is left.
pub proof fn law_attempts_bounded(r: Runner)
    requires
        r.wf(),
    ensures
        r.attempt() <= r.retries + 1,
{
}

} // verus!
