//! What is decided when an attempt that cannot be stopped exceeds its time.

use super::attempt::{self, emit_closing_events, Attempted};
use super::events::AttemptEventSink;
use super::outcome::AttemptOutcome;
use crate::admission::AdmissionController;
use crate::context::RunContext;
use crate::error::TaskError;
use crate::slot::Slot;
use vstd::prelude::*;

verus! {

/// Tells whether an attempt that was given up on still runs.
pub trait ZombieObserver {
    /// Whether one still runs.
    spec fn live(&self) -> bool;

    /// Whether one still runs.
    fn has_live_zombie(&self) -> (r: bool)
        ensures
            r == self.live(),
    ;
}

impl ZombieObserver for AdmissionController {
    open spec fn live(&self) -> bool {
        self@.zombies.len() > 0
    }

    fn has_live_zombie(&self) -> (r: bool) {
        self.zombie_count() > 0
    }
}

/// How an attempt that is raced against its deadline ends: with what the work returned, if
/// it has, even where the deadline has passed too; timed out, if only the deadline has
/// passed; and not yet, if neither is so.
#[must_use]
pub fn race<O>(work: Option<Result<O, TaskError>>, deadline_passed: bool) -> (r: Option<Attempted<O>>)
    ensures
        match work {
            Some(result) => r == Some(Attempted::Returned(result)),
            None => if deadline_passed {
                r == Some(Attempted::<O>::TimedOut)
            } else {
                r is None
            },
        },
{
    match work {
        Some(result) => Some(Attempted::Returned(result)),
        None => if deadline_passed {
            Some(Attempted::TimedOut)
        } else {
            None
        },
    }
}

/// The decision on an attempt on a thread that exceeded its time. The attempt is decided
/// at once; its work runs on, holds its permit until it returns, and can leave nothing.
#[derive(Debug, Clone, Copy, PartialEq, Eq, Structural)]
pub struct TimeoutDecision {
    outcome: AttemptOutcome,
}

impl TimeoutDecision {
    /// What was decided.
    pub closed spec fn decided(self) -> AttemptOutcome {
        self.outcome
    }

    /// Decides that the attempt timed out, and leaves its closing records.
    #[must_use]
    pub fn mark_blocking_timed_out<P, R, S: AttemptEventSink>(node: &str, ctx: &RunContext<P, R>, sink: &mut S) -> (r:
        Self)
        ensures
            r.decided() == AttemptOutcome::TimedOut,
            final(sink).log() == old(sink).log() + attempt::closing(node@, ctx@.attempt, AttemptOutcome::TimedOut),
    {
        let outcome = AttemptOutcome::TimedOut;
        emit_closing_events(node, ctx.attempt(), outcome, sink);
        TimeoutDecision { outcome }
    }

    /// What was decided.
    #[must_use]
    pub fn outcome(self) -> (r: AttemptOutcome)
        ensures
            r == self.decided(),
    {
        self.outcome
    }

    /// What keeps the late result of the attempt out.
    #[must_use]
    pub fn barrier(self) -> (r: LateResultBarrier)
    {
        LateResultBarrier { closed: () }
    }

    /// Whether another attempt may start: not before the work of this one has returned.
    #[must_use]
    pub fn retry_may_start<Z: ZombieObserver>(self, zombies: &Z) -> (r: bool)
        ensures
            r == (self.decided().retryable() && !zombies.live()),
    {
        self.outcome.is_retry_eligible() && !zombies.has_live_zombie()
    }
}

/// Keeps the late result of an attempt out: whatever it computes is dropped.
#[derive(Debug, Clone, Copy)]
pub struct LateResultBarrier {
    closed: (),
}

impl LateResultBarrier {
    /// Refuses to fill the slot, and drops the value.
    #[must_use]
    pub fn fill_slot<O>(&self, _slot: &Slot<O>, value: O) -> (r: bool)
        ensures
            !r,
    {
        let _dropped = value;
        false
    }

    /// Refuses a write to the scratch store.
    #[must_use]
    pub fn write_scratch(&self) -> (r: bool)
        ensures
            !r,
    {
        false
    }
}

} // verus!
