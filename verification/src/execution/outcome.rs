//! What the result of an attempt means.

use crate::context::TerminalState;
use crate::error::TaskErrorClass;
use vstd::prelude::*;

verus! {

/// What an attempt came to.
#[derive(Debug, Clone, Copy, PartialEq, Eq, Structural)]
#[non_exhaustive]
pub enum AttemptOutcome {
    /// The work returned a value.
    Succeeded,
    /// A failure that retrying cannot fix.
    PermanentFailure,
    /// A failure that may be retried.
    RetryEligibleFailure,
    /// The task decided that there is nothing to do.
    Skipped,
    /// The attempt exceeded its time.
    TimedOut,
}

impl AttemptOutcome {
    /// The outcome of an error of a class.
    pub open spec fn of_class(class: TaskErrorClass) -> Self {
        match class {
            TaskErrorClass::Permanent => AttemptOutcome::PermanentFailure,
            TaskErrorClass::Retryable => AttemptOutcome::RetryEligibleFailure,
            TaskErrorClass::Skip => AttemptOutcome::Skipped,
        }
    }

    /// The state that a node ends in with this outcome.
    pub open spec fn state(self) -> TerminalState {
        match self {
            AttemptOutcome::Succeeded => TerminalState::Succeeded,
            AttemptOutcome::PermanentFailure => TerminalState::Failed,
            AttemptOutcome::RetryEligibleFailure => TerminalState::Failed,
            AttemptOutcome::Skipped => TerminalState::Skipped,
            AttemptOutcome::TimedOut => TerminalState::TimedOut,
        }
    }

    /// Whether there may be another attempt.
    pub open spec fn retryable(self) -> bool {
        self == AttemptOutcome::RetryEligibleFailure || self == AttemptOutcome::TimedOut
    }

    /// Whether the attempt failed. A skip is no failure.
    pub open spec fn failed(self) -> bool {
        self == AttemptOutcome::PermanentFailure || self.retryable()
    }

    /// The outcome of an error of a class.
    #[must_use]
    pub fn from_class(class: TaskErrorClass) -> (r: Self)
        ensures
            r == AttemptOutcome::of_class(class),
    {
        match class {
            TaskErrorClass::Permanent => AttemptOutcome::PermanentFailure,
            TaskErrorClass::Retryable => AttemptOutcome::RetryEligibleFailure,
            TaskErrorClass::Skip => AttemptOutcome::Skipped,
        }
    }

    /// The state that a node ends in with this outcome.
    #[must_use]
    pub fn terminal_state(self) -> (r: TerminalState)
        ensures
            r == self.state(),
    {
        match self {
            AttemptOutcome::Succeeded => TerminalState::Succeeded,
            AttemptOutcome::PermanentFailure => TerminalState::Failed,
            AttemptOutcome::RetryEligibleFailure => TerminalState::Failed,
            AttemptOutcome::Skipped => TerminalState::Skipped,
            AttemptOutcome::TimedOut => TerminalState::TimedOut,
        }
    }

    /// Whether the attempt succeeded.
    #[must_use]
    pub fn is_success(self) -> (r: bool)
        ensures
            r == (self == AttemptOutcome::Succeeded),
    {
        self == AttemptOutcome::Succeeded
    }

    /// Whether there may be another attempt. After a permanent failure there is none.
    #[must_use]
    pub fn is_retry_eligible(self) -> (r: bool)
        ensures
            r == self.retryable(),
    {
        self == AttemptOutcome::RetryEligibleFailure || self == AttemptOutcome::TimedOut
    }

    /// Whether the attempt failed. A skip is no failure.
    #[must_use]
    pub fn is_failure(self) -> (r: bool)
        ensures
            r == self.failed(),
    {
        self == AttemptOutcome::PermanentFailure || self == AttemptOutcome::RetryEligibleFailure || self
            == AttemptOutcome::TimedOut
    }
}

} // verus!
