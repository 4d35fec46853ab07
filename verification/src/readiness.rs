//! Which nodes may run, and when.
//!
//! Each node waits until every upstream is terminal. Its trigger rule is evaluated
//! then, and only then: either the node becomes ready, or it is given a terminal
//! state without running, which its own dependents hear of at once.

pub mod laws;
pub mod tracker;

pub use self::tracker::{Decision, ReadinessTracker};

use crate::binding::TriggerRule;
use crate::context::TerminalState;
use vstd::prelude::*;

verus! {

/// The class of a terminal state, over which trigger rules are defined.
#[derive(Debug, Clone, Copy, PartialEq, Eq, Hash, Structural)]
pub enum StateClass {
    /// Succeeded, now or in an earlier run.
    Success,
    /// Skipped, by itself or by an upstream.
    Skip,
    /// Failed, timed out, abandoned, or behind a failure.
    Failure,
    /// Cancelled.
    Stop,
}

/// The class of a terminal state.
pub open spec fn class(state: TerminalState) -> StateClass {
    match state {
        TerminalState::Succeeded | TerminalState::SatisfiedFromPrior => StateClass::Success,
        TerminalState::Skipped | TerminalState::UpstreamSkipped => StateClass::Skip,
        TerminalState::Failed | TerminalState::TimedOut | TerminalState::Abandoned
        | TerminalState::UpstreamFailed => StateClass::Failure,
        TerminalState::Cancelled => StateClass::Stop,
    }
}

/// The class of a terminal state.
pub fn class_of(state: TerminalState) -> (r: StateClass)
    ensures
        r == class(state),
{
    match state {
        TerminalState::Succeeded | TerminalState::SatisfiedFromPrior => StateClass::Success,
        TerminalState::Skipped | TerminalState::UpstreamSkipped => StateClass::Skip,
        TerminalState::Failed | TerminalState::TimedOut | TerminalState::Abandoned
        | TerminalState::UpstreamFailed => StateClass::Failure,
        TerminalState::Cancelled => StateClass::Stop,
    }
}

/// What a trigger rule says once every upstream is terminal.
#[derive(Debug, Clone, Copy, PartialEq, Eq, Structural)]
pub enum RuleOutcome {
    /// The node runs.
    Fires,
    /// The node can never run and takes this state.
    Propagate(TerminalState),
}

/// Whether some upstream is of the class.
pub open spec fn some_of(states: Seq<TerminalState>, c: StateClass) -> bool {
    exists|i: int| 0 <= i < states.len() && class(#[trigger] states[i]) == c
}

/// What a trigger rule says of upstream states.
///
/// All-succeeded fires when every upstream is success-like. Otherwise the node is
/// upstream-skipped where all that is not success is skip, cancelled where all that
/// is not success is stop, and upstream-failed in every other case. All-terminal
/// always fires. Any-failed fires when some upstream is failure-like, and otherwise
/// the node is skipped.
pub open spec fn outcome(rule: TriggerRule, states: Seq<TerminalState>) -> RuleOutcome {
    let skip = some_of(states, StateClass::Skip);
    let failure = some_of(states, StateClass::Failure);
    let stop = some_of(states, StateClass::Stop);
    match rule {
        TriggerRule::AllSucceeded => if !skip && !failure && !stop {
            RuleOutcome::Fires
        } else if !failure && !stop {
            RuleOutcome::Propagate(TerminalState::UpstreamSkipped)
        } else if !failure && !skip {
            RuleOutcome::Propagate(TerminalState::Cancelled)
        } else {
            RuleOutcome::Propagate(TerminalState::UpstreamFailed)
        },
        TriggerRule::AllTerminal => RuleOutcome::Fires,
        TriggerRule::AnyFailed => if failure {
            RuleOutcome::Fires
        } else {
            RuleOutcome::Propagate(TerminalState::Skipped)
        },
    }
}

/// Evaluates a trigger rule against the terminal states of all upstreams, of which
/// there is at least one.
#[must_use]
pub fn evaluate_rule(rule: TriggerRule, upstreams: &[TerminalState]) -> (r: RuleOutcome)
    requires
        upstreams@.len() > 0,
    ensures
        r == outcome(rule, upstreams@),
        rule == TriggerRule::AllSucceeded ==> (r == RuleOutcome::Fires <==> forall|i: int|
            0 <= i < upstreams@.len() ==> (#[trigger] upstreams@[i] == TerminalState::Succeeded || upstreams@[i]
                == TerminalState::SatisfiedFromPrior)),
        rule == TriggerRule::AllTerminal ==> r == RuleOutcome::Fires,
        rule == TriggerRule::AnyFailed ==> (r == RuleOutcome::Fires <==> exists|i: int|
            0 <= i < upstreams@.len() && (#[trigger] upstreams@[i] == TerminalState::Failed || upstreams@[i]
                == TerminalState::TimedOut || upstreams@[i] == TerminalState::Abandoned || upstreams@[i]
                == TerminalState::UpstreamFailed)),
        rule == TriggerRule::AnyFailed && r != RuleOutcome::Fires ==> r == RuleOutcome::Propagate(
            TerminalState::Skipped,
        ),
{
    proof {
        laws::law_all_succeeded_needs_every_success(upstreams@);
        laws::law_cleanup_rules_fire_when_they_should(upstreams@);
    }
    match rule {
        TriggerRule::AllSucceeded => eval_all_succeeded(upstreams),
        TriggerRule::AllTerminal => RuleOutcome::Fires,
        TriggerRule::AnyFailed => eval_any_failed(upstreams),
    }
}

fn eval_all_succeeded(upstreams: &[TerminalState]) -> (r: RuleOutcome)
    ensures
        r == outcome(TriggerRule::AllSucceeded, upstreams@),
{
    let mut skip = false;
    let mut failure = false;
    let mut stop = false;
    let mut i: usize = 0;
    while i < upstreams.len()
        invariant
            i <= upstreams.len(),
            skip == some_of(upstreams@.take(i as int), StateClass::Skip),
            failure == some_of(upstreams@.take(i as int), StateClass::Failure),
            stop == some_of(upstreams@.take(i as int), StateClass::Stop),
        decreases upstreams.len() - i,
    {
        proof {
            lemma_some_of_take(upstreams@, i as int, StateClass::Skip);
            lemma_some_of_take(upstreams@, i as int, StateClass::Failure);
            lemma_some_of_take(upstreams@, i as int, StateClass::Stop);
        }
        match class_of(upstreams[i]) {
            StateClass::Success => {},
            StateClass::Skip => {
                skip = true;
            },
            StateClass::Stop => {
                stop = true;
            },
            StateClass::Failure => {
                failure = true;
            },
        }
        i = i + 1;
    }
    assert(upstreams@.take(i as int) =~= upstreams@);
    if !skip && !failure && !stop {
        RuleOutcome::Fires
    } else if !failure && !stop {
        RuleOutcome::Propagate(TerminalState::UpstreamSkipped)
    } else if !failure && !skip {
        RuleOutcome::Propagate(TerminalState::Cancelled)
    } else {
        RuleOutcome::Propagate(TerminalState::UpstreamFailed)
    }
}

fn eval_any_failed(upstreams: &[TerminalState]) -> (r: RuleOutcome)
    ensures
        r == outcome(TriggerRule::AnyFailed, upstreams@),
{
    let mut i: usize = 0;
    while i < upstreams.len()
        invariant
            i <= upstreams.len(),
            !some_of(upstreams@.take(i as int), StateClass::Failure),
        decreases upstreams.len() - i,
    {
        proof {
            lemma_some_of_take(upstreams@, i as int, StateClass::Failure);
        }
        if class_of(upstreams[i]) == StateClass::Failure {
            assert(class(upstreams@[i as int]) == StateClass::Failure);
            return RuleOutcome::Fires;
        }
        i = i + 1;
    }
    assert(upstreams@.take(i as int) =~= upstreams@);
    RuleOutcome::Propagate(TerminalState::Skipped)
}

proof fn lemma_some_of_take(states: Seq<TerminalState>, i: int, c: StateClass)
    requires
        0 <= i < states.len(),
    ensures
        some_of(states.take(i + 1), c) == (some_of(states.take(i), c) || class(states[i]) == c),
{
    let a = states.take(i);
    let b = states.take(i + 1);
    if some_of(a, c) {
        let k = choose|k: int| 0 <= k < a.len() && class(#[trigger] a[k]) == c;
        assert(class(b[k]) == c);
    }
    if class(states[i]) == c {
        assert(class(b[i]) == c);
    }
    if some_of(b, c) {
        let k = choose|k: int| 0 <= k < b.len() && class(#[trigger] b[k]) == c;
        if k < i {
            assert(class(a[k]) == c);
        }
    }
}

/// What a rule says depends only on which classes are present, never on the order of
/// the upstreams or on how often a class occurs.
pub proof fn law_outcome_depends_on_classes(rule: TriggerRule, a: Seq<TerminalState>, b: Seq<TerminalState>)
    requires
        forall|c: StateClass| #[trigger] some_of(a, c) == some_of(b, c),
    ensures
        outcome(rule, a) == outcome(rule, b),
{
    assert(some_of(a, StateClass::Skip) == some_of(b, StateClass::Skip));
    assert(some_of(a, StateClass::Failure) == some_of(b, StateClass::Failure));
    assert(some_of(a, StateClass::Stop) == some_of(b, StateClass::Stop));
}

/// A propagated state is never a success.
pub proof fn law_propagated_state_is_no_success(rule: TriggerRule, states: Seq<TerminalState>)
    ensures
        outcome(rule, states) matches RuleOutcome::Propagate(s) ==> class(s) != StateClass::Success,
{
}

/// Success carried forward from an earlier run satisfies a rule as success does.
pub proof fn law_prior_success_is_success(rule: TriggerRule, states: Seq<TerminalState>, i: int)
    requires
        0 <= i < states.len(),
        states[i] == TerminalState::Succeeded,
    ensures
        outcome(rule, states.update(i, TerminalState::SatisfiedFromPrior)) == outcome(rule, states),
{
    let other = states.update(i, TerminalState::SatisfiedFromPrior);
    assert forall|c: StateClass| #[trigger] some_of(states, c) == some_of(other, c) by {
        if some_of(states, c) {
            let k = choose|k: int| 0 <= k < states.len() && class(#[trigger] states[k]) == c;
            assert(class(other[k]) == c);
        }
        if some_of(other, c) {
            let k = choose|k: int| 0 <= k < other.len() && class(#[trigger] other[k]) == c;
            assert(class(states[k]) == c);
        }
    }
    law_outcome_depends_on_classes(rule, states, other);
}

} // verus!
