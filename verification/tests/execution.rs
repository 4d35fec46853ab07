use dagr_core::admission::{AdmissionController, PoolCapacities, PoolCost};
use dagr_core::context::{PipelineId, RunContext, RunId, TerminalState};
use dagr_core::error::{TaskError, TaskErrorClass};
use dagr_core::execution::{
    classify_and_fill, race, run_attempt, run_attempt_with_timeout, run_with_retries, AttemptEvent, AttemptOutcome,
    Attempted, Backoff, EventLog, Jitter, NoJitter, RetryConfig, RetryLoop, RetryStep, SeededJitter, TimeoutDecision,
    FACTOR_TWO_BITS,
};
use dagr_core::handle::NodeId;
use dagr_core::slot::{ResidencyLedger, Slot};
use dagr_core::time::Duration;
use std::cell::RefCell;

fn slot() -> Slot<u32> {
    Slot::new(NodeId::from_name("n"), "n", 1, false, 64)
}

fn shapes(log: &EventLog) -> Vec<String> {
    log.events()
        .iter()
        .map(|e| match e {
            AttemptEvent::NodeAdmitted { node } => format!("admitted {}", node),
            AttemptEvent::AttemptStarted { node, attempt } => format!("started {} {}", node, attempt),
            AttemptEvent::AttemptSucceeded { node, attempt } => format!("succeeded {} {}", node, attempt),
            AttemptEvent::AttemptFailed { node, attempt } => format!("failed {} {}", node, attempt),
            AttemptEvent::AttemptTimedOut { node, attempt } => format!("timed-out {} {}", node, attempt),
            AttemptEvent::BackoffStarted { node, attempt, delay } => {
                format!("backoff {} {} {}", node, attempt, delay.as_nanos())
            }
            AttemptEvent::NodeTerminal { node, state } => format!("terminal {} {:?}", node, state),
            _ => "other".to_string(),
        })
        .collect()
}

#[test]
fn outcomes_have_their_states() {
    let table = [
        (AttemptOutcome::Succeeded, TerminalState::Succeeded, true, false, false),
        (AttemptOutcome::PermanentFailure, TerminalState::Failed, false, false, true),
        (AttemptOutcome::RetryEligibleFailure, TerminalState::Failed, false, true, true),
        (AttemptOutcome::Skipped, TerminalState::Skipped, false, false, false),
        (AttemptOutcome::TimedOut, TerminalState::TimedOut, false, true, true),
    ];
    for (outcome, state, success, eligible, failure) in table {
        assert_eq!(outcome.terminal_state(), state);
        assert_eq!(outcome.is_success(), success);
        assert_eq!(outcome.is_retry_eligible(), eligible);
        assert_eq!(outcome.is_failure(), failure);
    }
    assert_eq!(AttemptOutcome::from_class(TaskErrorClass::Permanent), AttemptOutcome::PermanentFailure);
    assert_eq!(AttemptOutcome::from_class(TaskErrorClass::Retryable), AttemptOutcome::RetryEligibleFailure);
    assert_eq!(AttemptOutcome::from_class(TaskErrorClass::Skip), AttemptOutcome::Skipped);
}

#[test]
fn a_success_fills_the_slot() {
    let mut s = slot();
    let mut ledger = ResidencyLedger::new();
    let mut log = EventLog::new();
    let ctx: RunContext<(), ()> = RunContext::for_test();
    let outcome = run_attempt(|_: &RunContext<(), ()>| Ok(7), "n", &ctx, &mut s, &mut ledger, &mut log);
    assert_eq!(outcome, AttemptOutcome::Succeeded);
    assert!(s.is_filled());
    assert_eq!(*s.shared_ref().read(&s), 7);
    assert_eq!(ledger.current(), 64);
    assert_eq!(shapes(&log), vec!["admitted n", "started n 1", "succeeded n 1", "terminal n Succeeded"]);
}

#[test]
fn a_failure_leaves_the_slot_empty() {
    let cases = [
        (TaskError::permanent("no"), AttemptOutcome::PermanentFailure, "terminal n Failed"),
        (TaskError::retryable("later"), AttemptOutcome::RetryEligibleFailure, "terminal n Failed"),
        (TaskError::skip("nothing to do"), AttemptOutcome::Skipped, "terminal n Skipped"),
    ];
    for (error, expected, terminal) in cases {
        let mut s = slot();
        let mut ledger = ResidencyLedger::new();
        let mut log = EventLog::new();
        let ctx: RunContext<(), ()> = RunContext::for_test();
        let outcome = run_attempt(move |_: &RunContext<(), ()>| Err(error), "n", &ctx, &mut s, &mut ledger, &mut log);
        assert_eq!(outcome, expected);
        assert!(!s.is_filled());
        assert_eq!(ledger.current(), 0);
        assert_eq!(shapes(&log), vec!["admitted n", "started n 1", "failed n 1", terminal]);
    }
}

#[test]
fn a_timeout_is_recorded() {
    let mut s = slot();
    let mut ledger = ResidencyLedger::new();
    let mut log = EventLog::new();
    let ctx: RunContext<(), ()> = RunContext::for_test();
    let outcome = run_attempt_with_timeout(
        |_: &RunContext<(), ()>| Attempted::TimedOut,
        "n",
        &ctx,
        &mut s,
        &mut ledger,
        &mut log,
    );
    assert_eq!(outcome, AttemptOutcome::TimedOut);
    assert!(!s.is_filled());
    assert_eq!(shapes(&log), vec!["admitted n", "started n 1", "timed-out n 1", "terminal n TimedOut"]);
}

#[test]
fn a_filled_slot_is_not_filled_again() {
    let mut s = slot();
    let mut ledger = ResidencyLedger::new();
    classify_and_fill(Attempted::Returned(Ok(1)), &mut s, &mut ledger);
    let again = classify_and_fill(Attempted::Returned(Ok(2)), &mut s, &mut ledger);
    assert_eq!(again, AttemptOutcome::Succeeded);
    assert_eq!(*s.shared_ref().read(&s), 1);
    assert_eq!(ledger.current(), 64);
}

#[test]
fn what_returned_wins_the_race() {
    assert!(matches!(race(Some(Ok(1)), true), Some(Attempted::Returned(Ok(1)))));
    assert!(matches!(race::<u32>(None, true), Some(Attempted::TimedOut)));
    assert!(race::<u32>(None, false).is_none());
}

fn no_backoff() -> Backoff {
    Backoff::new(Duration::zero(), FACTOR_TWO_BITS, Duration::max())
}

struct Retried {
    outcome: AttemptOutcome,
    shapes: Vec<String>,
    seen: Vec<(u32, u32)>,
    waited: Vec<u128>,
    filled: bool,
}

fn retried(max: u32, ends: Vec<Attempted<u32>>) -> Retried {
    let mut s = slot();
    let mut ledger = ResidencyLedger::new();
    let mut log = EventLog::new();
    let ends = RefCell::new(ends.into_iter());
    let seen = RefCell::new(Vec::new());
    let waited = RefCell::new(Vec::new());
    let outcome = run_with_retries(
        |ctx: &RunContext<(), ()>| {
            assert_eq!(ctx.run_id().as_str(), "run-1");
            assert_eq!(ctx.node_id(), NodeId::from_name("n"));
            seen.borrow_mut().push((ctx.attempt(), ctx.max_attempts()));
            ends.borrow_mut().next().unwrap()
        },
        "n",
        &RunId::new("run-1"),
        &PipelineId::new("etl"),
        &mut s,
        &mut ledger,
        &mut log,
        &RetryConfig::new(max, no_backoff()),
        |index| Duration::from_nanos(u128::from(index) * 10 + 1),
        |delay: Duration| waited.borrow_mut().push(delay.as_nanos()),
    );
    Retried {
        outcome,
        shapes: shapes(&log),
        seen: seen.into_inner(),
        waited: waited.into_inner(),
        filled: s.is_filled(),
    }
}

fn later() -> Attempted<u32> {
    Attempted::Returned(Err(TaskError::retryable("later")))
}

#[test]
fn retries_stop_at_a_success() {
    let r = retried(5, vec![later(), Attempted::TimedOut, Attempted::Returned(Ok(3))]);
    assert_eq!(r.outcome, AttemptOutcome::Succeeded);
    assert!(r.filled);
    assert_eq!(r.seen, vec![(1, 5), (2, 5), (3, 5)]);
    assert_eq!(r.waited, vec![1, 11]);
    assert_eq!(
        r.shapes,
        vec![
            "admitted n",
            "started n 1",
            "failed n 1",
            "backoff n 1 1",
            "admitted n",
            "started n 2",
            "timed-out n 2",
            "backoff n 2 11",
            "admitted n",
            "started n 3",
            "succeeded n 3",
            "terminal n Succeeded",
        ]
    );
}

#[test]
fn retries_stop_when_they_are_used_up() {
    let r = retried(2, vec![later(), later()]);
    assert_eq!(r.outcome, AttemptOutcome::RetryEligibleFailure);
    assert!(!r.filled);
    assert_eq!(r.seen.len(), 2);
    assert_eq!(r.shapes.last().unwrap(), "terminal n Failed");
    let r = retried(2, vec![later(), Attempted::TimedOut]);
    assert_eq!(r.outcome, AttemptOutcome::TimedOut);
    assert_eq!(r.shapes.last().unwrap(), "terminal n TimedOut");
}

#[test]
fn a_permanent_failure_and_a_skip_are_not_retried() {
    let r = retried(9, vec![Attempted::Returned(Err(TaskError::permanent("no")))]);
    assert_eq!(r.outcome, AttemptOutcome::PermanentFailure);
    assert_eq!(r.seen.len(), 1);
    assert!(r.waited.is_empty());
    let r = retried(9, vec![later(), Attempted::Returned(Err(TaskError::skip("no")))]);
    assert_eq!(r.outcome, AttemptOutcome::Skipped);
    assert_eq!(r.shapes.last().unwrap(), "terminal n Skipped");
}

#[test]
fn there_is_one_end_and_one_record_per_attempt() {
    let r = retried(4, vec![later(), later(), later(), later()]);
    assert_eq!(r.shapes.iter().filter(|s| s.starts_with("terminal")).count(), 1);
    assert_eq!(r.shapes.iter().filter(|s| s.starts_with("failed")).count(), 4);
    assert_eq!(r.shapes.iter().filter(|s| s.starts_with("backoff")).count(), 3);
}

#[test]
fn there_is_no_retry_unless_asked_for() {
    assert_eq!(RetryConfig::default().max_attempts(), 1);
    assert_eq!(RetryConfig::new(0, no_backoff()).max_attempts(), 1);
    let r = retried(0, vec![later()]);
    assert_eq!(r.outcome, AttemptOutcome::RetryEligibleFailure);
    assert_eq!(r.seen, vec![(1, 1)]);
}

#[test]
fn the_loop_can_be_driven_step_by_step() {
    let mut s = slot();
    let mut ledger = ResidencyLedger::new();
    let mut log = EventLog::new();
    let mut state = RetryLoop::new("n", &RetryConfig::new(2, no_backoff()));
    state.begin(&mut log);
    assert_eq!(state.end(later(), &mut s, &mut ledger, &mut log), RetryStep::BackOff(0));
    state.back_off(Duration::from_millis(5), &mut log);
    assert_eq!(state.attempt(), 2);
    state.begin(&mut log);
    let step = state.end(Attempted::Returned(Ok(1)), &mut s, &mut ledger, &mut log);
    assert_eq!(step, RetryStep::Done(AttemptOutcome::Succeeded));
    assert_eq!(shapes(&log).len(), 8);
}

#[test]
fn no_delay_exceeds_the_cap() {
    let b = Backoff::new(Duration::from_millis(100), FACTOR_TWO_BITS, Duration::from_millis(500));
    assert_eq!(b.clamp_nominal(Some(Duration::from_millis(400))), Duration::from_millis(400));
    assert_eq!(b.clamp_nominal(Some(Duration::from_millis(800))), Duration::from_millis(500));
    assert_eq!(b.clamp_nominal(None), Duration::from_millis(500));
    let nominal = Duration::from_millis(400);
    assert_eq!(b.clamp_jittered(nominal, Some(Duration::from_millis(3))), Duration::from_millis(3));
    assert_eq!(b.clamp_jittered(nominal, Some(Duration::from_millis(501))), Duration::from_millis(500));
    assert_eq!(b.clamp_jittered(nominal, None), nominal);
    assert_eq!(b.clamp_jittered(Duration::from_millis(900), None), Duration::from_millis(500));
}

#[test]
fn draws_follow_the_seed() {
    let mut a = SeededJitter::new(0);
    assert_eq!(a.next_draw(), 0xE220_A839_7B1D_CDAF >> 11);
    assert_eq!(a.next_draw(), 0x6E78_9E6A_A1B9_65F4 >> 11);
    assert_eq!(a.next_draw(), 0x06C4_5D18_8009_454F >> 11);
    let mut b = SeededJitter::new(0);
    assert_eq!(b.next_draw(), 0xE220_A839_7B1D_CDAF >> 11);
    let mut c = SeededJitter::new(1);
    assert_ne!(c.next_draw(), 0xE220_A839_7B1D_CDAF >> 11);
    assert_eq!(NoJitter.next_draw(), 0);
}

#[test]
fn a_retry_waits_for_the_attempt_that_was_given_up_on() {
    let mut controller = AdmissionController::new(PoolCapacities::new().blocking_threads(2));
    let cost = PoolCost::new().blocking_threads(1);
    let permit = controller.try_admit("n", &cost).unwrap();
    let mut log = EventLog::new();
    let ctx: RunContext<(), ()> = RunContext::for_test();
    let decision = TimeoutDecision::mark_blocking_timed_out("n", &ctx, &mut log);
    assert_eq!(decision.outcome(), AttemptOutcome::TimedOut);
    assert_eq!(shapes(&log), vec!["timed-out n 1", "terminal n TimedOut"]);
    controller.mark_zombie(&permit);
    assert!(!decision.retry_may_start(&controller));
    permit.finish(&mut controller);
    assert!(decision.retry_may_start(&controller));
}

#[test]
fn a_late_result_is_dropped() {
    let s = slot();
    let mut log = EventLog::new();
    let ctx: RunContext<(), ()> = RunContext::for_test();
    let barrier = TimeoutDecision::mark_blocking_timed_out("n", &ctx, &mut log).barrier();
    assert!(!barrier.fill_slot(&s, 5));
    assert!(!s.is_filled());
    assert!(!barrier.write_scratch());
}
