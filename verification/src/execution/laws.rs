//! What holds of every run of attempts.

use super::attempt::{self, Attempted};
use super::events::EventView;
use super::jitter;
use super::outcome::AttemptOutcome;
use super::retry;
use crate::context::{RunContext, TerminalState};
use crate::error::{TaskError, TaskErrorClass};
use crate::handle;
use crate::slot::{Content, LedgerView, SlotView};
use crate::time::Duration;
use vstd::prelude::*;

verus! {

/// How many of the records close an attempt.
pub open spec fn outcome_records(log: Seq<EventView>) -> nat
    decreases log.len(),
{
    if log.len() == 0 {
        0
    } else {
        outcome_records(log.drop_last()) + (if log.last().is_outcome() {
            1nat
        } else {
            0nat
        })
    }
}

/// How many of the records are of a node's end.
pub open spec fn terminal_records(log: Seq<EventView>) -> nat
    decreases log.len(),
{
    if log.len() == 0 {
        0
    } else {
        terminal_records(log.drop_last()) + (if log.last() is NodeTerminal {
            1nat
        } else {
            0nat
        })
    }
}

proof fn lemma_counts_add(a: Seq<EventView>, b: Seq<EventView>)
    ensures
        outcome_records(a + b) == outcome_records(a) + outcome_records(b),
        terminal_records(a + b) == terminal_records(a) + terminal_records(b),
    decreases b.len(),
{
    if b.len() == 0 {
        assert(a + b =~= a);
    } else {
        assert((a + b).drop_last() =~= a + b.drop_last());
        assert((a + b).last() == b.last());
        lemma_counts_add(a, b.drop_last());
    }
}

proof fn lemma_counts_one(e: EventView)
    ensures
        outcome_records(seq![e]) == (if e.is_outcome() {
            1nat
        } else {
            0nat
        }),
        terminal_records(seq![e]) == (if e is NodeTerminal {
            1nat
        } else {
            0nat
        }),
{
    reveal_with_fuel(outcome_records, 2);
    reveal_with_fuel(terminal_records, 2);
    assert(seq![e].drop_last() =~= Seq::<EventView>::empty());
}

proof fn lemma_attempt_counts(node: Seq<char>, attempt: u32, outcome: AttemptOutcome, max: u32)
    ensures
        ({
            let log = attempt::opening(node, attempt) + retry::closed(node, attempt, outcome, max);
            &&& outcome_records(log) == 1
            &&& terminal_records(log) == (if retry::retries(outcome, attempt, max) {
                0nat
            } else {
                1nat
            })
        }),
{
    let admitted = EventView::NodeAdmitted { node };
    let started = EventView::AttemptStarted { node, attempt };
    let record = attempt::outcome_record(node, attempt, outcome);
    let terminal = EventView::NodeTerminal { node, state: outcome.state() };
    assert(attempt::opening(node, attempt) =~= seq![admitted] + seq![started]);
    lemma_counts_add(seq![admitted], seq![started]);
    lemma_counts_one(admitted);
    lemma_counts_one(started);
    lemma_counts_one(record);
    lemma_counts_one(terminal);
    lemma_counts_add(attempt::opening(node, attempt), retry::closed(node, attempt, outcome, max));
    if !retry::retries(outcome, attempt, max) {
        assert(attempt::closing(node, attempt, outcome) =~= seq![record] + seq![terminal]);
        lemma_counts_add(seq![record], seq![terminal]);
    }
}

/// Every attempt leaves exactly one record that closes it, whatever it came to, and a
/// node leaves exactly one record of its end: the last, with the state that its last
/// attempt decided.
pub proof fn law_one_record_per_attempt_and_one_end(
    node: Seq<char>,
    max: u32,
    attempt: u32,
    outcomes: Seq<AttemptOutcome>,
    delays: Seq<Duration>,
)
    requires
        retry::complete(max, attempt, outcomes),
    ensures
        ({
            let log = retry::trace(node, max, attempt, outcomes, delays);
            &&& outcome_records(log) == outcomes.len()
            &&& terminal_records(log) == 1
            &&& log.len() > 0
            &&& log.last() == (EventView::NodeTerminal { node, state: outcomes.last().state() })
        }),
    decreases outcomes.len(),
{
    let log = retry::trace(node, max, attempt, outcomes, delays);
    let this = attempt::opening(node, attempt) + retry::closed(node, attempt, outcomes[0], max);
    lemma_attempt_counts(node, attempt, outcomes[0], max);
    if retry::retries(outcomes[0], attempt, max) {
        let next = (attempt + 1) as u32;
        let waiting = EventView::BackoffStarted { node, attempt, delay: delays[0] };
        law_one_record_per_attempt_and_one_end(node, max, next, outcomes.drop_first(), delays.drop_first());
        let rest = retry::trace(node, max, next, outcomes.drop_first(), delays.drop_first());
        lemma_counts_one(waiting);
        lemma_counts_add(this, seq![waiting]);
        lemma_counts_add(this + seq![waiting], rest);
        assert(outcomes.len() > 1);
        assert(log == this + seq![waiting] + rest);
        assert(log.last() == rest.last());
        assert(outcomes.drop_first().last() == outcomes.last());
    } else {
        assert(log == this);
        assert(log.last() == attempt::closing(node, attempt, outcomes[0]).last());
    }
}

/// There are no more attempts than are allowed, and at least one.
pub proof fn law_attempts_are_bounded(max: u32, attempt: u32, outcomes: Seq<AttemptOutcome>)
    requires
        retry::complete(max, attempt, outcomes),
        attempt <= max || attempt == 1,
    ensures
        1 <= outcomes.len(),
        attempt + outcomes.len() <= (if max >= attempt {
            max as int
        } else {
            attempt as int
        }) + 1,
    decreases outcomes.len(),
{
    if retry::retries(outcomes[0], attempt, max) {
        law_attempts_are_bounded(max, (attempt + 1) as u32, outcomes.drop_first());
    }
}

/// Every attempt but the last failed in a way that may be retried or timed out, and the
/// last either did not or was the last that was allowed.
pub proof fn law_only_retryable_failures_are_retried(max: u32, attempt: u32, outcomes: Seq<AttemptOutcome>, i: int)
    requires
        retry::complete(max, attempt, outcomes),
        0 <= i < outcomes.len(),
    ensures
        i < outcomes.len() - 1 ==> outcomes[i].retryable(),
        i == outcomes.len() - 1 && outcomes[i].retryable() && attempt + i <= u32::MAX ==> attempt + i >= max,
    decreases outcomes.len(),
{
    if retry::retries(outcomes[0], attempt, max) {
        if i > 0 {
            law_only_retryable_failures_are_retried(max, (attempt + 1) as u32, outcomes.drop_first(), i - 1);
            assert(outcomes.drop_first()[i - 1] == outcomes[i]);
        } else {
            reveal_with_fuel(retry::complete, 2);
        }
    }
}

/// Attempts are numbered without gaps: the first record of each is of the number after
/// that of the attempt before.
pub proof fn law_attempts_are_numbered_in_order(
    node: Seq<char>,
    max: u32,
    attempt: u32,
    outcomes: Seq<AttemptOutcome>,
    delays: Seq<Duration>,
)
    requires
        outcomes.len() > 0,
    ensures
        ({
            let log = retry::trace(node, max, attempt, outcomes, delays);
            &&& log.len() >= 2
            &&& log[0] == (EventView::NodeAdmitted { node })
            &&& log[1] == (EventView::AttemptStarted { node, attempt })
            &&& outcomes.len() > 1 ==> {
                let this = attempt::opening(node, attempt) + retry::closed(node, attempt, outcomes[0], max);
                let rest = retry::trace(node, max, (attempt + 1) as u32, outcomes.drop_first(), delays.drop_first());
                log == this + seq![EventView::BackoffStarted { node, attempt, delay: delays[0] }] + rest
            }
        }),
{
}

/// A permanent failure, a skip and a success are never retried, whatever attempts are
/// left; and only a retry-eligible failure or a timeout is.
pub proof fn law_retry_follows_the_class(outcome: AttemptOutcome, attempt: u32, max: u32)
    ensures
        outcome == AttemptOutcome::PermanentFailure ==> !retry::retries(outcome, attempt, max),
        outcome == AttemptOutcome::Skipped ==> !retry::retries(outcome, attempt, max),
        outcome == AttemptOutcome::Succeeded ==> !retry::retries(outcome, attempt, max),
        retry::retries(outcome, attempt, max) ==> outcome.failed() && attempt < max,
        max <= 1 && attempt >= 1 ==> !retry::retries(outcome, attempt, max),
        outcome == AttemptOutcome::TimedOut ==> outcome.state() == TerminalState::TimedOut,
{
}

/// What an attempt comes to follows from how it ended: a value is a success, an error is
/// what its class says, and an attempt that exceeded its time timed out.
pub proof fn law_an_ending_decides_the_outcome<O>(ended: Attempted<O>, error: TaskError)
    ensures
        attempt::outcome_of(ended) == AttemptOutcome::Succeeded <==> ended is Returned && ended->Returned_0 is Ok,
        attempt::outcome_of(ended) == AttemptOutcome::TimedOut <==> ended == Attempted::<O>::TimedOut,
        ended == Attempted::Returned(Err::<O, TaskError>(error)) ==> {
            let outcome = attempt::outcome_of(ended);
            &&& error@.class == TaskErrorClass::Permanent ==> outcome == AttemptOutcome::PermanentFailure
            &&& error@.class == TaskErrorClass::Retryable ==> outcome == AttemptOutcome::RetryEligibleFailure
            &&& error@.class == TaskErrorClass::Skip ==> outcome == AttemptOutcome::Skipped
        },
{
}

/// A node ends as its last attempt did: succeeded, skipped, timed out, or failed for either
/// kind of failure. Only a failure that is worth it and a timeout may be tried again, and
/// neither a success nor a skip is a failure.
pub proof fn law_an_outcome_decides_the_state(outcome: AttemptOutcome)
    ensures
        outcome.state() == TerminalState::Succeeded <==> outcome == AttemptOutcome::Succeeded,
        outcome.state() == TerminalState::Skipped <==> outcome == AttemptOutcome::Skipped,
        outcome.state() == TerminalState::TimedOut <==> outcome == AttemptOutcome::TimedOut,
        outcome.state() == TerminalState::Failed <==> outcome == AttemptOutcome::PermanentFailure || outcome
            == AttemptOutcome::RetryEligibleFailure,
        outcome.retryable() <==> outcome != AttemptOutcome::Succeeded && outcome != AttemptOutcome::Skipped && outcome
            != AttemptOutcome::PermanentFailure,
        outcome.failed() <==> outcome != AttemptOutcome::Succeeded && outcome != AttemptOutcome::Skipped,
{
}

/// Only a value that was returned fills a slot, and only one that was empty; then, and only
/// then, its residency is counted. Nothing else of the slot changes.
pub proof fn law_only_a_value_fills_an_empty_slot<O>(slot: SlotView<O>, ledger: LedgerView, ended: Attempted<O>, value: O)
    requires
        ledger.current + slot.residency <= u64::MAX,
    ensures
        ({
            let then = attempt::slot_after(slot, ended);
            let counted = attempt::ledger_after(slot, ledger, ended);
            let fills = slot.content == Content::<O>::Empty && ended == Attempted::Returned(
                Ok::<O, TaskError>(value),
            );
            &&& fills ==> then.content == Content::Filled(value) && counted.current == ledger.current + slot.residency
            &&& slot.content != Content::<O>::Empty ==> then.content == slot.content && counted == ledger
            &&& attempt::outcome_of(ended) != AttemptOutcome::Succeeded ==> then.content == slot.content && counted
                == ledger
            &&& then.residency == slot.residency
            &&& then.retained == slot.retained
        }),
{
}

/// Whether a record says how an attempt ended.
pub open spec fn says(record: EventView, node: Seq<char>, attempt: int, outcome: AttemptOutcome) -> bool {
    match outcome {
        AttemptOutcome::Succeeded => record is AttemptSucceeded && record->AttemptSucceeded_node == node
            && record->AttemptSucceeded_attempt == attempt,
        AttemptOutcome::TimedOut => record is AttemptTimedOut && record->AttemptTimedOut_node == node
            && record->AttemptTimedOut_attempt == attempt,
        AttemptOutcome::PermanentFailure | AttemptOutcome::RetryEligibleFailure | AttemptOutcome::Skipped => record is AttemptFailed
            && record->AttemptFailed_node == node && record->AttemptFailed_attempt == attempt,
    }
}

/// The records of a node that is attempted once are four: its admission, the start of the
/// attempt, how it ended, and the node's end.
pub proof fn law_one_attempt_leaves_four_records(node: Seq<char>, attempt: u32, outcome: AttemptOutcome)
    ensures
        ({
            let log = attempt::opening(node, attempt) + attempt::closing(node, attempt, outcome);
            &&& log.len() == 4
            &&& log[0] == (EventView::NodeAdmitted { node })
            &&& log[1] == (EventView::AttemptStarted { node, attempt })
            &&& says(log[2], node, attempt as int, outcome)
            &&& log[3] is NodeTerminal && log[3]->NodeTerminal_node == node
            &&& log[3]->NodeTerminal_state == TerminalState::Succeeded <==> outcome == AttemptOutcome::Succeeded
            &&& log[3]->NodeTerminal_state == TerminalState::Skipped <==> outcome == AttemptOutcome::Skipped
            &&& log[3]->NodeTerminal_state == TerminalState::TimedOut <==> outcome == AttemptOutcome::TimedOut
        }),
{
}

/// A node that is tried again leaves four records for each attempt: its admission, the
/// start, how the attempt ended, and the delay before the next; in place of the last delay
/// stands the node's end.
pub proof fn law_each_attempt_leaves_four_records(
    node: Seq<char>,
    max: u32,
    attempt: u32,
    outcomes: Seq<AttemptOutcome>,
    delays: Seq<Duration>,
    i: int,
)
    requires
        retry::complete(max, attempt, outcomes),
        delays.len() + 1 == outcomes.len(),
        0 <= i < outcomes.len(),
    ensures
        ({
            let log = retry::trace(node, max, attempt, outcomes, delays);
            let n = outcomes.len();
            &&& log.len() == 4 * n
            &&& log[4 * i] == (EventView::NodeAdmitted { node })
            &&& log[4 * i + 1] is AttemptStarted && log[4 * i + 1]->AttemptStarted_node == node
            &&& log[4 * i + 1]->AttemptStarted_attempt == attempt + i
            &&& says(log[4 * i + 2], node, attempt + i, outcomes[i])
            &&& i < n - 1 ==> log[4 * i + 3] is BackoffStarted && log[4 * i + 3]->BackoffStarted_node == node
            &&& i < n - 1 ==> log[4 * i + 3]->BackoffStarted_attempt == attempt + i
            &&& i < n - 1 ==> log[4 * i + 3]->delay == delays[i]
            &&& i == n - 1 ==> log[4 * i + 3] == (EventView::NodeTerminal { node, state: outcomes[i].state() })
        }),
    decreases outcomes.len(),
{
    let log = retry::trace(node, max, attempt, outcomes, delays);
    let this = attempt::opening(node, attempt) + retry::closed(node, attempt, outcomes[0], max);
    if retry::retries(outcomes[0], attempt, max) {
        let next = (attempt + 1) as u32;
        reveal_with_fuel(retry::complete, 2);
        let rest = retry::trace(node, max, next, outcomes.drop_first(), delays.drop_first());
        assert(log == this + seq![EventView::BackoffStarted { node, attempt, delay: delays[0] }] + rest);
        assert(this.len() == 3);
        if i > 0 {
            law_each_attempt_leaves_four_records(
                node,
                max,
                next,
                outcomes.drop_first(),
                delays.drop_first(),
                i - 1,
            );
            assert(outcomes.drop_first()[i - 1] == outcomes[i]);
            assert(log[4 * i] == rest[4 * (i - 1)]);
            assert(log[4 * i + 1] == rest[4 * (i - 1) + 1]);
            assert(log[4 * i + 2] == rest[4 * (i - 1) + 2]);
            assert(log[4 * i + 3] == rest[4 * (i - 1) + 3]);
        } else {
            law_each_attempt_leaves_four_records(node, max, next, outcomes.drop_first(), delays.drop_first(), 0);
            assert(log[3] == (EventView::BackoffStarted { node, attempt, delay: delays[0] }));
            assert(log[0] == this[0] && log[1] == this[1] && log[2] == this[2]);
        }
    } else {
        assert(log == this);
        assert(i == 0);
    }
}

/// A run of attempts is whole exactly where there is one, every attempt before the last
/// failed in a way that may be tried again or timed out while another was allowed, and the
/// last did not, or none was left.
pub proof fn law_a_run_of_attempts_is_whole(max: u32, attempt: u32, outcomes: Seq<AttemptOutcome>)
    requires
        attempt + outcomes.len() <= u32::MAX,
    ensures
        retry::complete(max, attempt, outcomes) <==> {
            let n = outcomes.len() as int;
            &&& n > 0
            &&& forall|i: int|
                0 <= i < n - 1 ==> attempt + i < max && (#[trigger] outcomes[i] == AttemptOutcome::RetryEligibleFailure
                    || outcomes[i] == AttemptOutcome::TimedOut)
            &&& attempt + n - 1 < max ==> outcomes[n - 1] != AttemptOutcome::RetryEligibleFailure && outcomes[n - 1]
                != AttemptOutcome::TimedOut
        },
    decreases outcomes.len(),
{
    if outcomes.len() > 0 {
        let n = outcomes.len() as int;
        let rest = outcomes.drop_first();
        if retry::retries(outcomes[0], attempt, max) {
            law_a_run_of_attempts_is_whole(max, (attempt + 1) as u32, rest);
            if retry::complete(max, attempt, outcomes) {
                assert forall|i: int| 0 <= i < n - 1 implies attempt + i < max && (#[trigger] outcomes[i]
                    == AttemptOutcome::RetryEligibleFailure || outcomes[i] == AttemptOutcome::TimedOut) by {
                    if i > 0 {
                        assert(rest[i - 1] == outcomes[i]);
                    }
                }
            } else if n > 1 {
                assert(forall|i: int| 0 <= i < n - 2 ==> #[trigger] rest[i] == outcomes[i + 1]);
                assert(rest[n - 2] == outcomes[n - 1]);
            }
        } else if n > 1 {
            assert(attempt + 0 >= max || !(outcomes[0] == AttemptOutcome::RetryEligibleFailure || outcomes[0]
                == AttemptOutcome::TimedOut));
        }
    }
}

/// Another attempt follows exactly a failure that may be tried again, or a timeout, while
/// the attempt's number is below how many there may be.
pub proof fn law_another_attempt_follows(outcome: AttemptOutcome, attempt: u32, max: u32)
    ensures
        retry::retries(outcome, attempt, max) <==> attempt < max && (outcome == AttemptOutcome::RetryEligibleFailure
            || outcome == AttemptOutcome::TimedOut),
{
}

/// The context of an attempt carries the run, the pipeline, the node and its number, is
/// never cancelled, and holds nothing else.
pub proof fn law_an_attempt_gets_a_context_of_its_own(
    run: Seq<char>,
    pipeline: Seq<char>,
    node: Seq<char>,
    attempt: u32,
    max: u32,
)
    ensures
        ({
            let context = retry::attempt_context(run, pipeline, node, attempt, max);
            &&& context.run == run && context.span.run == run
            &&& context.pipeline == pipeline
            &&& context.node == handle::node_id(node) && context.span.node == handle::node_id(node)
            &&& context.attempt == attempt && context.span.attempt == attempt
            &&& context.max_attempts == max
            &&& context.parameters is None && context.data_interval is None
            &&& context.scratch is None && context.covered is None && context.temp_dir is None
            &&& forall|key: u64| !context.resources.dom().contains(key)
        }),
{
}

/// The draws of a seed: its state grows by one step at a time, modulo the size of a word,
/// and each draw is the mixed state without its eleven lowest bits.
pub proof fn law_draws_follow_from_the_seed(state: u64)
    ensures
        jitter::next_state(state) == (state + 0x9E37_79B9_7F4A_7C15u64) % 0x1_0000_0000_0000_0000,
        ({
            let first = ((state ^ (state >> 30)) * 0xBF58_476D_1CE4_E5B9u64) % 0x1_0000_0000_0000_0000;
            let a = first as u64;
            let second = ((a ^ (a >> 27)) * 0x94D0_49BB_1331_11EBu64) % 0x1_0000_0000_0000_0000;
            let b = second as u64;
            jitter::draw_of(state) == (b ^ (b >> 31)) >> 11
        }),
        jitter::draw_of(state) < 9_007_199_254_740_992,
{
    let c = jitter::mixed(state);
    assert(c >> 11 < 0x0020_0000_0000_0000u64) by (bit_vector);
}

/// Each attempt is one run of the work, with a context that carries its number, from one,
/// and how many there may be; and between the attempts the timer waits for the delays that
/// the schedule gives, from its place zero.
pub proof fn law_attempts_and_delays_are_counted_up<O, W, D, F>(
    work: W,
    schedule: D,
    timer: F,
    run: Seq<char>,
    pipeline: Seq<char>,
    node: Seq<char>,
    max: u32,
    ended: Seq<Attempted<O>>,
    delays: Seq<Duration>,
    i: int,
) where W: Fn(&RunContext<(), ()>) -> Attempted<O>, D: Fn(u32) -> Duration, F: Fn(Duration)
    requires
        retry::ran(work, run, pipeline, node, max, ended),
        retry::scheduled(schedule, delays),
        retry::waited(timer, delays),
        i + 1 <= u32::MAX,
    ensures
        0 <= i < ended.len() ==> exists|ctx: RunContext<(), ()>|
            {
                &&& #[trigger] call_ensures(work, (&ctx,), ended[i])
                &&& ctx@.attempt == i + 1
                &&& ctx@.max_attempts == max
                &&& ctx@.run == run
                &&& ctx@.pipeline == pipeline
                &&& ctx@.node == handle::node_id(node)
            },
        0 <= i < delays.len() ==> call_ensures(schedule, (i as u32,), delays[i]),
        0 <= i < delays.len() ==> call_ensures(timer, (delays[i],), ()),
{
    if 0 <= i < ended.len() {
        let context = retry::attempt_context(run, pipeline, node, (i + 1) as u32, max);
        assert(retry::ran_once(work, context, ended[i]));
    }
}

/// What attempts come to is said attempt by attempt.
pub proof fn law_outcomes_are_those_of_the_endings<O>(ended: Seq<Attempted<O>>, i: int)
    requires
        0 <= i < ended.len(),
    ensures
        retry::outcomes_of(ended).len() == ended.len(),
        retry::outcomes_of(ended)[i] == attempt::outcome_of(ended[i]),
{
}

} // verus!
