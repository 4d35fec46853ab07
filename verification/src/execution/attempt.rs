//! One attempt: what is recorded around the work, and what its result does to the slot.

use super::events::{AttemptEvent, AttemptEventSink, EventView};
use super::outcome::AttemptOutcome;
use crate::context::{RunContext, TerminalState};
use crate::error::TaskError;
use crate::slot::{Content, LedgerView, ResidencyLedger, Slot, SlotView};
use vstd::prelude::*;

verus! {

/// How an attempt ended.
pub enum Attempted<O> {
    /// The work returned.
    Returned(Result<O, TaskError>),
    /// The attempt exceeded its time.
    TimedOut,
}

/// What an attempt came to, by how it ended.
pub open spec fn outcome_of<O>(ended: Attempted<O>) -> AttemptOutcome {
    match ended {
        Attempted::Returned(Ok(_)) => AttemptOutcome::Succeeded,
        Attempted::Returned(Err(e)) => AttemptOutcome::of_class(e@.class),
        Attempted::TimedOut => AttemptOutcome::TimedOut,
    }
}

/// The slot after an attempt: filled with the value that was returned, if it was empty.
pub open spec fn slot_after<O>(slot: SlotView<O>, ended: Attempted<O>) -> SlotView<O> {
    match ended {
        Attempted::Returned(Ok(value)) => if slot.content is Empty {
            SlotView { content: Content::Filled(value), ..slot }
        } else {
            slot
        },
        _ => slot,
    }
}

/// The ledger after an attempt.
pub open spec fn ledger_after<O>(slot: SlotView<O>, ledger: LedgerView, ended: Attempted<O>) -> LedgerView {
    if outcome_of(ended) == AttemptOutcome::Succeeded && slot.content is Empty {
        ledger.charged(slot.residency)
    } else {
        ledger
    }
}

/// The records before the work runs.
pub open spec fn opening(node: Seq<char>, attempt: u32) -> Seq<EventView> {
    seq![EventView::NodeAdmitted { node }, EventView::AttemptStarted { node, attempt }]
}

/// The record that closes an attempt.
pub open spec fn outcome_record(node: Seq<char>, attempt: u32, outcome: AttemptOutcome) -> EventView {
    match outcome {
        AttemptOutcome::Succeeded => EventView::AttemptSucceeded { node, attempt },
        AttemptOutcome::TimedOut => EventView::AttemptTimedOut { node, attempt },
        _ => EventView::AttemptFailed { node, attempt },
    }
}

/// The records that close an attempt that is the node's last.
pub open spec fn closing(node: Seq<char>, attempt: u32, outcome: AttemptOutcome) -> Seq<EventView> {
    seq![outcome_record(node, attempt, outcome), EventView::NodeTerminal { node, state: outcome.state() }]
}

/// Records that the node was admitted and that the attempt began.
pub fn open_attempt<S: AttemptEventSink>(node: &str, attempt: u32, sink: &mut S)
    ensures
        final(sink).log() == old(sink).log() + opening(node@, attempt),
{
    let ghost start = sink.log();
    sink.emit(AttemptEvent::NodeAdmitted { node: String::from_str(node) });
    sink.emit(AttemptEvent::AttemptStarted { node: String::from_str(node), attempt });
    assert(sink.log() =~= start + opening(node@, attempt));
}

/// Classifies how an attempt ended, and fills the slot with a value that was returned.
/// An attempt that did not succeed leaves the slot as it is.
pub fn classify_and_fill<O>(ended: Attempted<O>, slot: &mut Slot<O>, ledger: &mut ResidencyLedger) -> (r: AttemptOutcome)
    requires
        old(slot)@.content is Empty ==> old(ledger)@.current + old(slot)@.residency <= u64::MAX,
    ensures
        r == outcome_of(ended),
        final(slot)@ == slot_after(old(slot)@, ended),
        final(ledger)@ == ledger_after(old(slot)@, old(ledger)@, ended),
{
    match ended {
        Attempted::Returned(Ok(value)) => {
            let _refused = slot.fill(value, ledger);
            AttemptOutcome::Succeeded
        },
        Attempted::Returned(Err(e)) => AttemptOutcome::from_class(e.class()),
        Attempted::TimedOut => AttemptOutcome::TimedOut,
    }
}

/// Leaves the one record that closes an attempt.
pub fn emit_attempt_outcome_record<S: AttemptEventSink>(node: &str, attempt: u32, outcome: AttemptOutcome, sink: &mut S)
    ensures
        final(sink).log() == old(sink).log().push(outcome_record(node@, attempt, outcome)),
{
    match outcome {
        AttemptOutcome::Succeeded => {
            sink.emit(AttemptEvent::AttemptSucceeded { node: String::from_str(node), attempt });
        },
        AttemptOutcome::TimedOut => {
            sink.emit(AttemptEvent::AttemptTimedOut { node: String::from_str(node), attempt });
        },
        AttemptOutcome::PermanentFailure | AttemptOutcome::RetryEligibleFailure | AttemptOutcome::Skipped => {
            sink.emit(AttemptEvent::AttemptFailed { node: String::from_str(node), attempt });
        },
    }
}

/// Leaves the one record of the state that a node ended in.
pub fn emit_node_terminal<S: AttemptEventSink>(node: &str, state: TerminalState, sink: &mut S)
    ensures
        final(sink).log() == old(sink).log().push(EventView::NodeTerminal { node: node@, state }),
{
    sink.emit(AttemptEvent::NodeTerminal { node: String::from_str(node), state });
}

/// Leaves the records that close an attempt that is the node's last.
pub fn emit_closing_events<S: AttemptEventSink>(node: &str, attempt: u32, outcome: AttemptOutcome, sink: &mut S)
    ensures
        final(sink).log() == old(sink).log() + closing(node@, attempt, outcome),
{
    let ghost start = sink.log();
    emit_attempt_outcome_record(node, attempt, outcome, sink);
    emit_node_terminal(node, outcome.terminal_state(), sink);
    assert(sink.log() =~= start + closing(node@, attempt, outcome));
}

/// Ends an attempt whose work has run: classifies it, fills the slot, and leaves the
/// record that closes it.
pub fn end_attempt<O, S: AttemptEventSink>(
    node: &str,
    attempt: u32,
    ended: Attempted<O>,
    slot: &mut Slot<O>,
    ledger: &mut ResidencyLedger,
    sink: &mut S,
) -> (r: AttemptOutcome)
    requires
        old(slot)@.content is Empty ==> old(ledger)@.current + old(slot)@.residency <= u64::MAX,
    ensures
        r == outcome_of(ended),
        final(slot)@ == slot_after(old(slot)@, ended),
        final(ledger)@ == ledger_after(old(slot)@, old(ledger)@, ended),
        final(sink).log() == old(sink).log().push(outcome_record(node@, attempt, r)),
{
    let outcome = classify_and_fill(ended, slot, ledger);
    emit_attempt_outcome_record(node, attempt, outcome, sink);
    outcome
}

/// What an attempt leaves behind: its outcome, the slot and the ledger.
pub open spec fn left_by<O>(
    ended: Attempted<O>,
    outcome: AttemptOutcome,
    slot: SlotView<O>,
    slot_then: SlotView<O>,
    ledger: LedgerView,
    ledger_then: LedgerView,
) -> bool {
    &&& outcome == outcome_of(ended)
    &&& slot_then == slot_after(slot, ended)
    &&& ledger_then == ledger_after(slot, ledger, ended)
}

/// Runs a node's one attempt: the opening records, the work, the classification, and the
/// closing records.
pub fn run_attempt<O, P, R, W, S>(
    work: W,
    node: &str,
    ctx: &RunContext<P, R>,
    slot: &mut Slot<O>,
    ledger: &mut ResidencyLedger,
    sink: &mut S,
) -> (r: AttemptOutcome) where W: FnOnce(&RunContext<P, R>) -> Result<O, TaskError>, S: AttemptEventSink
    requires
        call_requires(work, (ctx,)),
        old(slot)@.content is Empty ==> old(ledger)@.current + old(slot)@.residency <= u64::MAX,
    ensures
        exists|result: Result<O, TaskError>|
            {
                &&& #[trigger] call_ensures(work, (ctx,), result)
                &&& left_by(
                    Attempted::Returned(result),
                    r,
                    old(slot)@,
                    final(slot)@,
                    old(ledger)@,
                    final(ledger)@,
                )
            },
        final(sink).log() == old(sink).log() + opening(node@, ctx@.attempt) + closing(node@, ctx@.attempt, r),
{
    let ghost start = sink.log();
    open_attempt(node, ctx.attempt(), sink);
    let result = work(ctx);
    let ghost how = result;
    let outcome = end_attempt(node, ctx.attempt(), Attempted::Returned(result), slot, ledger, sink);
    emit_node_terminal(node, outcome.terminal_state(), sink);
    proof {
        assert(call_ensures(work, (ctx,), how));
        assert(sink.log() =~= start + opening(node@, ctx@.attempt) + closing(node@, ctx@.attempt, outcome));
    }
    outcome
}

/// Runs a node's one attempt as [`run_attempt`] does, where the work may be given up on
/// because it exceeded its time.
pub fn run_attempt_with_timeout<O, P, R, W, S>(
    work: W,
    node: &str,
    ctx: &RunContext<P, R>,
    slot: &mut Slot<O>,
    ledger: &mut ResidencyLedger,
    sink: &mut S,
) -> (r: AttemptOutcome) where W: FnOnce(&RunContext<P, R>) -> Attempted<O>, S: AttemptEventSink
    requires
        call_requires(work, (ctx,)),
        old(slot)@.content is Empty ==> old(ledger)@.current + old(slot)@.residency <= u64::MAX,
    ensures
        exists|ended: Attempted<O>|
            {
                &&& #[trigger] call_ensures(work, (ctx,), ended)
                &&& left_by(ended, r, old(slot)@, final(slot)@, old(ledger)@, final(ledger)@)
            },
        final(sink).log() == old(sink).log() + opening(node@, ctx@.attempt) + closing(node@, ctx@.attempt, r),
{
    let ghost start = sink.log();
    open_attempt(node, ctx.attempt(), sink);
    let ended = work(ctx);
    let ghost how = ended;
    let outcome = end_attempt(node, ctx.attempt(), ended, slot, ledger, sink);
    emit_node_terminal(node, outcome.terminal_state(), sink);
    proof {
        assert(call_ensures(work, (ctx,), how));
        assert(sink.log() =~= start + opening(node@, ctx@.attempt) + closing(node@, ctx@.attempt, outcome));
    }
    outcome
}

} // verus!
