//! The retry loop.

use super::attempt::{self, emit_node_terminal, end_attempt, open_attempt, Attempted};
use super::events::{AttemptEvent, AttemptEventSink, EventView};
use super::outcome::AttemptOutcome;
use super::RetryConfig;
use crate::context::{BuilderView, ContextView, PipelineId, RunContext, RunId};
use crate::handle::{self, NodeId};
use crate::slot::{ResidencyLedger, Slot};
use crate::time::Duration;
use vstd::prelude::*;

verus! {

/// Whether there is another attempt after one: its outcome allows it, and the attempts
/// are not used up.
pub open spec fn retries(outcome: AttemptOutcome, attempt: u32, max: u32) -> bool {
    outcome.retryable() && attempt < max
}

/// The records that close an attempt: its own and, where it is the last, the node's.
pub open spec fn closed(node: Seq<char>, attempt: u32, outcome: AttemptOutcome, max: u32) -> Seq<EventView> {
    if retries(outcome, attempt, max) {
        seq![attempt::outcome_record(node, attempt, outcome)]
    } else {
        attempt::closing(node, attempt, outcome)
    }
}

/// The records of the attempts from one on, with these outcomes and delays between them.
pub open spec fn trace(node: Seq<char>, max: u32, attempt: u32, outcomes: Seq<AttemptOutcome>, delays: Seq<Duration>) -> Seq<
    EventView,
>
    decreases outcomes.len(),
{
    if outcomes.len() == 0 {
        Seq::empty()
    } else {
        let this = attempt::opening(node, attempt) + closed(node, attempt, outcomes[0], max);
        if outcomes.len() == 1 {
            this
        } else {
            this + seq![EventView::BackoffStarted { node, attempt, delay: delays[0] }] + trace(
                node,
                max,
                (attempt + 1) as u32,
                outcomes.drop_first(),
                delays.drop_first(),
            )
        }
    }
}

/// Whether outcomes are those of a whole run of attempts: after each but the last there
/// is another attempt, and after the last there is none.
pub open spec fn complete(max: u32, attempt: u32, outcomes: Seq<AttemptOutcome>) -> bool
    decreases outcomes.len(),
{
    if outcomes.len() == 0 {
        false
    } else if retries(outcomes[0], attempt, max) {
        complete(max, (attempt + 1) as u32, outcomes.drop_first())
    } else {
        outcomes.len() == 1
    }
}

/// What comes after an attempt.
#[derive(Debug, Clone, Copy, PartialEq, Eq, Structural)]
pub enum RetryStep {
    /// Another attempt, after a delay: the one at this place, from zero, of the schedule.
    BackOff(u32),
    /// Nothing: the node has ended with this outcome.
    Done(AttemptOutcome),
}

/// Where a retry loop is.
#[derive(Debug, Clone, Copy, PartialEq, Eq, Structural)]
pub enum Stage {
    /// An attempt is to begin.
    Ready,
    /// An attempt runs.
    Running,
    /// An attempt failed and another is due.
    Waiting,
    /// The node has ended.
    Ended,
}

/// The state of a retry loop.
#[verifier::ext_equal]
pub struct LoopView {
    pub node: Seq<char>,
    pub attempt: u32,
    pub max: u32,
    pub stage: Stage,
}

/// The retry loop of one node, step by step: whoever runs the work asks it what to do.
#[derive(Debug)]
pub struct RetryLoop {
    node: String,
    attempt: u32,
    max: u32,
    stage: Stage,
}

impl View for RetryLoop {
    type V = LoopView;

    closed spec fn view(&self) -> LoopView {
        LoopView { node: self.node@, attempt: self.attempt, max: self.max, stage: self.stage }
    }
}

impl LoopView {
    /// Attempts are numbered from one, and while another is due there is one left.
    pub open spec fn wf(self) -> bool {
        &&& 1 <= self.attempt
        &&& self.stage == Stage::Waiting ==> self.attempt < self.max
    }
}

impl RetryLoop {
    /// A loop before its first attempt.
    #[must_use]
    pub fn new(node: &str, config: &RetryConfig) -> (r: Self)
        ensures
            r@.wf(),
            r@ == (LoopView { node: node@, attempt: 1, max: config.spec_max_attempts(), stage: Stage::Ready }),
    {
        RetryLoop { node: String::from_str(node), attempt: 1, max: config.max_attempts(), stage: Stage::Ready }
    }

    /// The number of the attempt that runs or is to begin, or of the last one.
    #[must_use]
    pub fn attempt(&self) -> (r: u32)
        ensures
            r == self@.attempt,
    {
        self.attempt
    }

    /// How many attempts there are at most.
    #[must_use]
    pub fn max_attempts(&self) -> (r: u32)
        ensures
            r == self@.max,
    {
        self.max
    }

    /// Where the loop is.
    #[must_use]
    pub fn stage(&self) -> (r: Stage)
        ensures
            r == self@.stage,
    {
        self.stage
    }

    /// Begins an attempt: leaves its opening records.
    pub fn begin<S: AttemptEventSink>(&mut self, sink: &mut S)
        requires
            old(self)@.wf(),
            old(self)@.stage == Stage::Ready,
        ensures
            final(self)@.wf(),
            final(self)@ == (LoopView { stage: Stage::Running, ..old(self)@ }),
            final(sink).log() == old(sink).log() + attempt::opening(old(self)@.node, old(self)@.attempt),
    {
        open_attempt(self.node.as_str(), self.attempt, sink);
        self.stage = Stage::Running;
    }

    /// Ends the attempt: classifies it, fills the slot, leaves the records that close it,
    /// and says what comes after it.
    pub fn end<O, S: AttemptEventSink>(
        &mut self,
        ended: Attempted<O>,
        slot: &mut Slot<O>,
        ledger: &mut ResidencyLedger,
        sink: &mut S,
    ) -> (r: RetryStep)
        requires
            old(self)@.wf(),
            old(self)@.stage == Stage::Running,
            old(slot)@.content is Empty ==> old(ledger)@.current + old(slot)@.residency <= u64::MAX,
        ensures
            final(self)@.wf(),
            ({
                let outcome = attempt::outcome_of(ended);
                let again = retries(outcome, old(self)@.attempt, old(self)@.max);
                &&& final(self)@ == (LoopView {
                    stage: if again {
                        Stage::Waiting
                    } else {
                        Stage::Ended
                    },
                    ..old(self)@
                })
                &&& r == (if again {
                    RetryStep::BackOff((old(self)@.attempt - 1) as u32)
                } else {
                    RetryStep::Done(outcome)
                })
                &&& final(sink).log() == old(sink).log() + closed(
                    old(self)@.node,
                    old(self)@.attempt,
                    outcome,
                    old(self)@.max,
                )
            }),
            final(slot)@ == attempt::slot_after(old(slot)@, ended),
            final(ledger)@ == attempt::ledger_after(old(slot)@, old(ledger)@, ended),
    {
        let ghost start = sink.log();
        let ghost view = self@;
        let outcome = end_attempt(self.node.as_str(), self.attempt, ended, slot, ledger, sink);
        if outcome.is_retry_eligible() && self.attempt < self.max {
            self.stage = Stage::Waiting;
            assert(sink.log() =~= start + closed(view.node, view.attempt, outcome, view.max));
            return RetryStep::BackOff(self.attempt - 1);
        }
        self.stage = Stage::Ended;
        emit_node_terminal(self.node.as_str(), outcome.terminal_state(), sink);
        assert(sink.log() =~= start + closed(view.node, view.attempt, outcome, view.max));
        RetryStep::Done(outcome)
    }

    /// Records the delay before the next attempt, which is then to begin once it is over.
    pub fn back_off<S: AttemptEventSink>(&mut self, delay: Duration, sink: &mut S)
        requires
            old(self)@.wf(),
            old(self)@.stage == Stage::Waiting,
        ensures
            final(self)@.wf(),
            final(self)@ == (LoopView { attempt: (old(self)@.attempt + 1) as u32, stage: Stage::Ready, ..old(self)@ }),
            final(sink).log() == old(sink).log().push(
                EventView::BackoffStarted { node: old(self)@.node, attempt: old(self)@.attempt, delay },
            ),
    {
        sink.emit(
            AttemptEvent::BackoffStarted { node: String::from_str(self.node.as_str()), attempt: self.attempt, delay },
        );
        self.attempt = self.attempt + 1;
        self.stage = Stage::Ready;
    }
}

/// The context of an attempt: fresh, with its number and how many there are at most.
pub open spec fn attempt_context(run: Seq<char>, pipeline: Seq<char>, node: Seq<char>, attempt: u32, max: u32) -> ContextView<
    (),
    (),
> {
    BuilderView {
        attempt,
        max_attempts: max,
        ..BuilderView::<(), ()>::fresh(run, pipeline, handle::node_id(node))
    }.built()
}

/// What the attempts came to, by how they ended.
pub open spec fn outcomes_of<O>(ended: Seq<Attempted<O>>) -> Seq<AttemptOutcome> {
    Seq::new(ended.len(), |i: int| attempt::outcome_of(ended[i]))
}

/// Whether one run of the work with such a context can have ended so.
pub open spec fn ran_once<O, W: Fn(&RunContext<(), ()>) -> Attempted<O>>(
    work: W,
    context: ContextView<(), ()>,
    ended: Attempted<O>,
) -> bool {
    exists|ctx: RunContext<(), ()>| ctx@ == context && #[trigger] call_ensures(work, (&ctx,), ended)
}

/// Whether attempts from the first on can have ended as they did: each was one run of
/// the work, with a context of its own that carries its number.
pub open spec fn ran<O, W: Fn(&RunContext<(), ()>) -> Attempted<O>>(
    work: W,
    run: Seq<char>,
    pipeline: Seq<char>,
    node: Seq<char>,
    max: u32,
    ended: Seq<Attempted<O>>,
) -> bool {
    forall|i: int|
        0 <= i < ended.len() ==> ran_once(
            work,
            attempt_context(run, pipeline, node, (i + 1) as u32, max),
            #[trigger] ended[i],
        )
}

/// Whether the delays are those of the schedule, from its first place on.
pub open spec fn scheduled<D: Fn(u32) -> Duration>(schedule: D, delays: Seq<Duration>) -> bool {
    forall|i: int| 0 <= i < delays.len() ==> call_ensures(schedule, (i as u32,), #[trigger] delays[i])
}

/// Whether the timer was waited on for each delay.
pub open spec fn waited<F: Fn(Duration)>(timer: F, delays: Seq<Duration>) -> bool {
    forall|i: int| 0 <= i < delays.len() ==> call_ensures(timer, (#[trigger] delays[i],), ())
}

/// Runs a node's work until an attempt ends it: with a value, with a failure that is not
/// retried, with a skip, or because the attempts are used up. Each attempt has a context
/// of its own and leaves one record of its own, and the node leaves one. `schedule` gives
/// the delay at a place, from zero, and `timer` waits.
pub fn run_with_retries<O, W, S, D, F>(
    work: W,
    node: &str,
    run: &RunId,
    pipeline: &PipelineId,
    slot: &mut Slot<O>,
    ledger: &mut ResidencyLedger,
    sink: &mut S,
    config: &RetryConfig,
    schedule: D,
    timer: F,
) -> (r: AttemptOutcome) where
    W: Fn(&RunContext<(), ()>) -> Attempted<O>,
    S: AttemptEventSink,
    D: Fn(u32) -> Duration,
    F: Fn(Duration),

    requires
        forall|ctx: &RunContext<(), ()>| #[trigger] call_requires(work, (ctx,)),
        forall|index: u32| #[trigger] call_requires(schedule, (index,)),
        forall|delay: Duration| #[trigger] call_requires(timer, (delay,)),
        old(slot)@.content is Empty ==> old(ledger)@.current + old(slot)@.residency <= u64::MAX,
    ensures
        exists|ended: Seq<Attempted<O>>, delays: Seq<Duration>|
            {
                &&& ran(work, run@, pipeline@, node@, config.spec_max_attempts(), ended)
                &&& scheduled(schedule, delays)
                &&& waited(timer, delays)
                &&& delays.len() + 1 == ended.len()
                &&& complete(config.spec_max_attempts(), 1, outcomes_of(ended))
                &&& attempt::left_by(ended.last(), r, old(slot)@, final(slot)@, old(ledger)@, final(ledger)@)
                &&& final(sink).log() == old(sink).log() + #[trigger] trace(
                    node@,
                    config.spec_max_attempts(),
                    1,
                    outcomes_of(ended),
                    delays,
                )
            },
{
    let mut state = RetryLoop::new(node, config);
    let ghost max = config.spec_max_attempts();
    let ghost start = sink.log();
    let ghost mut ends: Seq<Attempted<O>> = Seq::empty();
    let ghost mut delays: Seq<Duration> = Seq::empty();
    proof {
        assert(start + prefix(node@, max, 1, outcomes_of(ends), delays) =~= start);
    }
    loop
        invariant
            forall|ctx: &RunContext<(), ()>| #[trigger] call_requires(work, (ctx,)),
            forall|index: u32| #[trigger] call_requires(schedule, (index,)),
            forall|delay: Duration| #[trigger] call_requires(timer, (delay,)),
            state@.wf(),
            state@.stage == Stage::Ready,
            state@.node == node@,
            state@.max == max,
            max == config.spec_max_attempts(),
            state@.attempt == 1 + ends.len(),
            ends.len() == delays.len(),
            state@.attempt == 1 || state@.attempt <= max,
            all_retry(max, 1, outcomes_of(ends)),
            ran(work, run@, pipeline@, node@, max, ends),
            scheduled(schedule, delays),
            waited(timer, delays),
            start == old(sink).log(),
            slot@ == old(slot)@,
            ledger@ == old(ledger)@,
            slot@.content is Empty ==> ledger@.current + slot@.residency <= u64::MAX,
            sink.log() == start + prefix(node@, max, 1, outcomes_of(ends), delays),
        decreases (if max == 0 {
            1
        } else {
            max as int
        }) - state@.attempt + 1,
    {
        let ghost attempt = state@.attempt;
        let ghost before = sink.log();
        let ctx: RunContext<(), ()> = RunContext::builder(run.clone(), pipeline.clone(), NodeId::from_name(node)).attempt(
            state.attempt(),
        ).max_attempts(state.max_attempts()).build();
        state.begin(sink);
        let ended = work(&ctx);
        let ghost how = ended;
        let ghost outcome = attempt::outcome_of(ended);
        let step = state.end(ended, slot, ledger, sink);
        let ghost this = attempt::opening(node@, attempt) + closed(node@, attempt, outcome, max);
        let ghost all = ends.push(how);
        proof {
            assert(sink.log() =~= before + this);
            assert(outcomes_of(all) =~= outcomes_of(ends).push(outcome));
            lemma_ran_grows(work, run@, pipeline@, node@, max, ends, ctx, how);
        }
        match step {
            RetryStep::Done(done) => {
                proof {
                    lemma_complete(max, 1, outcomes_of(ends), outcome);
                    lemma_trace_ends(node@, max, 1, outcomes_of(ends), delays, outcome);
                    assert(sink.log() =~= start + trace(node@, max, 1, outcomes_of(all), delays));
                    assert(all.last() == how);
                }
                return done;
            },
            RetryStep::BackOff(index) => {
                let delay = schedule(index);
                state.back_off(delay, sink);
                timer(delay);
                proof {
                    lemma_prefix_grows(node@, max, 1, outcomes_of(ends), delays, outcome, delay);
                    lemma_all_retry_grows(max, 1, outcomes_of(ends), outcome);
                    ends = all;
                    delays = delays.push(delay);
                    assert(sink.log() =~= start + prefix(node@, max, 1, outcomes_of(ends), delays));
                }
            },
        }
    }
}

proof fn lemma_ran_grows<O, W: Fn(&RunContext<(), ()>) -> Attempted<O>>(
    work: W,
    run: Seq<char>,
    pipeline: Seq<char>,
    node: Seq<char>,
    max: u32,
    ended: Seq<Attempted<O>>,
    ctx: RunContext<(), ()>,
    last: Attempted<O>,
)
    requires
        ran(work, run, pipeline, node, max, ended),
        ctx@ == attempt_context(run, pipeline, node, (ended.len() + 1) as u32, max),
        call_ensures(work, (&ctx,), last),
    ensures
        ran(work, run, pipeline, node, max, ended.push(last)),
{
    let all = ended.push(last);
    assert forall|i: int| 0 <= i < all.len() implies ran_once(
        work,
        attempt_context(run, pipeline, node, (i + 1) as u32, max),
        #[trigger] all[i],
    ) by {
        if i < ended.len() {
            assert(all[i] == ended[i]);
        } else {
            assert(all[i] == last);
        }
    }
}

/// The records of attempts that were each followed by another.
spec fn prefix(node: Seq<char>, max: u32, attempt: u32, outcomes: Seq<AttemptOutcome>, delays: Seq<Duration>) -> Seq<
    EventView,
>
    decreases outcomes.len(),
{
    if outcomes.len() == 0 {
        Seq::empty()
    } else {
        attempt::opening(node, attempt) + closed(node, attempt, outcomes[0], max)
            + seq![EventView::BackoffStarted { node, attempt, delay: delays[0] }] + prefix(
            node,
            max,
            (attempt + 1) as u32,
            outcomes.drop_first(),
            delays.drop_first(),
        )
    }
}

/// Whether each of the outcomes is followed by another attempt.
spec fn all_retry(max: u32, attempt: u32, outcomes: Seq<AttemptOutcome>) -> bool
    decreases outcomes.len(),
{
    outcomes.len() == 0 || (retries(outcomes[0], attempt, max) && all_retry(
        max,
        (attempt + 1) as u32,
        outcomes.drop_first(),
    ))
}

proof fn lemma_all_retry_grows(max: u32, attempt: u32, outcomes: Seq<AttemptOutcome>, last: AttemptOutcome)
    requires
        all_retry(max, attempt, outcomes),
        attempt + outcomes.len() <= u32::MAX,
        retries(last, (attempt + outcomes.len()) as u32, max),
    ensures
        all_retry(max, attempt, outcomes.push(last)),
    decreases outcomes.len(),
{
    let more = outcomes.push(last);
    if outcomes.len() > 0 {
        assert(more.drop_first() =~= outcomes.drop_first().push(last));
        lemma_all_retry_grows(max, (attempt + 1) as u32, outcomes.drop_first(), last);
    } else {
        reveal_with_fuel(all_retry, 2);
        assert(more.drop_first() =~= Seq::<AttemptOutcome>::empty());
    }
}

proof fn lemma_complete(max: u32, attempt: u32, outcomes: Seq<AttemptOutcome>, last: AttemptOutcome)
    requires
        all_retry(max, attempt, outcomes),
        attempt + outcomes.len() <= u32::MAX,
        !retries(last, (attempt + outcomes.len()) as u32, max),
    ensures
        complete(max, attempt, outcomes.push(last)),
    decreases outcomes.len(),
{
    let more = outcomes.push(last);
    if outcomes.len() > 0 {
        assert(more.drop_first() =~= outcomes.drop_first().push(last));
        lemma_complete(max, (attempt + 1) as u32, outcomes.drop_first(), last);
    }
}

proof fn lemma_trace_ends(
    node: Seq<char>,
    max: u32,
    attempt: u32,
    outcomes: Seq<AttemptOutcome>,
    delays: Seq<Duration>,
    last: AttemptOutcome,
)
    requires
        outcomes.len() == delays.len(),
        attempt + outcomes.len() <= u32::MAX,
    ensures
        trace(node, max, attempt, outcomes.push(last), delays) == prefix(node, max, attempt, outcomes, delays) + (
        attempt::opening(node, (attempt + outcomes.len()) as u32) + closed(
            node,
            (attempt + outcomes.len()) as u32,
            last,
            max,
        )),
    decreases outcomes.len(),
{
    let more = outcomes.push(last);
    let end = attempt::opening(node, (attempt + outcomes.len()) as u32) + closed(
        node,
        (attempt + outcomes.len()) as u32,
        last,
        max,
    );
    if outcomes.len() > 0 {
        assert(more.drop_first() =~= outcomes.drop_first().push(last));
        lemma_trace_ends(node, max, (attempt + 1) as u32, outcomes.drop_first(), delays.drop_first(), last);
        assert(trace(node, max, attempt, more, delays) =~= prefix(node, max, attempt, outcomes, delays) + end);
    } else {
        assert(trace(node, max, attempt, more, delays) =~= prefix(node, max, attempt, outcomes, delays) + end);
    }
}

proof fn lemma_prefix_grows(
    node: Seq<char>,
    max: u32,
    attempt: u32,
    outcomes: Seq<AttemptOutcome>,
    delays: Seq<Duration>,
    last: AttemptOutcome,
    delay: Duration,
)
    requires
        outcomes.len() == delays.len(),
        attempt + outcomes.len() <= u32::MAX,
    ensures
        prefix(node, max, attempt, outcomes.push(last), delays.push(delay)) == prefix(
            node,
            max,
            attempt,
            outcomes,
            delays,
        ) + (attempt::opening(node, (attempt + outcomes.len()) as u32) + closed(
            node,
            (attempt + outcomes.len()) as u32,
            last,
            max,
        )).push(EventView::BackoffStarted { node, attempt: (attempt + outcomes.len()) as u32, delay }),
    decreases outcomes.len(),
{
    let more = outcomes.push(last);
    let longer = delays.push(delay);
    let end = (attempt::opening(node, (attempt + outcomes.len()) as u32) + closed(
        node,
        (attempt + outcomes.len()) as u32,
        last,
        max,
    )).push(EventView::BackoffStarted { node, attempt: (attempt + outcomes.len()) as u32, delay });
    if outcomes.len() > 0 {
        assert(more.drop_first() =~= outcomes.drop_first().push(last));
        assert(longer.drop_first() =~= delays.drop_first().push(delay));
        lemma_prefix_grows(node, max, (attempt + 1) as u32, outcomes.drop_first(), delays.drop_first(), last, delay);
        assert(prefix(node, max, attempt, more, longer) =~= prefix(node, max, attempt, outcomes, delays) + end);
    } else {
        reveal_with_fuel(prefix, 2);
        assert(more.drop_first() =~= Seq::<AttemptOutcome>::empty());
        assert(prefix(node, max, attempt, more, longer) =~= prefix(node, max, attempt, outcomes, delays) + end);
    }
}

} // verus!
