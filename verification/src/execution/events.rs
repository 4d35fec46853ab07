//! The records that attempts leave.

use crate::context::TerminalState;
use crate::time::Duration;
use vstd::prelude::*;

verus! {

/// A record of an attempt.
#[derive(Debug, Clone, PartialEq, Eq)]
#[non_exhaustive]
pub enum AttemptEvent {
    /// The node was admitted.
    NodeAdmitted { node: String },
    /// The attempt began.
    AttemptStarted { node: String, attempt: u32 },
    /// The attempt returned a value.
    AttemptSucceeded { node: String, attempt: u32 },
    /// The attempt failed, or skipped.
    AttemptFailed { node: String, attempt: u32 },
    /// The attempt exceeded its time.
    AttemptTimedOut { node: String, attempt: u32 },
    /// The attempt failed, and the next one is waited for.
    BackoffStarted { node: String, attempt: u32, delay: Duration },
    /// The node reached a terminal state.
    NodeTerminal { node: String, state: TerminalState },
}

/// The contents of an [`AttemptEvent`].
#[verifier::ext_equal]
pub enum EventView {
    NodeAdmitted { node: Seq<char> },
    AttemptStarted { node: Seq<char>, attempt: u32 },
    AttemptSucceeded { node: Seq<char>, attempt: u32 },
    AttemptFailed { node: Seq<char>, attempt: u32 },
    AttemptTimedOut { node: Seq<char>, attempt: u32 },
    BackoffStarted { node: Seq<char>, attempt: u32, delay: Duration },
    NodeTerminal { node: Seq<char>, state: TerminalState },
}

impl View for AttemptEvent {
    type V = EventView;

    open spec fn view(&self) -> EventView {
        match self {
            AttemptEvent::NodeAdmitted { node } => EventView::NodeAdmitted { node: node@ },
            AttemptEvent::AttemptStarted { node, attempt } => EventView::AttemptStarted {
                node: node@,
                attempt: *attempt,
            },
            AttemptEvent::AttemptSucceeded { node, attempt } => EventView::AttemptSucceeded {
                node: node@,
                attempt: *attempt,
            },
            AttemptEvent::AttemptFailed { node, attempt } => EventView::AttemptFailed {
                node: node@,
                attempt: *attempt,
            },
            AttemptEvent::AttemptTimedOut { node, attempt } => EventView::AttemptTimedOut {
                node: node@,
                attempt: *attempt,
            },
            AttemptEvent::BackoffStarted { node, attempt, delay } => EventView::BackoffStarted {
                node: node@,
                attempt: *attempt,
                delay: *delay,
            },
            AttemptEvent::NodeTerminal { node, state } => EventView::NodeTerminal { node: node@, state: *state },
        }
    }
}

impl EventView {
    /// Whether the record closes an attempt.
    pub open spec fn is_outcome(self) -> bool {
        self is AttemptSucceeded || self is AttemptFailed || self is AttemptTimedOut
    }
}

/// Where records go. Each is taken once, in order.
pub trait AttemptEventSink {
    /// The records that were taken.
    spec fn log(&self) -> Seq<EventView>;

    /// Takes a record.
    fn emit(&mut self, event: AttemptEvent)
        ensures
            final(self).log() == old(self).log().push(event@),
    ;
}

/// A sink that keeps the records.
#[derive(Debug)]
pub struct EventLog {
    events: Vec<AttemptEvent>,
}

impl EventLog {
    /// An empty log.
    #[must_use]
    pub fn new() -> (r: Self)
        ensures
            r.log() == Seq::<EventView>::empty(),
    {
        let r = EventLog { events: Vec::new() };
        assert(r.log() =~= Seq::<EventView>::empty());
        r
    }

    /// The records, in order.
    #[must_use]
    pub fn events(&self) -> (r: &[AttemptEvent])
        ensures
            r@.map_values(|e: AttemptEvent| e@) == self.log(),
    {
        self.events.as_slice()
    }
}

impl AttemptEventSink for EventLog {
    closed spec fn log(&self) -> Seq<EventView> {
        self.events@.map_values(|e: AttemptEvent| e@)
    }

    fn emit(&mut self, event: AttemptEvent) {
        let ghost before = self.log();
        let ghost view = event@;
        self.events.push(event);
        assert(self.log() =~= before.push(view));
    }
}

} // verus!
