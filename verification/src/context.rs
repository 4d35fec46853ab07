//! What a task is told about the run that it is part of.
//!
//! A [`RunContext`] carries the identities of the run, the pipeline and the node, the
//! attempt, the parameters, the data interval, the cancellation signal, and the ways to
//! the resources and the scratch store. All of it is only read.

pub mod cancellation;
pub mod resources;

use crate::handle::NodeId;
use crate::payload::ordered;
use crate::payload::OrderedMap;
use crate::scratch::{self, PlaceView};
use vstd::prelude::*;

pub use self::cancellation::{CancellationOrigin, CancellationScope, CancellationSignal, CancellationSource};
pub use self::resources::{
    surface_requirements, BootstrapFailure, BootstrapOutcome, MissingResourceError, RegistryError, ResourceRegistry,
    ResourceRegistryBuilder, ResourceRequirement, ResourceRequirements,
};
pub use crate::scratch::{ScratchError, ScratchStore};

verus! {

/// The identity of a run. What it holds means nothing here.
#[derive(Debug, PartialEq, Eq, Hash)]
pub struct RunId {
    text: String,
}

impl View for RunId {
    type V = Seq<char>;

    closed spec fn view(&self) -> Seq<char> {
        self.text@
    }
}

impl RunId {
    /// Takes a run's identity as it is.
    #[must_use]
    pub fn new(id: &str) -> (r: Self)
        ensures
            r@ == id@,
    {
        RunId { text: String::from_str(id) }
    }

    /// The identity, as it was given.
    #[must_use]
    pub fn as_str(&self) -> (r: &str)
        ensures
            r@ == self@,
    {
        self.text.as_str()
    }
}

impl Clone for RunId {
    fn clone(&self) -> (r: Self)
        ensures
            r@ == self@,
    {
        RunId { text: self.text.clone() }
    }
}

/// The identity of a pipeline. What it holds means nothing here.
#[derive(Debug, PartialEq, Eq, Hash)]
pub struct PipelineId {
    text: String,
}

impl View for PipelineId {
    type V = Seq<char>;

    closed spec fn view(&self) -> Seq<char> {
        self.text@
    }
}

impl PipelineId {
    /// Takes a pipeline's identity as it is.
    #[must_use]
    pub fn new(id: &str) -> (r: Self)
        ensures
            r@ == id@,
    {
        PipelineId { text: String::from_str(id) }
    }

    /// The identity, as it was given.
    #[must_use]
    pub fn as_str(&self) -> (r: &str)
        ensures
            r@ == self@,
    {
        self.text.as_str()
    }
}

impl Clone for PipelineId {
    fn clone(&self) -> (r: Self)
        ensures
            r@ == self@,
    {
        PipelineId { text: self.text.clone() }
    }
}

/// The contents of a [`DataInterval`].
#[verifier::ext_equal]
pub struct IntervalView {
    pub start: Seq<char>,
    pub end: Seq<char>,
}

/// A pair of values that the caller supplies. They are kept as they are given: nothing
/// here reads, orders or advances them.
#[derive(Debug, Clone, PartialEq, Eq)]
pub struct DataInterval {
    start: String,
    end: String,
}

impl View for DataInterval {
    type V = IntervalView;

    closed spec fn view(&self) -> IntervalView {
        IntervalView { start: self.start@, end: self.end@ }
    }
}

impl DataInterval {
    /// Keeps an interval.
    #[must_use]
    pub fn new(start: &str, end: &str) -> (r: Self)
        ensures
            r@ == (IntervalView { start: start@, end: end@ }),
    {
        DataInterval { start: String::from_str(start), end: String::from_str(end) }
    }

    /// The first value, as it was given.
    #[must_use]
    pub fn start(&self) -> (r: &str)
        ensures
            r@ == self@.start,
    {
        self.start.as_str()
    }

    /// The second value, as it was given.
    #[must_use]
    pub fn end(&self) -> (r: &str)
        ensures
            r@ == self@.end,
    {
        self.end.as_str()
    }
}

/// The contents of a [`LogSpan`].
#[verifier::ext_equal]
pub struct SpanView {
    pub run: Seq<char>,
    pub node: NodeId,
    pub attempt: u32,
}

/// What the lines of an attempt's log are attributed to.
#[derive(Debug, Clone)]
pub struct LogSpan {
    run: RunId,
    node: NodeId,
    attempt: u32,
}

impl View for LogSpan {
    type V = SpanView;

    closed spec fn view(&self) -> SpanView {
        SpanView { run: self.run@, node: self.node, attempt: self.attempt }
    }
}

impl LogSpan {
    /// The run.
    #[must_use]
    pub fn run_id(&self) -> (r: &RunId)
        ensures
            r@ == self@.run,
    {
        &self.run
    }

    /// The node.
    #[must_use]
    pub fn node_id(&self) -> (r: NodeId)
        ensures
            r == self@.node,
    {
        self.node
    }

    /// The attempt.
    #[must_use]
    pub fn attempt(&self) -> (r: u32)
        ensures
            r == self@.attempt,
    {
        self.attempt
    }
}

/// A value that no output of the framework shows: it has no form in words.
pub struct Secret<T> {
    inner: T,
}

impl<T> View for Secret<T> {
    type V = T;

    closed spec fn view(&self) -> T {
        self.inner
    }
}

impl<T> Secret<T> {
    /// Marks a value as secret.
    pub fn new(value: T) -> (r: Self)
        ensures
            r@ == value,
    {
        Secret { inner: value }
    }

    /// The value, for code that is meant to have it.
    pub fn expose(&self) -> (r: &T)
        ensures
            *r == self@,
    {
        &self.inner
    }

    /// What is shown in the value's place. It is the same for every value.
    #[must_use]
    pub fn redacted(&self) -> (r: &'static str)
        ensures
            r@ == "<redacted secret>"@,
    {
        "<redacted secret>"
    }
}

/// The state a node ends a run in.
#[derive(Debug, Clone, Copy, PartialEq, Eq, Hash, Structural)]
pub enum TerminalState {
    /// The task returned a value.
    Succeeded,
    /// Permanent failure, retries exhausted, or a caught panic.
    Failed,
    /// The final attempt exceeded its time.
    TimedOut,
    /// The task skipped deliberately.
    Skipped,
    /// It never ran, because an upstream skip propagated to it.
    UpstreamSkipped,
    /// It never ran, because an upstream failure made its rule unsatisfiable.
    UpstreamFailed,
    /// It observed the cancellation, or was not admitted after it.
    Cancelled,
    /// It was asked to cancel and did not return in time.
    Abandoned,
    /// It was not executed: an earlier run's success was carried forward.
    SatisfiedFromPrior,
}

/// The states that the nodes covered by a teardown ended in.
#[derive(Debug, Clone)]
pub struct CoveredNodeStates {
    states: OrderedMap<u64, TerminalState>,
}

impl View for CoveredNodeStates {
    type V = Map<u64, TerminalState>;

    closed spec fn view(&self) -> Map<u64, TerminalState> {
        self.states@
    }
}

impl CoveredNodeStates {
    /// No covered nodes.
    #[must_use]
    pub fn new() -> (r: Self)
        ensures
            r@ == Map::<u64, TerminalState>::empty(),
    {
        CoveredNodeStates { states: OrderedMap::new() }
    }

    /// Adds a covered node and the state it ended in. A state given before is replaced.
    #[must_use]
    pub fn with(self, node: NodeId, state: TerminalState) -> (r: Self)
        ensures
            r@ == self@.insert(node@, state),
    {
        let mut states = self.states;
        let _before = states.insert(node.sort_key(), state);
        CoveredNodeStates { states }
    }

    /// The state that a covered node ended in.
    #[must_use]
    pub fn get(&self, node: NodeId) -> (r: Option<TerminalState>)
        ensures
            match r {
                Some(state) => self@.dom().contains(node@) && state == self@[node@],
                None => !self@.dom().contains(node@),
            },
    {
        match self.states.get(&node.sort_key()) {
            Some(state) => Some(*state),
            None => None,
        }
    }

    /// The number of covered nodes.
    #[must_use]
    pub fn len(&self) -> (r: usize)
        ensures
            self@.dom().finite(),
            r == self@.dom().len(),
    {
        let r: usize = self.states.len();
        proof {
            ordered::lemma_map_len::<u64, TerminalState>(self.states.entries());
        }
        r
    }

    /// Whether no node is covered.
    #[must_use]
    pub fn is_empty(&self) -> (r: bool)
        ensures
            r == (self@ == Map::<u64, TerminalState>::empty()),
    {
        let r: usize = self.states.len();
        proof {
            let es = self.states.entries();
            if es.len() == 0 {
                assert(self@ =~= Map::<u64, TerminalState>::empty());
            } else {
                ordered::lemma_entry::<u64, TerminalState>(es, 0);
                assert(self@.dom().contains(es[0].0));
            }
        }
        r == 0
    }
}

impl Default for CoveredNodeStates {
    fn default() -> (r: Self)
        ensures
            r@ == Map::<u64, TerminalState>::empty(),
    {
        CoveredNodeStates::new()
    }
}

/// What a context holds.
pub struct ContextView<P, R> {
    pub run: Seq<char>,
    pub pipeline: Seq<char>,
    pub node: NodeId,
    pub attempt: u32,
    pub max_attempts: u32,
    pub parameters: Option<P>,
    pub data_interval: Option<IntervalView>,
    pub cancellation: CancellationSignal,
    pub span: SpanView,
    pub resources: Map<u64, R>,
    pub scratch: Option<PlaceView>,
    pub covered: Option<Map<u64, TerminalState>>,
    pub temp_dir: Option<Seq<char>>,
}

/// What a task is told about the run that it is part of. `P` is the type of the run's
/// parameters and `R` that of its resources.
#[derive(Debug, Clone)]
pub struct RunContext<P, R> {
    run: RunId,
    pipeline: PipelineId,
    node: NodeId,
    attempt: u32,
    max_attempts: u32,
    parameters: Option<P>,
    data_interval: Option<DataInterval>,
    cancellation: CancellationSignal,
    span: LogSpan,
    resources: ResourceRegistry<R>,
    scratch: ScratchStore,
    covered_terminal_states: Option<CoveredNodeStates>,
    temp_dir: Option<String>,
}

/// The contents of an interval that may be absent.
pub open spec fn interval_view(interval: Option<DataInterval>) -> Option<IntervalView> {
    match interval {
        Some(i) => Some(i@),
        None => None,
    }
}

/// The contents of covered states that may be absent.
pub open spec fn covered_view(covered: Option<CoveredNodeStates>) -> Option<Map<u64, TerminalState>> {
    match covered {
        Some(c) => Some(c@),
        None => None,
    }
}

impl<P, R> View for RunContext<P, R> {
    type V = ContextView<P, R>;

    closed spec fn view(&self) -> ContextView<P, R> {
        ContextView {
            run: self.run@,
            pipeline: self.pipeline@,
            node: self.node,
            attempt: self.attempt,
            max_attempts: self.max_attempts,
            parameters: self.parameters,
            data_interval: interval_view(self.data_interval),
            cancellation: self.cancellation,
            span: self.span@,
            resources: self.resources@,
            scratch: self.scratch@,
            covered: covered_view(self.covered_terminal_states),
            temp_dir: crate::assembly::text_of(self.temp_dir),
        }
    }
}

impl<P, R> RunContext<P, R> {
    /// Starts a context for an attempt of a node. What is not set stays at the first
    /// attempt of one, without parameters, interval, resources, stores or covered nodes,
    /// and never cancelled.
    #[must_use]
    pub fn builder(run: RunId, pipeline: PipelineId, node: NodeId) -> (r: RunContextBuilder<P, R>)
        ensures
            r@ == BuilderView::<P, R>::fresh(run@, pipeline@, node),
    {
        RunContextBuilder::new(run, pipeline, node)
    }

    /// A context for trying a single task out.
    #[must_use]
    pub fn for_test() -> (r: Self)
        ensures
            r@ == BuilderView::<P, R>::fresh(
                "test-run"@,
                "test-pipeline"@,
                crate::handle::node_id("test-node"@),
            ).built(),
    {
        RunContext::builder(RunId::new("test-run"), PipelineId::new("test-pipeline"), NodeId::from_name("test-node")).build()
    }

    /// The run.
    #[must_use]
    pub fn run_id(&self) -> (r: &RunId)
        ensures
            r@ == self@.run,
    {
        &self.run
    }

    /// The pipeline.
    #[must_use]
    pub fn pipeline_id(&self) -> (r: &PipelineId)
        ensures
            r@ == self@.pipeline,
    {
        &self.pipeline
    }

    /// The node.
    #[must_use]
    pub fn node_id(&self) -> (r: NodeId)
        ensures
            r == self@.node,
    {
        self.node
    }

    /// The number of the attempt.
    #[must_use]
    pub fn attempt(&self) -> (r: u32)
        ensures
            r == self@.attempt,
    {
        self.attempt
    }

    /// How many attempts there are at most.
    #[must_use]
    pub fn max_attempts(&self) -> (r: u32)
        ensures
            r == self@.max_attempts,
    {
        self.max_attempts
    }

    /// The run's parameters.
    #[must_use]
    pub fn parameters(&self) -> (r: Option<&P>)
        ensures
            match r {
                Some(p) => self@.parameters == Some(*p),
                None => self@.parameters is None,
            },
    {
        match &self.parameters {
            Some(p) => Some(p),
            None => None,
        }
    }

    /// The data interval.
    #[must_use]
    pub fn data_interval(&self) -> (r: Option<&DataInterval>)
        ensures
            match r {
                Some(i) => self@.data_interval == Some(i@),
                None => self@.data_interval is None,
            },
    {
        match &self.data_interval {
            Some(i) => Some(i),
            None => None,
        }
    }

    /// The cancellation signal.
    #[must_use]
    pub fn cancellation(&self) -> (r: &CancellationSignal)
        ensures
            *r == self@.cancellation,
    {
        &self.cancellation
    }

    /// What the attempt's log is attributed to.
    #[must_use]
    pub fn span(&self) -> (r: &LogSpan)
        ensures
            r@ == self@.span,
    {
        &self.span
    }

    /// The resources.
    #[must_use]
    pub fn resources(&self) -> (r: &ResourceRegistry<R>)
        ensures
            r@ == self@.resources,
    {
        &self.resources
    }

    /// The node's scratch store.
    #[must_use]
    pub fn scratch(&self) -> (r: &ScratchStore)
        ensures
            r@ == self@.scratch,
    {
        &self.scratch
    }

    /// The states that covered nodes ended in, for a teardown.
    #[must_use]
    pub fn covered_terminal_states(&self) -> (r: Option<&CoveredNodeStates>)
        ensures
            match r {
                Some(c) => self@.covered == Some(c@),
                None => self@.covered is None,
            },
    {
        match &self.covered_terminal_states {
            Some(c) => Some(c),
            None => None,
        }
    }

    /// The run's directory for temporary files.
    #[must_use]
    pub fn temp_dir(&self) -> (r: Option<&str>)
        ensures
            match r {
                Some(dir) => self@.temp_dir == Some(dir@),
                None => self@.temp_dir is None,
            },
    {
        match &self.temp_dir {
            Some(dir) => Some(dir.as_str()),
            None => None,
        }
    }
}

/// What a builder holds.
pub struct BuilderView<P, R> {
    pub run: Seq<char>,
    pub pipeline: Seq<char>,
    pub node: NodeId,
    pub attempt: u32,
    pub max_attempts: u32,
    pub parameters: Option<P>,
    pub data_interval: Option<IntervalView>,
    pub cancellation: Option<CancellationSignal>,
    pub resources: Map<u64, R>,
    pub scratch_root: Option<Seq<char>>,
    pub covered: Option<Map<u64, TerminalState>>,
    pub temp_dir: Option<Seq<char>>,
}

impl<P, R> BuilderView<P, R> {
    /// A builder on which nothing has been set.
    pub open spec fn fresh(run: Seq<char>, pipeline: Seq<char>, node: NodeId) -> Self {
        BuilderView {
            run,
            pipeline,
            node,
            attempt: 1,
            max_attempts: 1,
            parameters: None,
            data_interval: None,
            cancellation: None,
            resources: Map::empty(),
            scratch_root: None,
            covered: None,
            temp_dir: None,
        }
    }

    /// The context that is built. Its log is attributed to the run, the node and the
    /// attempt; its scratch store is the node's below the root, or none without a root;
    /// and without a signal it is never cancelled.
    pub open spec fn built(self) -> ContextView<P, R> {
        ContextView {
            run: self.run,
            pipeline: self.pipeline,
            node: self.node,
            attempt: self.attempt,
            max_attempts: self.max_attempts,
            parameters: self.parameters,
            data_interval: self.data_interval,
            cancellation: match self.cancellation {
                Some(signal) => signal,
                None => CancellationSignal::never_spec(),
            },
            span: SpanView { run: self.run, node: self.node, attempt: self.attempt },
            resources: self.resources,
            scratch: match self.scratch_root {
                Some(base) => Some(scratch::node_place(base, self.pipeline, self.run, self.node)),
                None => None,
            },
            covered: self.covered,
            temp_dir: self.temp_dir,
        }
    }
}

/// Builds a [`RunContext`].
#[derive(Debug, Clone)]
pub struct RunContextBuilder<P, R> {
    run: RunId,
    pipeline: PipelineId,
    node: NodeId,
    attempt: u32,
    max_attempts: u32,
    parameters: Option<P>,
    data_interval: Option<DataInterval>,
    cancellation: Option<CancellationSignal>,
    resources: ResourceRegistry<R>,
    scratch_root: Option<String>,
    covered_terminal_states: Option<CoveredNodeStates>,
    temp_dir: Option<String>,
}

impl<P, R> View for RunContextBuilder<P, R> {
    type V = BuilderView<P, R>;

    closed spec fn view(&self) -> BuilderView<P, R> {
        BuilderView {
            run: self.run@,
            pipeline: self.pipeline@,
            node: self.node,
            attempt: self.attempt,
            max_attempts: self.max_attempts,
            parameters: self.parameters,
            data_interval: interval_view(self.data_interval),
            cancellation: self.cancellation,
            resources: self.resources@,
            scratch_root: crate::assembly::text_of(self.scratch_root),
            covered: covered_view(self.covered_terminal_states),
            temp_dir: crate::assembly::text_of(self.temp_dir),
        }
    }
}

impl<P, R> RunContextBuilder<P, R> {
    fn new(run: RunId, pipeline: PipelineId, node: NodeId) -> (r: Self)
        ensures
            r@ == BuilderView::<P, R>::fresh(run@, pipeline@, node),
    {
        RunContextBuilder {
            run,
            pipeline,
            node,
            attempt: 1,
            max_attempts: 1,
            parameters: None,
            data_interval: None,
            cancellation: None,
            resources: ResourceRegistry::default(),
            scratch_root: None,
            covered_terminal_states: None,
            temp_dir: None,
        }
    }

    /// Sets the number of the attempt.
    #[must_use]
    pub fn attempt(self, attempt: u32) -> (r: Self)
        ensures
            r@ == (BuilderView { attempt, ..self@ }),
    {
        RunContextBuilder { attempt, ..self }
    }

    /// Sets how many attempts there are at most.
    #[must_use]
    pub fn max_attempts(self, max_attempts: u32) -> (r: Self)
        ensures
            r@ == (BuilderView { max_attempts, ..self@ }),
    {
        RunContextBuilder { max_attempts, ..self }
    }

    /// Sets the run's parameters.
    #[must_use]
    pub fn parameters(self, parameters: P) -> (r: Self)
        ensures
            r@ == (BuilderView { parameters: Some(parameters), ..self@ }),
    {
        RunContextBuilder { parameters: Some(parameters), ..self }
    }

    /// Sets the data interval.
    #[must_use]
    pub fn data_interval(self, interval: DataInterval) -> (r: Self)
        ensures
            r@ == (BuilderView { data_interval: Some(interval@), ..self@ }),
    {
        RunContextBuilder { data_interval: Some(interval), ..self }
    }

    /// Sets the cancellation signal.
    #[must_use]
    pub fn cancellation(self, signal: CancellationSignal) -> (r: Self)
        ensures
            r@ == (BuilderView { cancellation: Some(signal), ..self@ }),
    {
        RunContextBuilder { cancellation: Some(signal), ..self }
    }

    /// Sets the resources.
    #[must_use]
    pub fn resources(self, resources: ResourceRegistry<R>) -> (r: Self)
        ensures
            r@ == (BuilderView { resources: resources@, ..self@ }),
    {
        RunContextBuilder { resources, ..self }
    }

    /// Sets the base of the run store, below which the node's scratch store is.
    #[must_use]
    pub fn scratch_root(self, base: &str) -> (r: Self)
        ensures
            r@ == (BuilderView { scratch_root: Some(base@), ..self@ }),
    {
        RunContextBuilder { scratch_root: Some(String::from_str(base)), ..self }
    }

    /// Sets the states that covered nodes ended in: the context is a teardown's.
    #[must_use]
    pub fn covered_terminal_states(self, covered: CoveredNodeStates) -> (r: Self)
        ensures
            r@ == (BuilderView { covered: Some(covered@), ..self@ }),
    {
        RunContextBuilder { covered_terminal_states: Some(covered), ..self }
    }

    /// Sets the run's directory for temporary files.
    #[must_use]
    pub fn temp_dir(self, dir: &str) -> (r: Self)
        ensures
            r@ == (BuilderView { temp_dir: Some(dir@), ..self@ }),
    {
        RunContextBuilder { temp_dir: Some(String::from_str(dir)), ..self }
    }

    /// Builds the context.
    #[must_use]
    pub fn build(self) -> (r: RunContext<P, R>)
        ensures
            r@ == self@.built(),
    {
        let cancellation = match self.cancellation {
            Some(signal) => signal,
            None => CancellationSignal::never(),
        };
        let span = LogSpan { run: self.run.clone(), node: self.node, attempt: self.attempt };
        let scratch = match &self.scratch_root {
            Some(base) => ScratchStore::for_node(base.as_str(), &self.pipeline, &self.run, self.node),
            None => ScratchStore::unwired(),
        };
        RunContext {
            run: self.run,
            pipeline: self.pipeline,
            node: self.node,
            attempt: self.attempt,
            max_attempts: self.max_attempts,
            parameters: self.parameters,
            data_interval: self.data_interval,
            cancellation,
            span,
            resources: self.resources,
            scratch,
            covered_terminal_states: self.covered_terminal_states,
            temp_dir: self.temp_dir,
        }
    }
}

/// A context carries what its builder was given: the run, the pipeline, the node, the
/// attempt and the rest, each as it was set. Its log is attributed to the run, the node and
/// the attempt; it has a scratch store exactly where a root was set, the node's own; and
/// without a signal it is never cancelled.
pub proof fn law_a_context_carries_what_was_set<P, R>(builder: BuilderView<P, R>, root: Seq<char>, signal: CancellationSignal)
    ensures
        ({
            let context = builder.built();
            &&& context.run == builder.run && context.span.run == builder.run
            &&& context.pipeline == builder.pipeline
            &&& context.node == builder.node && context.span.node == builder.node
            &&& context.attempt == builder.attempt && context.span.attempt == builder.attempt
            &&& context.max_attempts == builder.max_attempts
            &&& context.parameters == builder.parameters
            &&& context.data_interval == builder.data_interval
            &&& context.resources == builder.resources
            &&& context.covered == builder.covered
            &&& context.temp_dir == builder.temp_dir
            &&& builder.scratch_root is None ==> context.scratch is None
            &&& builder.scratch_root == Some(root) ==> context.scratch == Some(
                scratch::node_place(root, builder.pipeline, builder.run, builder.node),
            )
            &&& builder.cancellation is None ==> context.cancellation.token() is None
            &&& builder.cancellation == Some(signal) ==> context.cancellation == signal
        }),
{
    cancellation::law_a_signal_shows_its_token(signal, cancellation::ScopeView::empty(), None, 0);
}

/// A context of which nothing was set is that of the first attempt of one, and holds
/// nothing.
pub proof fn law_a_fresh_context_holds_nothing<P, R>(run: Seq<char>, pipeline: Seq<char>, node: NodeId)
    ensures
        ({
            let builder = BuilderView::<P, R>::fresh(run, pipeline, node);
            &&& builder.run == run && builder.pipeline == pipeline && builder.node == node
            &&& builder.attempt == 1 && builder.max_attempts == 1
            &&& builder.parameters is None && builder.data_interval is None
            &&& builder.cancellation is None && builder.scratch_root is None
            &&& builder.covered is None && builder.temp_dir is None
            &&& builder.resources.dom() == Set::<u64>::empty()
        }),
{
}

} // verus!
