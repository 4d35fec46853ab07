use dagr_core::assembly::{
    DurableOutput, DurableReferenceMeta, DurableWitness, NodePolicy, ProblemKind, FINGERPRINT_ALGORITHM_VERSION,
};
use dagr_core::binding::test_support::{register, source};
use dagr_core::binding::{DataEdge, EdgeKind, NodeBinding, OrderingEdge, ReceiveMode, TriggerRule};
use dagr_core::context::TerminalState;
use dagr_core::error::RehydrateError;
use dagr_core::execution::{Backoff, FACTOR_TWO_BITS};
use dagr_core::flow::{FailureMode, Flow, NodeDeclaration, Pipeline};
use dagr_core::handle::{Handle, NodeId};
use dagr_core::names::NameMap;
use dagr_core::readiness::{class_of, evaluate_rule, Decision, ReadinessTracker, RuleOutcome, StateClass};
use dagr_core::resume::{plan_resume, PriorNode, PriorRun, ReferenceExistence, ResumeRefusal};
use dagr_core::task::{ExecutionClass, Task};
use dagr_core::time::Duration;

struct Produce;

impl Task for Produce {
    type Input = ();
    type Output = u32;
}

struct Effect;

impl Task for Effect {
    type Input = ();
    type Output = ();
}

struct Convert;

impl Task for Convert {
    type Input = u32;
    type Output = u32;
}

struct Sink;

impl Task for Sink {
    type Input = u32;
    type Output = ();
}

struct Join;

impl Task for Join {
    type Input = (u32, u32);
    type Output = ();
}

struct Crunch;

impl Task for Crunch {
    type Input = ();
    type Output = ();
    const EXECUTION_CLASS: ExecutionClass = ExecutionClass::Compute;
}

struct Stored(u32);

impl DurableOutput for Stored {
    fn serialize_reference(&self) -> String {
        format!("mem:{}", self.0)
    }

    fn rehydrate(_reference: &str) -> Result<Self, RehydrateError> {
        Ok(Stored(0))
    }
}

struct Store;

impl Task for Store {
    type Input = ();
    type Output = Stored;
}

struct Keep;

impl Task for Keep {
    type Input = u32;
    type Output = Stored;
}

struct Use;

impl Task for Use {
    type Input = Stored;
    type Output = ();
}

fn id(name: &str) -> NodeId {
    NodeId::from_name(name)
}

#[test]
fn edges_are_recorded_in_input_order() {
    let a: Handle<u32> = source("a", &Produce);
    let b: Handle<u32> = source("b", &Produce);
    let (_, node) = register("j", &Join, (a.shared(), b.clone_on_read()));
    assert_eq!(node.id(), id("j"));
    assert_eq!(node.trigger_rule(), TriggerRule::AllSucceeded);
    let edges: &[DataEdge] = node.data_edges();
    assert_eq!(edges.len(), 2);
    assert_eq!((edges[0].upstream(), edges[0].position(), edges[0].mode()), (id("a"), 0, ReceiveMode::Shared));
    assert_eq!((edges[1].upstream(), edges[1].position(), edges[1].mode()), (id("b"), 1, ReceiveMode::CloneOnRead));
    assert_eq!(edges[0].kind(), EdgeKind::Data);
    assert!(edges[0].implies_success() && edges[0].implies_ordering());
    let (_, owned) = register("s", &Sink, a);
    assert_eq!(owned.data_edges()[0].mode(), ReceiveMode::Owned);
    assert_eq!(NodeBinding::consuming_nothing("x").trigger_rule(TriggerRule::AnyFailed).finish::<u32>().id(), id("x"));
    assert_eq!(TriggerRule::default(), TriggerRule::AllSucceeded);
}

#[test]
fn a_node_that_consumes_data_fires_on_success_only() {
    let a: Handle<u32> = source("a", &Produce);
    let binding = NodeBinding::consuming_nothing("s").trigger_rule(TriggerRule::AnyFailed);
    let (_, node) = binding.depends_on(&Sink, a).finish::<()>();
    assert_eq!(node.trigger_rule(), TriggerRule::AllSucceeded);
}

fn diamond(reversed: bool) -> Pipeline {
    let mut flow = Flow::new();
    let a = flow.register_source("a", &Produce);
    if reversed {
        let c = flow.register("c", &Convert, a.shared());
        let b = flow.register("b", &Convert, a.shared());
        flow.register("d", &Join, (b, c));
    } else {
        let b = flow.register("b", &Convert, a.shared());
        let c = flow.register("c", &Convert, a.shared());
        flow.register("d", &Join, (b, c));
    }
    flow.finish()
}

#[test]
fn a_pipeline_is_assembled() {
    let p = diamond(false);
    assert_eq!(p.len(), 4);
    assert!(!p.is_empty());
    let artifact = p.assemble().unwrap();
    assert_eq!(artifact.node_count(), 4);
    assert_eq!(artifact.execution_order(), &[id("a"), id("b"), id("c"), id("d")]);
    assert_eq!(artifact.consumer_count(id("a")), Some(2));
    assert_eq!(artifact.consumer_count(id("d")), Some(0));
    assert_eq!(artifact.consumer_count(id("nobody")), None);
    assert_eq!(artifact.remaining_dependency_count(id("d")), Some(2));
    assert_eq!(artifact.remaining_dependency_count(id("a")), Some(0));
    assert!(artifact.warnings().is_empty());
    assert_eq!(artifact.fingerprint().structural(), p.fingerprint().structural());
    assert_eq!(artifact.fingerprint().algorithm_version(), FINGERPRINT_ALGORITHM_VERSION);
}

#[test]
fn registration_order_leaves_no_trace() {
    let a = diamond(false);
    let b = diamond(true);
    assert_eq!(a.fingerprint().structural(), b.fingerprint().structural());
    assert_eq!(a.fingerprint().policy(), b.fingerprint().policy());
    assert_eq!(a.assemble().unwrap().canonical_bytes(), b.assemble().unwrap().canonical_bytes());
    assert_eq!(a.assemble().unwrap().execution_order(), b.assemble().unwrap().execution_order());
}

fn one(policy: NodePolicy) -> Pipeline {
    let mut flow = Flow::new();
    flow.register_source_with("a", &Effect, policy);
    flow.finish()
}

#[test]
fn policy_does_not_touch_the_structure() {
    let plain = one(NodePolicy::new()).fingerprint();
    let retrying = one(NodePolicy::new().retries(2)).fingerprint();
    assert_eq!(plain.structural(), retrying.structural());
    assert_ne!(plain.policy(), retrying.policy());
    let mut flow = Flow::new();
    flow.register_source("b", &Effect);
    assert_ne!(flow.finish().fingerprint().structural(), plain.structural());
}

#[test]
fn every_problem_is_reported() {
    let mut flow = Flow::new();
    flow.register_source("twice", &Effect);
    flow.register_source("twice", &Effect);
    flow.register_source_with("await", &Effect, NodePolicy::new().execution_class(ExecutionClass::Blocking));
    flow.register_source_with("durable", &Effect, NodePolicy::new().durable(true));
    flow.register_source_with("clean", &Effect, NodePolicy::new().teardown(true).working_memory(1));
    let p = flow.finish();
    let error = p.assemble().unwrap_err();
    let kinds: Vec<ProblemKind> = error.problems().iter().map(|p| p.kind()).collect();
    for kind in [
        ProblemKind::DuplicateNodeName,
        ProblemKind::InvalidExecutionClassOverride,
        ProblemKind::DurableWithoutContract,
        ProblemKind::NonzeroTeardownCost,
    ] {
        assert_eq!(kinds.iter().filter(|k| **k == kind).count(), 1, "{:?}", kind);
    }
    assert_eq!(kinds.len(), 4);
    let duplicate = error.problems().iter().find(|p| p.kind() == ProblemKind::DuplicateNodeName).unwrap();
    assert_eq!(duplicate.declaration_count(), Some(2));
    assert_eq!(
        duplicate.message(),
        "duplicate node name: node name `twice` was registered by 2 declarations; both declarations must use distinct \
         names"
    );
    let class = error.problems().iter().find(|p| p.kind() == ProblemKind::InvalidExecutionClassOverride).unwrap();
    assert_eq!(
        class.message(),
        "invalid execution-class override: node `await` declares AwaitBound work but overrides its execution class to \
         Blocking; await-bound work cannot be moved to a synchronous class"
    );
    assert!(error.render().contains(class.message()));
}

#[test]
fn an_empty_pipeline_is_refused() {
    let error = Flow::new().finish().assemble().unwrap_err();
    assert_eq!(error.problems().len(), 1);
    assert_eq!(error.problems()[0].kind(), ProblemKind::EmptyPipeline);
    assert_eq!(error.problems()[0].message(), "empty pipeline: the pipeline registered no nodes");
}

#[test]
fn ownership_conflicts_are_refused() {
    let mut flow = Flow::new();
    let a = flow.register_source("a", &Produce);
    flow.register("b", &Sink, a);
    flow.register("c", &Sink, a.shared());
    let error = flow.finish().assemble().unwrap_err();
    assert_eq!(error.problems().len(), 1);
    assert_eq!(
        error.problems()[0].message(),
        "ownership-mode conflict: consumer `b` demands ownership of the value produced by `a`, but that value has 2 \
         consumers (b, c); a multiply-consumed value must be received shared, or the edge must opt into clone-on-read"
    );
    let mut flow = Flow::new();
    let a = flow.register_source("a", &Produce);
    flow.register_with("b", &Sink, a, NodePolicy::new().retries(1));
    let error = flow.finish().assemble().unwrap_err();
    assert_eq!(
        error.problems()[0].message(),
        "ownership-mode conflict: node `b` has 1 retries but takes an owned input edge from `a`; an owned-input edge \
         into a retrying node must opt into clone-on-read (each attempt gets a fresh clone), or the node must drop its \
         retries"
    );
    let mut flow = Flow::new();
    let a = flow.register_source("a", &Produce);
    flow.register_with("b", &Sink, a.clone_on_read(), NodePolicy::new().retries(1));
    assert!(flow.finish().assemble().is_ok());
}

#[test]
fn a_value_that_nobody_wants_is_warned_of() {
    let mut flow = Flow::new();
    flow.register_source("lonely", &Produce);
    flow.register_source("effect", &Effect);
    flow.register_source_with("kept", &Produce, NodePolicy::new().retained(true));
    let artifact = flow.finish().assemble().unwrap();
    assert_eq!(artifact.warnings().len(), 1);
    assert!(artifact.warnings()[0].message().starts_with("node `lonely` produces a non-() output with zero consumers"));
}

#[test]
fn a_synchronous_class_may_be_changed() {
    let mut flow = Flow::new();
    flow.register_source_with("a", &Crunch, NodePolicy::new().execution_class(ExecutionClass::Blocking));
    let p = flow.finish();
    assert!(p.assemble().is_ok());
    let node = p.node(id("a")).unwrap();
    assert_eq!(node.declared_class(), ExecutionClass::Compute);
    assert_eq!(node.effective_class(), ExecutionClass::Blocking);
}

#[test]
fn policy_is_disclosed() {
    let backoff = Backoff::new(Duration::from_millis(1), FACTOR_TWO_BITS, Duration::from_millis(9));
    let policy = NodePolicy::new()
        .retries(3)
        .backoff(backoff)
        .timeout(Duration::from_millis(7))
        .working_memory(1)
        .output_residency(2)
        .blocking_threads(3)
        .compute_threads(4)
        .retained(true);
    let mut flow = Flow::new();
    flow.register_source_with("a", &Effect, policy);
    let p = flow.finish();
    let node = p.node(id("a")).unwrap();
    let e = node.effective_policy();
    assert_eq!(e.retry_count(), 3);
    assert_eq!(e.retry_config().max_attempts(), 4);
    assert_eq!(e.backoff(), backoff);
    assert_eq!(e.timeout(), Some(Duration::from_millis(7)));
    assert_eq!(e.cost().working_memory(), 1);
    assert_eq!(e.cost().output_residency(), 2);
    assert_eq!(e.cost().blocking_threads(), 3);
    assert_eq!(e.cost().compute_threads(), 4);
    assert!(e.is_retained() && !e.is_durable() && !e.is_teardown());
    assert_eq!(e.group(), None);
    assert_eq!(node.policy().timeout_off().timeout_budget(), None);
    assert!(NodePolicy::default().cost().is_zero());
    assert_eq!(NodePolicy::default().retry_count(), 0);
}

#[test]
fn flows_keep_what_they_are_told() {
    let mut flow = Flow::default();
    flow.allow_env_capture(&["B", "A", "B"]);
    flow.failure_mode(FailureMode::StopOnFirstFailure);
    let h = flow.register_source_in_group("a", &Produce, Some("ingest"));
    let p = flow.finish();
    assert_eq!(p.failure_mode(), FailureMode::StopOnFirstFailure);
    assert_eq!(p.resolve(h).unwrap().group(), Some("ingest"));
    assert_eq!(p.resolve(h).unwrap().name(), "a");
    assert_eq!(p.node_at(0).registration_count(), 1);
    assert_eq!(p.index_of(id("a")), Some(0));
    assert!(p.env_allowlist().contains(&"A".to_string()));
    assert_eq!(FailureMode::default(), FailureMode::ContinueIndependent);
}

#[test]
fn durable_references_are_described() {
    let m = DurableReferenceMeta::new().content_hash("h").size_bytes(9).scheme("s3").produced_at_offset_ns(4);
    assert_eq!(m.get_content_hash(), Some("h"));
    assert_eq!(m.get_size_bytes(), Some(9));
    assert_eq!(m.get_scheme(), Some("s3"));
    assert_eq!(m.get_produced_at_offset_ns(), Some(4));
    assert!(!m.is_empty());
    assert!(DurableReferenceMeta::new().is_empty());
    assert!(Stored(1).durable_reference_meta().is_none());
}

fn tracker(p: &Pipeline) -> ReadinessTracker {
    ReadinessTracker::new(p, &p.assemble().unwrap())
}

#[test]
fn nodes_become_ready_when_all_before_them_ended() {
    let p = diamond(false);
    let mut t = tracker(&p);
    assert_eq!(t.initial_ready(), &[id("a")]);
    assert_eq!(t.remaining_dependencies(id("d")), Some(2));
    let artifact = p.assemble().unwrap();
    for n in ["a", "b", "c", "d"] {
        assert_eq!(t.remaining_dependencies(id(n)), artifact.remaining_dependency_count(id(n)));
    }
    assert_eq!(t.pending_count(), 4);
    assert_eq!(
        t.notify_terminal(id("a"), TerminalState::Succeeded),
        vec![Decision::Ready(id("b")), Decision::Ready(id("c"))]
    );
    assert!(t.notify_terminal(id("c"), TerminalState::Succeeded).is_empty());
    assert_eq!(t.remaining_dependencies(id("d")), Some(1));
    assert_eq!(t.notify_terminal(id("b"), TerminalState::Succeeded), vec![Decision::Ready(id("d"))]);
    assert!(t.notify_terminal(id("d"), TerminalState::Succeeded).is_empty());
    assert_eq!(t.pending_count(), 0);
    assert_eq!(t.terminal_state(id("d")), Some(TerminalState::Succeeded));
}

#[test]
fn a_failure_is_passed_on() {
    let p = diamond(false);
    let mut t = tracker(&p);
    let decisions = t.notify_terminal(id("a"), TerminalState::Failed);
    assert_eq!(decisions.len(), 3);
    assert_eq!(
        decisions[0],
        Decision::PropagatedTerminal { node: id("b"), state: TerminalState::UpstreamFailed, origin: id("a") }
    );
    assert!(t.is_decided(id("d")));
    assert_eq!(t.terminal_state(id("d")), Some(TerminalState::UpstreamFailed));
    assert_eq!(t.pending_count(), 0);
}

#[test]
fn a_second_notice_changes_nothing() {
    let p = diamond(false);
    let mut t = tracker(&p);
    t.notify_terminal(id("a"), TerminalState::Succeeded);
    assert!(t.notify_terminal(id("a"), TerminalState::Failed).is_empty());
    assert_eq!(t.terminal_state(id("a")), Some(TerminalState::Succeeded));
    assert!(t.notify_terminal(id("nobody"), TerminalState::Failed).is_empty());
}

#[test]
fn rules_are_evaluated() {
    let all = |states: &[TerminalState]| evaluate_rule(TriggerRule::AllSucceeded, states);
    assert_eq!(all(&[TerminalState::Succeeded, TerminalState::SatisfiedFromPrior]), RuleOutcome::Fires);
    assert_eq!(all(&[TerminalState::Succeeded, TerminalState::Skipped]), RuleOutcome::Propagate(TerminalState::UpstreamSkipped));
    assert_eq!(all(&[TerminalState::Cancelled, TerminalState::Succeeded]), RuleOutcome::Propagate(TerminalState::Cancelled));
    assert_eq!(all(&[TerminalState::Cancelled, TerminalState::Skipped]), RuleOutcome::Propagate(TerminalState::UpstreamFailed));
    assert_eq!(all(&[TerminalState::Skipped, TerminalState::TimedOut]), RuleOutcome::Propagate(TerminalState::UpstreamFailed));
    assert_eq!(evaluate_rule(TriggerRule::AllTerminal, &[TerminalState::Failed, TerminalState::Cancelled]), RuleOutcome::Fires);
    assert_eq!(evaluate_rule(TriggerRule::AnyFailed, &[TerminalState::Succeeded, TerminalState::Failed]), RuleOutcome::Fires);
    assert_eq!(evaluate_rule(TriggerRule::AnyFailed, &[TerminalState::Succeeded, TerminalState::Cancelled]), RuleOutcome::Propagate(TerminalState::Skipped));
    assert_eq!(class_of(TerminalState::Abandoned), StateClass::Failure);
    assert_eq!(class_of(TerminalState::UpstreamSkipped), StateClass::Skip);
}

#[test]
fn ordering_makes_a_node_wait() {
    let mut flow = Flow::new();
    flow.register_source("a", &Effect);
    flow.register_source("z", &Effect);
    let p = flow.finish();
    let mut ordering: NameMap<Vec<String>> = NameMap::new();
    ordering.insert("z".to_string(), vec!["a".to_string(), "a".to_string(), "nobody".to_string()]);
    let mut t = ReadinessTracker::new_with_ordering(&p, &p.assemble().unwrap(), &ordering);
    assert_eq!(t.initial_ready(), &[id("a")]);
    assert_eq!(t.remaining_dependencies(id("z")), Some(1));
    assert_eq!(t.notify_terminal(id("a"), TerminalState::Succeeded), vec![Decision::Ready(id("z"))]);
}

#[test]
fn a_cleanup_runs_after_a_failure() {
    let mut flow = Flow::new();
    flow.register_source("a", &Effect);
    flow.register_source_with_trigger("cleanup", &Effect, NodePolicy::new(), TriggerRule::AnyFailed);
    let p = flow.finish();
    let mut ordering: NameMap<Vec<String>> = NameMap::new();
    ordering.insert("cleanup".to_string(), vec!["a".to_string()]);
    let artifact = p.assemble().unwrap();
    let mut t = ReadinessTracker::new_with_ordering(&p, &artifact, &ordering);
    assert_eq!(t.initial_ready(), &[id("a")]);
    assert_eq!(t.notify_terminal(id("a"), TerminalState::TimedOut), vec![Decision::Ready(id("cleanup"))]);
    let mut t = ReadinessTracker::new_with_ordering(&p, &artifact, &ordering);
    assert_eq!(
        t.notify_terminal(id("a"), TerminalState::Succeeded),
        vec![Decision::PropagatedTerminal { node: id("cleanup"), state: TerminalState::Skipped, origin: id("a") }]
    );
}

#[test]
fn an_ordering_edge_is_part_of_the_structure() {
    let declared = |ordering: Vec<OrderingEdge>| {
        let mut flow = Flow::new();
        flow.register_source("z", &Effect);
        let plain = NodeDeclaration::plain(
            None,
            NodePolicy::new(),
            ExecutionClass::AwaitBound,
            DurableWitness::Absent,
            TriggerRule::AllTerminal,
            true,
        );
        flow.register_source_in_group_with::<()>("a", NodeDeclaration { ordering, ..plain });
        flow.finish()
    };
    let free = declared(Vec::new());
    let after = declared(vec![OrderingEdge { upstream: id("z") }]);
    assert_ne!(free.fingerprint().structural(), after.fingerprint().structural());
    assert_eq!(free.assemble().unwrap().execution_order(), &[id("a"), id("z")]);
    assert_eq!(after.assemble().unwrap().execution_order(), &[id("z"), id("a")]);
    assert_eq!(after.node(id("a")).unwrap().ordering_edges()[0].upstream(), id("z"));
}

fn stored_pipeline() -> Pipeline {
    let mut flow = Flow::new();
    let a = flow.register_source_durable("a", &Store, NodePolicy::new().durable(true));
    flow.register("b", &Use, a);
    flow.finish()
}

fn prior(p: &Pipeline, nodes: &[(&str, TerminalState, Option<&str>)]) -> PriorRun {
    let mut map: NameMap<PriorNode> = NameMap::new();
    for (name, terminal, reference) in nodes {
        map.insert(
            name.to_string(),
            PriorNode {
                terminal: *terminal,
                durable_reference: reference.map(|r| r.to_string()),
                originating_run: "run-1".to_string(),
            },
        );
    }
    let f = p.fingerprint();
    PriorRun {
        structural_fingerprint: f.structural(),
        policy_hash: f.policy(),
        algorithm_version: f.algorithm_version(),
        tool_version: "1.0".to_string(),
        nodes: map,
    }
}

fn names<V>(m: &NameMap<V>) -> Vec<&str> {
    (0..m.len()).map(|i| m.name_at(i)).collect()
}

#[test]
fn a_resumed_run_takes_stored_values_up() {
    let p = stored_pipeline();
    let run = prior(&p, &[("a", TerminalState::Succeeded, Some("mem:7")), ("b", TerminalState::Failed, None)]);
    let plan = plan_resume(&p, &run, "1.0", |_, _| ReferenceExistence::Present).unwrap();
    assert_eq!(names(plan.seed()), vec!["b"]);
    assert_eq!(names(plan.must_run()), vec!["b"]);
    assert_eq!(names(plan.satisfied_from_prior()), vec!["a"]);
    assert_eq!(names(plan.rehydrate()), vec!["a"]);
    assert_eq!(plan.rehydrate().get("a").unwrap(), "mem:7");
    assert!(plan.policy_diff().is_none());
}

#[test]
fn a_durable_node_in_the_middle_is_taken_up() {
    let mut flow = Flow::new();
    let a = flow.register_source("a", &Produce);
    let b = flow.register_durable("b", &Keep, a, NodePolicy::new().durable(true));
    flow.register("c", &Use, b);
    let p = flow.finish();
    assert!(p.node(id("b")).unwrap().output_is_durable());
    assert!(!p.node(id("a")).unwrap().output_is_durable());
    let run = prior(
        &p,
        &[
            ("a", TerminalState::Succeeded, None),
            ("b", TerminalState::Succeeded, Some("mem:1")),
            ("c", TerminalState::TimedOut, None),
        ],
    );
    let plan = plan_resume(&p, &run, "1.0", |_, _| ReferenceExistence::Present).unwrap();
    assert_eq!(names(plan.must_run()), vec!["c"]);
    assert_eq!(names(plan.rehydrate()), vec!["b"]);
    assert_eq!(names(plan.satisfied_from_prior()), vec!["a", "b"]);
    assert_eq!(plan.satisfied_from_prior().get("a").unwrap(), "run-1");
}

#[test]
fn a_stored_value_that_is_gone_refuses_the_resume() {
    let p = stored_pipeline();
    let run = prior(&p, &[("a", TerminalState::Succeeded, Some("mem:7")), ("b", TerminalState::Failed, None)]);
    let refusal = plan_resume(&p, &run, "1.0", |node, reference| {
        assert_eq!((node, reference), ("a", "mem:7"));
        ReferenceExistence::Absent
    })
    .unwrap_err();
    assert!(matches!(&refusal, ResumeRefusal::DanglingReference { node, reference } if node == "a" && reference == "mem:7"));
    assert_eq!(
        refusal.render(),
        "resume refused: node `a`'s durable output is gone — its recorded reference `mem:7` no longer exists in \
         storage (a dangling reference). The resume plan fails before any node executes."
    );
}

#[test]
fn a_value_that_was_not_stored_is_produced_again() {
    let p = diamond(false);
    let run = prior(
        &p,
        &[
            ("a", TerminalState::Succeeded, None),
            ("b", TerminalState::Succeeded, None),
            ("c", TerminalState::Failed, None),
            ("d", TerminalState::UpstreamFailed, None),
        ],
    );
    let plan = plan_resume(&p, &run, "1.0", |_, _| ReferenceExistence::Present).unwrap();
    assert_eq!(names(plan.must_run()), vec!["a", "b", "c", "d"]);
    assert!(plan.satisfied_from_prior().is_empty());
    assert!(plan.rehydrate().is_empty());
}

#[test]
fn a_complete_run_has_nothing_to_do() {
    let p = stored_pipeline();
    let run = prior(&p, &[("a", TerminalState::Succeeded, Some("mem:7")), ("b", TerminalState::Succeeded, None)]);
    let plan = plan_resume(&p, &run, "1.0", |_, _| ReferenceExistence::Absent).unwrap();
    assert!(plan.must_run().is_empty());
    assert_eq!(names(plan.satisfied_from_prior()), vec!["a", "b"]);
}

#[test]
fn a_run_that_does_not_match_is_refused() {
    let p = stored_pipeline();
    let probe = |_: &str, _: &str| ReferenceExistence::Present;
    let nodes = [("a", TerminalState::Succeeded, Some("mem:7")), ("b", TerminalState::Failed, None)];
    let mut run = prior(&p, &nodes);
    run.algorithm_version += 1;
    run.tool_version = "0.9".to_string();
    let r = plan_resume(&p, &run, "1.0", probe).unwrap_err();
    assert!(matches!(r, ResumeRefusal::AlgorithmVersionMismatch { prior: 2, current: 1 }));
    let mut run = prior(&p, &nodes);
    run.tool_version = "0.9".to_string();
    let r = plan_resume(&p, &run, "1.0", probe).unwrap_err();
    assert!(matches!(&r, ResumeRefusal::ToolVersionMismatch { prior, current } if prior == "0.9" && current == "1.0"));
    let mut run = prior(&p, &nodes);
    run.structural_fingerprint ^= 1;
    let r = plan_resume(&p, &run, "1.0", probe).unwrap_err();
    assert!(matches!(r, ResumeRefusal::StructuralMismatch { .. }));
    assert!(r.render().starts_with("resume refused: the prior run's structural fingerprint (fnv:"));
}

#[test]
fn a_policy_that_changed_is_noted_and_not_refused() {
    let p = stored_pipeline();
    let mut run = prior(&p, &[("a", TerminalState::Succeeded, Some("mem:7")), ("b", TerminalState::Failed, None)]);
    run.policy_hash ^= 1;
    let plan = plan_resume(&p, &run, "1.0", |_, _| ReferenceExistence::CannotDetermine).unwrap();
    let diff = plan.policy_diff().unwrap();
    assert_eq!((diff.prior, diff.current), (p.fingerprint().policy() ^ 1, p.fingerprint().policy()));
}

#[test]
fn only_a_teardown_that_ran_covers_a_node() {
    let mut flow = Flow::new();
    flow.register_source_durable("a", &Store, NodePolicy::new().durable(true));
    let plain = NodeDeclaration::plain(
        None,
        NodePolicy::new(),
        ExecutionClass::AwaitBound,
        DurableWitness::Absent,
        TriggerRule::AllTerminal,
        true,
    );
    flow.register_source_in_group_with::<()>("t", NodeDeclaration { covers: vec![id("a")], ..plain });
    let p = flow.finish();
    let seed = |state: TerminalState| {
        let run = prior(&p, &[("a", TerminalState::Succeeded, Some("mem:7")), ("t", state, None)]);
        let plan = plan_resume(&p, &run, "1.0", |_, _| panic!("nothing is needed")).unwrap();
        names(plan.seed()).into_iter().map(|n| n.to_string()).collect::<Vec<String>>()
    };
    assert_eq!(seed(TerminalState::Cancelled), vec!["t"]);
    assert_eq!(seed(TerminalState::UpstreamFailed), vec!["t"]);
    assert_eq!(seed(TerminalState::Failed), vec!["a", "t"]);
    assert_eq!(seed(TerminalState::Succeeded), vec!["a"]);
}

#[test]
fn what_differs_is_encoded_differently() {
    let bytes = |p: &Pipeline| p.assemble().unwrap().canonical_bytes().to_vec();
    let straight = diamond(false);
    let mut flow = Flow::new();
    let a = flow.register_source("a", &Produce);
    let b = flow.register("b", &Convert, a.shared());
    let c = flow.register("c", &Convert, a.shared());
    flow.register("d", &Join, (c, b));
    let crossed = flow.finish();
    assert_ne!(bytes(&straight), bytes(&crossed));
    assert_ne!(straight.fingerprint().structural(), crossed.fingerprint().structural());
    assert_ne!(bytes(&one(NodePolicy::new())), bytes(&one(NodePolicy::new().retries(1))));
    let mut named = Flow::new();
    named.register_source_with("a", &Effect, NodePolicy::new());
    named.allow_env_capture(&["HOME"]);
    assert_ne!(bytes(&one(NodePolicy::new())), bytes(&named.finish()));
}

#[test]
fn copies_are_equal() {
    let p = diamond(false);
    assert_eq!(p.clone(), p);
    let artifact = p.assemble().unwrap();
    assert_eq!(artifact.clone(), artifact);
    assert_ne!(p, one(NodePolicy::new()));
    let error = Flow::new().finish().assemble().unwrap_err();
    assert_eq!(error.clone(), error);
    let q = stored_pipeline();
    let run = prior(&q, &[("a", TerminalState::Succeeded, Some("mem:7")), ("b", TerminalState::Failed, None)]);
    let plan = plan_resume(&q, &run, "1.0", |_, _| ReferenceExistence::Present).unwrap();
    assert_eq!(plan.clone(), plan);
    assert_eq!(run.clone(), run);
}
