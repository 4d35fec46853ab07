use dagr_core::context::cancellation::{CancellationScope, CancellationSignal, CancellationSource};
use dagr_core::context::resources::{
    surface_requirements, BootstrapOutcome, ResourceRegistry, ResourceRequirement, ResourceRequirements,
};
use dagr_core::context::{
    CoveredNodeStates, DataInterval, PipelineId, RunContext, RunId, Secret, TerminalState,
};
use dagr_core::handle::NodeId;

#[test]
fn a_context_has_defaults() {
    let ctx: RunContext<u8, u8> = RunContext::for_test();
    assert_eq!(ctx.run_id().as_str(), "test-run");
    assert_eq!(ctx.pipeline_id().as_str(), "test-pipeline");
    assert_eq!(ctx.node_id(), NodeId::from_name("test-node"));
    assert_eq!(ctx.attempt(), 1);
    assert_eq!(ctx.max_attempts(), 1);
    assert!(ctx.parameters().is_none());
    assert!(ctx.data_interval().is_none());
    assert!(ctx.covered_terminal_states().is_none());
    assert!(ctx.temp_dir().is_none());
    assert!(ctx.resources().is_empty());
    assert!(ctx.scratch().namespace_dir().is_none());
    assert!(!ctx.cancellation().is_cancelled(&CancellationScope::new()));
}

#[test]
fn a_context_holds_what_is_set() {
    let node = NodeId::from_name("extract");
    let covered = CoveredNodeStates::new().with(node, TerminalState::Failed);
    let ctx: RunContext<&str, u8> = RunContext::builder(RunId::new("r1"), PipelineId::new("p"), node)
        .attempt(2)
        .max_attempts(5)
        .parameters("full")
        .data_interval(DataInterval::new("2024-01-01", "2024-01-02"))
        .scratch_root("/runs")
        .covered_terminal_states(covered)
        .temp_dir("/tmp/x")
        .build();
    assert_eq!((ctx.attempt(), ctx.max_attempts()), (2, 5));
    assert_eq!(ctx.parameters(), Some(&"full"));
    assert_eq!(ctx.data_interval().unwrap().start(), "2024-01-01");
    assert_eq!(ctx.data_interval().unwrap().end(), "2024-01-02");
    assert_eq!(ctx.span().run_id().as_str(), "r1");
    assert_eq!(ctx.span().node_id(), node);
    assert_eq!(ctx.span().attempt(), 2);
    assert_eq!(ctx.covered_terminal_states().unwrap().get(node), Some(TerminalState::Failed));
    assert_eq!(ctx.temp_dir(), Some("/tmp/x"));
    let names = &ctx.scratch().namespace_dir().unwrap().names;
    assert_eq!((names[0].as_str(), names[1].as_str(), names[2].as_str()), ("p", "r1", "scratch"));
}

#[test]
fn covered_states_are_replaced() {
    let a = NodeId::from_name("a");
    let b = NodeId::from_name("b");
    let c = CoveredNodeStates::default().with(a, TerminalState::Failed).with(a, TerminalState::Succeeded);
    assert_eq!(c.len(), 1);
    assert!(!c.is_empty());
    assert_eq!(c.get(a), Some(TerminalState::Succeeded));
    assert_eq!(c.get(b), None);
}

#[test]
fn a_secret_is_not_shown() {
    let s = Secret::new("hunter2");
    assert_eq!(*s.expose(), "hunter2");
    assert_eq!(s.redacted(), "<redacted secret>");
}

#[test]
fn cancelling_reaches_descendants_only() {
    let mut scope = CancellationScope::new();
    let root = CancellationSource::new(&mut scope);
    let left = root.child(&mut scope);
    let leaf = left.child(&mut scope);
    let right = root.child(&mut scope);
    let signal = leaf.signal();
    left.cancel(&mut scope);
    assert!(left.is_cancelled(&scope));
    assert!(leaf.is_cancelled(&scope));
    assert!(signal.is_cancelled(&scope));
    assert!(!root.is_cancelled(&scope));
    assert!(!right.is_cancelled(&scope));
    left.cancel(&mut scope);
    assert!(!right.is_cancelled(&scope));
    root.cancel(&mut scope);
    assert!(right.is_cancelled(&scope));
    assert!(!CancellationSignal::never().is_cancelled(&scope));
}

#[test]
fn a_child_of_a_cancelled_source_is_cancelled() {
    let mut scope = CancellationScope::new();
    let root = CancellationSource::new(&mut scope);
    root.cancel(&mut scope);
    let child = root.child(&mut scope);
    assert!(child.is_cancelled(&scope));
    let other = CancellationSource::new(&mut scope);
    assert!(!other.is_cancelled(&scope));
}

#[test]
fn a_type_is_registered_once() {
    let db = ResourceRequirement::of(7, "Database");
    let registry = ResourceRegistry::builder().register(db, "one").unwrap().build();
    assert_eq!(registry.get(7), Some(&"one"));
    assert_eq!(registry.get(8), None);
    assert_eq!(registry.len(), 1);
    assert!(!registry.is_empty());
    let e = ResourceRegistry::builder().register(db, "one").unwrap().register(db, "two").err().unwrap();
    assert_eq!(
        e.render(),
        "ambiguous resource registration: a resource of type `Database` is already registered — distinguish two \
         same-typed resources with newtype wrappers"
    );
}

fn requirements(reqs: &[ResourceRequirement]) -> ResourceRequirements {
    let mut all = ResourceRequirements::new();
    for r in reqs {
        all = all.require(*r);
    }
    all
}

#[test]
fn requirements_are_kept_once() {
    let db = ResourceRequirement::of(7, "Database");
    let reqs = requirements(&[db, ResourceRequirement::of(3, "Queue"), db]);
    assert_eq!(reqs.len(), 2);
    assert!(reqs.requires_type(7));
    assert!(!reqs.requires_type(8));
    assert_eq!(reqs.iter().len(), 2);
    assert_eq!(db.type_id(), 7);
    assert_eq!(db.name(), "Database");
    assert_eq!(db, ResourceRequirement::of(7, "Database"));
    let copy = reqs.clone();
    assert_eq!(copy.iter(), reqs.iter());
}

#[test]
fn every_missing_resource_is_reported() {
    let db = ResourceRequirement::of(7, "Database");
    let queue = ResourceRequirement::of(3, "Queue");
    let cache = ResourceRequirement::of(5, "Cache");
    let a = NodeId::from_name("a");
    let b = NodeId::from_name("b");
    let declarations = [(a, requirements(&[db, cache])), (b, requirements(&[queue, db]))];
    let registry: ResourceRegistry<u8> = ResourceRegistry::builder().register(cache, 1).unwrap().build();
    let failure = registry.validate_requirements(&declarations).unwrap_err();
    assert_eq!(failure.outcome(), BootstrapOutcome::BootstrapFailed);
    assert_eq!(failure.attempts_recorded(), 0);
    assert_eq!(failure.errors().len(), 2);
    assert_eq!(failure.errors()[0].resource_type_name(), "Queue");
    assert_eq!(failure.errors()[0].requiring_nodes(), &[b]);
    assert_eq!(failure.errors()[1].resource_type_name(), "Database");
    assert_eq!(failure.errors()[1].requiring_nodes().len(), 2);
    assert!(failure.render().starts_with("bootstrap failed: 2 unmet resource requirement(s); resource `Queue`"));
    assert!(failure.errors()[0].render().contains("is required but was never registered; required by 1 node(s): [NodeId("));
}

#[test]
fn nothing_is_missing_when_all_is_registered() {
    let db = ResourceRequirement::of(7, "Database");
    let a = NodeId::from_name("a");
    let declarations = [(a, requirements(&[db]))];
    let registry: ResourceRegistry<u8> = ResourceRegistry::builder().register(db, 1).unwrap().build();
    assert!(registry.validate_requirements(&declarations).is_ok());
    let empty: ResourceRegistry<u8> = ResourceRegistry::default();
    assert!(empty.validate_requirements(&[]).is_ok());
    assert_eq!(surface_requirements(&declarations), vec![(a, "Database")]);
}
