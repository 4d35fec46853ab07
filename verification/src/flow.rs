//! The flow builder: node registrations gathered into an immutable pipeline.
//!
//! A node's identity is its registration name. Nodes are kept by name, so the
//! order in which they were registered leaves no trace in the pipeline.

use crate::assembly::{self, DurableOutput, DurableWitness, EffectivePolicy, EffectivePolicyView, NodePolicy};
use crate::binding::{self, DataEdge, Deps, NodeBinding, OrderingEdge, TriggerRule};
use crate::handle::{self, Handle, NodeId};
use crate::names::{self, NameMap};
use crate::task::{ExecutionClass, Task};
use crate::text;
use vstd::prelude::*;

verus! {

/// What happens to the rest of a run when a node fails.
#[derive(Debug, Clone, Copy, PartialEq, Eq, Hash, Structural)]
pub enum FailureMode {
    /// A failure cancels nothing: unrelated branches run to completion. The default.
    ContinueIndependent,
    /// After the first failure no further ordinary work is admitted.
    StopOnFirstFailure,
}

impl Default for FailureMode {
    fn default() -> (r: Self)
        ensures
            r == FailureMode::ContinueIndependent,
    {
        FailureMode::ContinueIndependent
    }
}

/// The stable names a node declared: of its task, of its input types in order, and
/// of its output type.
#[derive(Debug, Clone, PartialEq, Eq)]
pub struct StableTypeNames {
    pub task: String,
    pub inputs: Vec<String>,
    pub output: String,
}

/// The contents of a [`StableTypeNames`].
#[verifier::ext_equal]
pub struct StableTypeNamesView {
    pub task: Seq<char>,
    pub inputs: Seq<Seq<char>>,
    pub output: Seq<char>,
}

impl View for StableTypeNames {
    type V = StableTypeNamesView;

    open spec fn view(&self) -> StableTypeNamesView {
        StableTypeNamesView {
            task: self.task@,
            inputs: self.inputs@.map_values(|s: String| s@),
            output: self.output@,
        }
    }
}

/// What a registration states about a node beside its name and data inputs.
#[derive(Debug, Clone, PartialEq, Eq)]
pub struct NodeDeclaration {
    /// The group label.
    pub group: Option<String>,
    /// The policy.
    pub policy: NodePolicy,
    /// The execution class the task declares.
    pub declared_class: ExecutionClass,
    /// Whether the output type is known to implement the durable contract.
    pub durable_witness: DurableWitness,
    /// The trigger rule.
    pub trigger_rule: TriggerRule,
    /// Whether the output type is the unit type.
    pub output_is_unit: bool,
    /// The nodes that must be terminal first although nothing of them is consumed.
    pub ordering: Vec<OrderingEdge>,
    /// The declared stable names, if any.
    pub stable_names: Option<StableTypeNames>,
    /// The nodes whose outputs this teardown may destroy.
    pub covers: Vec<NodeId>,
}

/// The contents of a [`NodeDeclaration`].
#[verifier::ext_equal]
pub struct NodeDeclarationView {
    pub group: Option<Seq<char>>,
    pub policy: NodePolicy,
    pub declared_class: ExecutionClass,
    pub durable_witness: DurableWitness,
    pub trigger_rule: TriggerRule,
    pub output_is_unit: bool,
    pub ordering: Seq<OrderingEdge>,
    pub stable_names: Option<StableTypeNamesView>,
    pub covers: Seq<NodeId>,
}

impl View for NodeDeclaration {
    type V = NodeDeclarationView;

    open spec fn view(&self) -> NodeDeclarationView {
        NodeDeclarationView {
            group: assembly::text_of(self.group),
            policy: self.policy,
            declared_class: self.declared_class,
            durable_witness: self.durable_witness,
            trigger_rule: self.trigger_rule,
            output_is_unit: self.output_is_unit,
            ordering: self.ordering@,
            stable_names: match self.stable_names {
                Some(n) => Some(n@),
                None => None,
            },
            covers: self.covers@,
        }
    }
}

impl NodeDeclarationView {
    /// What an ordinary registration states: the group label, policy, class,
    /// witness, trigger rule and unit mark given, and nothing more.
    pub open spec fn plain(
        group: Option<Seq<char>>,
        policy: NodePolicy,
        declared_class: ExecutionClass,
        durable_witness: DurableWitness,
        trigger_rule: TriggerRule,
        output_is_unit: bool,
    ) -> Self {
        NodeDeclarationView {
            group,
            policy,
            declared_class,
            durable_witness,
            trigger_rule,
            output_is_unit,
            ordering: Seq::empty(),
            stable_names: None,
            covers: Seq::empty(),
        }
    }
}

impl NodeDeclaration {
    /// What an ordinary registration states.
    #[must_use]
    pub fn plain(
        group: Option<&str>,
        policy: NodePolicy,
        declared_class: ExecutionClass,
        durable_witness: DurableWitness,
        trigger_rule: TriggerRule,
        output_is_unit: bool,
    ) -> (r: Self)
        ensures
            r@ == NodeDeclarationView::plain(
                match group {
                    Some(g) => Some(g@),
                    None => None,
                },
                policy,
                declared_class,
                durable_witness,
                trigger_rule,
                output_is_unit,
            ),
    {
        let group = match group {
            Some(g) => Some(String::from_str(g)),
            None => None,
        };
        NodeDeclaration {
            group,
            policy,
            declared_class,
            durable_witness,
            trigger_rule,
            output_is_unit,
            ordering: Vec::new(),
            stable_names: None,
            covers: Vec::new(),
        }
    }
}

/// A node of a pipeline.
#[derive(Debug, Clone, PartialEq, Eq)]
pub struct PipelineNode {
    name: String,
    id: NodeId,
    edges: Vec<DataEdge>,
    declaration: NodeDeclaration,
    registration_count: usize,
}

/// The contents of a [`PipelineNode`].
#[verifier::ext_equal]
pub struct NodeView {
    /// The registration name.
    pub name: Seq<char>,
    /// The identity.
    pub id: NodeId,
    /// The data edges, in input order.
    pub edges: Seq<DataEdge>,
    /// What the registration stated beside.
    pub declaration: NodeDeclarationView,
    /// How many registrations used the name.
    pub registration_count: usize,
}

impl NodeView {
    /// The policy.
    pub open spec fn policy(self) -> NodePolicy {
        self.declaration.policy
    }

    /// The execution class: the overriding one, else the declared one.
    pub open spec fn effective_class(self) -> ExecutionClass {
        match self.declaration.policy.class_override {
            Some(c) => c,
            None => self.declaration.declared_class,
        }
    }

    /// Identity follows from the name, the name was registered, and the data edges
    /// stand by position.
    pub open spec fn wf(self) -> bool {
        &&& self.id == handle::node_id(self.name)
        &&& self.registration_count >= 1
        &&& forall|k: int| 0 <= k < self.edges.len() ==> (#[trigger] self.edges[k]).position == k
    }
}

impl View for PipelineNode {
    type V = NodeView;

    closed spec fn view(&self) -> NodeView {
        NodeView {
            name: self.name@,
            id: self.id,
            edges: self.edges@,
            declaration: self.declaration@,
            registration_count: self.registration_count,
        }
    }
}

impl PipelineNode {
    /// The registration name.
    #[must_use]
    pub fn name(&self) -> (r: &str)
        ensures
            r@ == self@.name,
    {
        self.name.as_str()
    }

    /// The identity.
    #[must_use]
    pub fn id(&self) -> (r: NodeId)
        ensures
            r == self@.id,
    {
        self.id
    }

    /// The group label, if any.
    #[must_use]
    pub fn group(&self) -> (r: Option<&str>)
        ensures
            match r {
                Some(t) => self@.declaration.group == Some(t@),
                None => self@.declaration.group is None,
            },
    {
        match &self.declaration.group {
            Some(g) => Some(g.as_str()),
            None => None,
        }
    }

    /// The data edges, in input order.
    #[must_use]
    pub fn data_edges(&self) -> (r: &[DataEdge])
        ensures
            r@ == self@.edges,
    {
        self.edges.as_slice()
    }

    /// The ordering edges, in declared order.
    #[must_use]
    pub fn ordering_edges(&self) -> (r: &[OrderingEdge])
        ensures
            r@ == self@.declaration.ordering,
    {
        self.declaration.ordering.as_slice()
    }

    /// The declared stable names, if any.
    #[must_use]
    pub fn stable_names(&self) -> (r: Option<&StableTypeNames>)
        ensures
            match r {
                Some(n) => self@.declaration.stable_names == Some(n@),
                None => self@.declaration.stable_names is None,
            },
    {
        match &self.declaration.stable_names {
            Some(n) => Some(n),
            None => None,
        }
    }

    /// The nodes whose outputs this teardown may destroy.
    #[must_use]
    pub fn covers(&self) -> (r: &[NodeId])
        ensures
            r@ == self@.declaration.covers,
    {
        self.declaration.covers.as_slice()
    }

    /// The trigger rule.
    #[must_use]
    pub fn trigger_rule(&self) -> (r: TriggerRule)
        ensures
            r == self@.declaration.trigger_rule,
    {
        self.declaration.trigger_rule
    }

    /// The policy.
    #[must_use]
    pub fn policy(&self) -> (r: NodePolicy)
        ensures
            r == self@.declaration.policy,
    {
        self.declaration.policy
    }

    /// The policy with every default written out.
    #[must_use]
    pub fn effective_policy(&self) -> (r: EffectivePolicy)
        ensures
            r@ == (EffectivePolicyView {
                policy: self@.declaration.policy,
                effective_class: self@.effective_class(),
                trigger_rule: self@.declaration.trigger_rule,
                group: self@.declaration.group,
            }),
    {
        EffectivePolicy::resolve(self.policy(), self.effective_class(), self.trigger_rule(), self.group())
    }

    /// The execution class the task declared.
    #[must_use]
    pub fn declared_class(&self) -> (r: ExecutionClass)
        ensures
            r == self@.declaration.declared_class,
    {
        self.declaration.declared_class
    }

    /// The execution class: the overriding one, else the declared one.
    #[must_use]
    pub fn effective_class(&self) -> (r: ExecutionClass)
        ensures
            r == self@.effective_class(),
    {
        match self.declaration.policy.class_override {
            Some(c) => c,
            None => self.declaration.declared_class,
        }
    }

    /// Whether the output type is known to implement the durable contract.
    #[must_use]
    pub fn output_is_durable(&self) -> (r: bool)
        ensures
            r == (self@.declaration.durable_witness == DurableWitness::Present),
    {
        self.declaration.durable_witness == DurableWitness::Present
    }

    /// Whether the output type is the unit type.
    #[must_use]
    pub fn output_is_unit(&self) -> (r: bool)
        ensures
            r == self@.declaration.output_is_unit,
    {
        self.declaration.output_is_unit
    }

    /// How many registrations used the name.
    #[must_use]
    pub fn registration_count(&self) -> (r: usize)
        ensures
            r == self@.registration_count,
    {
        self.registration_count
    }
}

/// Nodes by name, each under its own name.
pub open spec fn keyed_by_name(nodes: NameMap<PipelineNode>) -> bool {
    &&& nodes.wf()
    &&& forall|i: int|
        0 <= i < nodes.entries().len() ==> (#[trigger] nodes.entries()[i]).1@.name == nodes.entries()[i].0
            && nodes.entries()[i].1@.wf()
}

/// What nodes stand under which names.
pub open spec fn node_map(nodes: NameMap<PipelineNode>) -> Map<Seq<char>, NodeView> {
    nodes@.map_values(|n: PipelineNode| n@)
}

/// The contents of a [`Flow`].
#[verifier::ext_equal]
pub struct FlowView {
    pub nodes: Map<Seq<char>, NodeView>,
    pub env_allowlist: Seq<Seq<char>>,
    pub failure_mode: FailureMode,
}

impl FlowView {
    /// How many registrations have used a name.
    pub open spec fn registrations(self, name: Seq<char>) -> usize {
        if self.nodes.dom().contains(name) {
            self.nodes[name].registration_count
        } else {
            0
        }
    }

    /// The flow after one more registration: the node stands under its name, in
    /// place of whatever stood there, and counts the registrations of that name.
    pub open spec fn registered(
        self,
        name: Seq<char>,
        edges: Seq<DataEdge>,
        declaration: NodeDeclarationView,
    ) -> FlowView {
        let count = self.registrations(name);
        FlowView {
            nodes: self.nodes.insert(
                name,
                NodeView {
                    name,
                    id: handle::node_id(name),
                    edges,
                    declaration,
                    registration_count: if count < usize::MAX { (count + 1) as usize } else { count },
                },
            ),
            ..self
        }
    }
}

/// The flow builder: it gathers node registrations and becomes a [`Pipeline`].
#[derive(Debug)]
pub struct Flow {
    nodes: NameMap<PipelineNode>,
    env_allowlist: Vec<String>,
    failure_mode: FailureMode,
}

impl View for Flow {
    type V = FlowView;

    closed spec fn view(&self) -> FlowView {
        FlowView {
            nodes: node_map(self.nodes),
            env_allowlist: self.env_allowlist@.map_values(|s: String| s@),
            failure_mode: self.failure_mode,
        }
    }
}

impl Default for Flow {
    fn default() -> (r: Self)
        ensures
            r.wf(),
            r@ == (FlowView {
                nodes: Map::empty(),
                env_allowlist: Seq::empty(),
                failure_mode: FailureMode::ContinueIndependent,
            }),
    {
        Flow::new()
    }
}

impl Flow {
    /// Nodes stand in name order, each under its own name.
    pub closed spec fn wf(self) -> bool {
        keyed_by_name(self.nodes)
    }

    /// A flow with no nodes.
    #[must_use]
    pub fn new() -> (r: Self)
        ensures
            r.wf(),
            r@ == (FlowView {
                nodes: Map::empty(),
                env_allowlist: Seq::empty(),
                failure_mode: FailureMode::ContinueIndependent,
            }),
    {
        let r = Flow { nodes: NameMap::new(), env_allowlist: Vec::new(), failure_mode: FailureMode::default() };
        proof {
            assert(r@.nodes =~= Map::empty());
            assert(r@.env_allowlist =~= Seq::empty());
        }
        r
    }

    /// Allows the given environment variable names to be captured later, after
    /// those already allowed.
    pub fn allow_env_capture(&mut self, names: &[&str])
        requires
            old(self).wf(),
        ensures
            final(self).wf(),
            final(self)@ == (FlowView {
                env_allowlist: old(self)@.env_allowlist + names@.map_values(|s: &str| s@),
                ..old(self)@
            }),
    {
        let ghost given = names@.map_values(|s: &str| s@);
        let mut i: usize = 0;
        assert(old(self)@.env_allowlist + given.take(0) =~= old(self)@.env_allowlist);
        while i < names.len()
            invariant
                i <= names.len(),
                given == names@.map_values(|s: &str| s@),
                self.wf(),
                self@ == (FlowView {
                    env_allowlist: old(self)@.env_allowlist + given.take(i as int),
                    ..old(self)@
                }),
            decreases names.len() - i,
        {
            let ghost before = self@.env_allowlist;
            let name: &str = names[i];
            self.env_allowlist.push(String::from_str(name));
            i = i + 1;
            proof {
                assert(self@.env_allowlist =~= before.push(given[i - 1]));
                assert(given.take(i as int) =~= given.take(i - 1).push(given[i - 1]));
                assert(self@.env_allowlist =~= old(self)@.env_allowlist + given.take(i as int));
            }
        }
        assert(given.take(names.len() as int) =~= given);
    }

    /// Selects the failure mode.
    pub fn failure_mode(&mut self, mode: FailureMode)
        requires
            old(self).wf(),
        ensures
            final(self).wf(),
            final(self)@ == (FlowView { failure_mode: mode, ..old(self)@ }),
    {
        self.failure_mode = mode;
    }

    /// Registers a node that consumes nothing.
    #[must_use]
    pub fn register_source<T>(&mut self, name: &str, task: &T) -> (r: Handle<T::Output>) where T: Task<Input = ()>
        requires
            old(self).wf(),
        ensures
            final(self).wf(),
            r@ == handle::node_id(name@),
            plain_registration(old(self)@, final(self)@, name@, Seq::empty(), None, T::EXECUTION_CLASS, DurableWitness::Absent, TriggerRule::AllSucceeded),
            final(self)@.nodes[name@].policy().is_default(),
            call_ensures(assembly::output_is_unit::<T::Output>, (), final(self)@.nodes[name@].declaration.output_is_unit),
    {
        self.register_source_in_group::<T>(name, task, None)
    }

    /// Registers a node that consumes nothing, with a policy.
    #[must_use]
    pub fn register_source_with<T>(&mut self, name: &str, _task: &T, policy: NodePolicy) -> (r: Handle<
        T::Output,
    >) where T: Task<Input = ()>
        requires
            old(self).wf(),
        ensures
            final(self).wf(),
            r@ == handle::node_id(name@),
            plain_registration(old(self)@, final(self)@, name@, Seq::empty(), None, T::EXECUTION_CLASS, DurableWitness::Absent, TriggerRule::AllSucceeded),
            final(self)@.nodes[name@].policy() == policy,
            call_ensures(assembly::output_is_unit::<T::Output>, (), final(self)@.nodes[name@].declaration.output_is_unit),
    {
        let unit = assembly::output_is_unit::<T::Output>();
        self.register_source_in_group_with::<T::Output>(
            name,
            NodeDeclaration::plain(None, policy, T::EXECUTION_CLASS, DurableWitness::Absent, TriggerRule::AllSucceeded, unit),
        )
    }

    /// Registers a durable node that consumes nothing. The policy is taken with its
    /// durability switched on.
    #[must_use]
    pub fn register_source_durable<T>(&mut self, name: &str, _task: &T, policy: NodePolicy) -> (r: Handle<
        T::Output,
    >) where T: Task<Input = ()>, T::Output: DurableOutput
        requires
            old(self).wf(),
        ensures
            final(self).wf(),
            r@ == handle::node_id(name@),
            plain_registration(old(self)@, final(self)@, name@, Seq::empty(), None, T::EXECUTION_CLASS, DurableWitness::Present, TriggerRule::AllSucceeded),
            final(self)@.nodes[name@].policy() == (NodePolicy { durable: true, ..policy }),
            call_ensures(assembly::output_is_unit::<T::Output>, (), final(self)@.nodes[name@].declaration.output_is_unit),
    {
        let unit = assembly::output_is_unit::<T::Output>();
        self.register_source_in_group_with::<T::Output>(
            name,
            NodeDeclaration::plain(None, policy.durable(true), T::EXECUTION_CLASS, DurableWitness::Present, TriggerRule::AllSucceeded, unit),
        )
    }

    /// Registers a node that consumes nothing, under a group label.
    #[must_use]
    pub fn register_source_in_group<T>(&mut self, name: &str, _task: &T, group: Option<&str>) -> (r: Handle<
        T::Output,
    >) where T: Task<Input = ()>
        requires
            old(self).wf(),
        ensures
            final(self).wf(),
            r@ == handle::node_id(name@),
            plain_registration(old(self)@, final(self)@, name@, Seq::empty(), opt_view(group), T::EXECUTION_CLASS, DurableWitness::Absent, TriggerRule::AllSucceeded),
            final(self)@.nodes[name@].policy().is_default(),
            call_ensures(assembly::output_is_unit::<T::Output>, (), final(self)@.nodes[name@].declaration.output_is_unit),
    {
        let unit = assembly::output_is_unit::<T::Output>();
        self.register_source_in_group_with::<T::Output>(
            name,
            NodeDeclaration::plain(group, NodePolicy::new(), T::EXECUTION_CLASS, DurableWitness::Absent, TriggerRule::AllSucceeded, unit),
        )
    }

    /// Registers a node that consumes nothing, with a policy and a trigger rule.
    #[must_use]
    pub fn register_source_with_trigger<T>(
        &mut self,
        name: &str,
        _task: &T,
        policy: NodePolicy,
        trigger_rule: TriggerRule,
    ) -> (r: Handle<T::Output>) where T: Task<Input = ()>
        requires
            old(self).wf(),
        ensures
            final(self).wf(),
            r@ == handle::node_id(name@),
            plain_registration(old(self)@, final(self)@, name@, Seq::empty(), None, T::EXECUTION_CLASS, DurableWitness::Absent, trigger_rule),
            final(self)@.nodes[name@].policy() == policy,
            call_ensures(assembly::output_is_unit::<T::Output>, (), final(self)@.nodes[name@].declaration.output_is_unit),
    {
        let unit = assembly::output_is_unit::<T::Output>();
        self.register_source_in_group_with::<T::Output>(
            name,
            NodeDeclaration::plain(None, policy, T::EXECUTION_CLASS, DurableWitness::Absent, trigger_rule, unit),
        )
    }

    /// Registers a node that consumes nothing, with everything it states given. The
    /// other registrations of such nodes come down to this one.
    #[must_use]
    pub fn register_source_in_group_with<Out>(&mut self, name: &str, declaration: NodeDeclaration) -> (r: Handle<Out>)
        requires
            old(self).wf(),
        ensures
            final(self).wf(),
            r@ == handle::node_id(name@),
            final(self)@ == old(self)@.registered(name@, Seq::empty(), declaration@),
    {
        let handle: Handle<Out> = NodeBinding::consuming_nothing(name).trigger_rule(
            declaration.trigger_rule,
        ).finish::<Out>();
        let node = PipelineNode {
            id: handle.id(),
            name: String::from_str(name),
            edges: Vec::new(),
            declaration,
            registration_count: 1,
        };
        self.insert_node(String::from_str(name), node);
        handle
    }

    /// Registers a node that consumes `deps`.
    #[must_use]
    pub fn register<T, D>(&mut self, name: &str, task: &T, deps: D) -> (r: Handle<T::Output>) where
        T: Task,
        D: Deps<Inputs = T::Input>,

        requires
            old(self).wf(),
        ensures
            final(self).wf(),
            r@ == handle::node_id(name@),
            plain_registration(old(self)@, final(self)@, name@, binding::edges_of(deps.bound_inputs()), None, T::EXECUTION_CLASS, DurableWitness::Absent, TriggerRule::AllSucceeded),
            final(self)@.nodes[name@].policy().is_default(),
            call_ensures(assembly::output_is_unit::<T::Output>, (), final(self)@.nodes[name@].declaration.output_is_unit),
    {
        self.register_in_group::<T, D>(name, task, deps, None)
    }

    /// Registers a node that consumes `deps`, with a policy.
    #[must_use]
    pub fn register_with<T, D>(&mut self, name: &str, task: &T, deps: D, policy: NodePolicy) -> (r: Handle<
        T::Output,
    >) where T: Task, D: Deps<Inputs = T::Input>
        requires
            old(self).wf(),
        ensures
            final(self).wf(),
            r@ == handle::node_id(name@),
            plain_registration(old(self)@, final(self)@, name@, binding::edges_of(deps.bound_inputs()), None, T::EXECUTION_CLASS, DurableWitness::Absent, TriggerRule::AllSucceeded),
            final(self)@.nodes[name@].policy() == policy,
            call_ensures(assembly::output_is_unit::<T::Output>, (), final(self)@.nodes[name@].declaration.output_is_unit),
    {
        let unit = assembly::output_is_unit::<T::Output>();
        self.register_in_group_with::<T, D>(
            name,
            task,
            deps,
            NodeDeclaration::plain(None, policy, T::EXECUTION_CLASS, DurableWitness::Absent, TriggerRule::AllSucceeded, unit),
        )
    }

    /// Registers a durable node that consumes `deps`. The policy is taken with its
    /// durability switched on.
    #[must_use]
    pub fn register_durable<T, D>(&mut self, name: &str, task: &T, deps: D, policy: NodePolicy) -> (r: Handle<
        T::Output,
    >) where T: Task, T::Output: DurableOutput, D: Deps<Inputs = T::Input>
        requires
            old(self).wf(),
        ensures
            final(self).wf(),
            r@ == handle::node_id(name@),
            plain_registration(old(self)@, final(self)@, name@, binding::edges_of(deps.bound_inputs()), None, T::EXECUTION_CLASS, DurableWitness::Present, TriggerRule::AllSucceeded),
            final(self)@.nodes[name@].policy() == (NodePolicy { durable: true, ..policy }),
            call_ensures(assembly::output_is_unit::<T::Output>, (), final(self)@.nodes[name@].declaration.output_is_unit),
    {
        let unit = assembly::output_is_unit::<T::Output>();
        self.register_in_group_with::<T, D>(
            name,
            task,
            deps,
            NodeDeclaration::plain(None, policy.durable(true), T::EXECUTION_CLASS, DurableWitness::Present, TriggerRule::AllSucceeded, unit),
        )
    }

    /// Registers a node that consumes `deps`, under a group label.
    #[must_use]
    pub fn register_in_group<T, D>(&mut self, name: &str, task: &T, deps: D, group: Option<&str>) -> (r: Handle<
        T::Output,
    >) where T: Task, D: Deps<Inputs = T::Input>
        requires
            old(self).wf(),
        ensures
            final(self).wf(),
            r@ == handle::node_id(name@),
            plain_registration(old(self)@, final(self)@, name@, binding::edges_of(deps.bound_inputs()), opt_view(group), T::EXECUTION_CLASS, DurableWitness::Absent, TriggerRule::AllSucceeded),
            final(self)@.nodes[name@].policy().is_default(),
            call_ensures(assembly::output_is_unit::<T::Output>, (), final(self)@.nodes[name@].declaration.output_is_unit),
    {
        let unit = assembly::output_is_unit::<T::Output>();
        self.register_in_group_with::<T, D>(
            name,
            task,
            deps,
            NodeDeclaration::plain(group, NodePolicy::new(), T::EXECUTION_CLASS, DurableWitness::Absent, TriggerRule::AllSucceeded, unit),
        )
    }

    /// Registers a node that consumes `deps`, with everything it states given; its
    /// trigger rule is that of a node that consumes data. The other registrations of
    /// such nodes come down to this one.
    #[must_use]
    pub fn register_in_group_with<T, D>(
        &mut self,
        name: &str,
        task: &T,
        deps: D,
        declaration: NodeDeclaration,
    ) -> (r: Handle<T::Output>) where T: Task, D: Deps<Inputs = T::Input>
        requires
            old(self).wf(),
        ensures
            final(self).wf(),
            r@ == handle::node_id(name@),
            final(self)@ == old(self)@.registered(
                name@,
                binding::edges_of(deps.bound_inputs()),
                NodeDeclarationView { trigger_rule: TriggerRule::AllSucceeded, ..declaration@ },
            ),
    {
        let (handle, node) = NodeBinding::consuming_nothing(name).depends_on::<T, D>(task, deps).finish::<T::Output>();
        let rule = node.trigger_rule();
        let id = node.id();
        let edges = node.into_data_edges();
        assert(edges.len() <= usize::MAX);
        let pipeline_node = PipelineNode {
            id,
            name: String::from_str(name),
            edges,
            declaration: NodeDeclaration { trigger_rule: rule, ..declaration },
            registration_count: 1,
        };
        self.insert_node(String::from_str(name), pipeline_node);
        handle
    }

    /// Puts a node under its name and counts the registrations of that name.
    fn insert_node(&mut self, name: String, node: PipelineNode)
        requires
            old(self).wf(),
            node@.name == name@,
            node@.id == handle::node_id(name@),
            node.registration_count == 1,
            node@.wf(),
        ensures
            final(self).wf(),
            final(self)@ == old(self)@.registered(name@, node@.edges, node@.declaration),
    {
        let ghost key = name@;
        let ghost before = self.nodes;
        let mut node = node;
        match self.nodes.index_of(name.as_str()) {
            Some(i) => {
                let count = self.nodes.value_at(i).registration_count;
                node.registration_count = if count < usize::MAX { count + 1 } else { count };
            },
            None => {},
        }
        let ghost placed = node;
        self.nodes.insert(name, node);
        proof {
            let es = self.nodes.entries();
            assert forall|i: int| 0 <= i < es.len() implies (#[trigger] es[i]).1@.name == es[i].0 && es[i].1@.wf() by {
                names::lemma_entry(es, i);
                let n = es[i].0;
                if n != key {
                    assert(before@.dom().contains(n));
                    let k = names::position_of(before.entries(), n);
                    assert(names::has_name(before.entries(), n));
                    names::lemma_entry(before.entries(), k);
                }
            }
            assert(self@.nodes =~= old(self)@.registered(key, placed@.edges, placed@.declaration).nodes);
        }
    }

    /// Finishes the flow: the nodes can be read from here on, and no longer changed.
    #[must_use]
    pub fn finish(self) -> (r: Pipeline)
        requires
            self.wf(),
        ensures
            r.wf(),
            r@.map() == self@.nodes,
            r@.env_allowlist == self@.env_allowlist,
            r@.failure_mode == self@.failure_mode,
    {
        let r = Pipeline { nodes: self.nodes, env_allowlist: self.env_allowlist, failure_mode: self.failure_mode };
        proof {
            lemma_map_of_views(r.nodes);
        }
        r
    }
}

/// The order of registrations leaves no trace: two registrations under different
/// names commute.
pub proof fn law_registrations_commute(
    flow: FlowView,
    name1: Seq<char>,
    edges1: Seq<DataEdge>,
    declaration1: NodeDeclarationView,
    name2: Seq<char>,
    edges2: Seq<DataEdge>,
    declaration2: NodeDeclarationView,
)
    requires
        name1 != name2,
    ensures
        flow.registered(name1, edges1, declaration1).registered(name2, edges2, declaration2) == flow.registered(
            name2,
            edges2,
            declaration2,
        ).registered(name1, edges1, declaration1),
{
    let a = flow.registered(name1, edges1, declaration1).registered(name2, edges2, declaration2);
    let b = flow.registered(name2, edges2, declaration2).registered(name1, edges1, declaration1);
    assert(a.nodes =~= b.nodes);
}

/// Two pipelines that hold the same nodes by name hold them in the same order.
pub proof fn law_contents_fix_order(p: PipelineView, q: PipelineView)
    requires
        p.wf(),
        q.wf(),
        p.map() == q.map(),
    ensures
        p.nodes == q.nodes,
{
    let a = p.nodes.map_values(|n: NodeView| (n.name, n));
    let b = q.nodes.map_values(|n: NodeView| (n.name, n));
    assert(names::in_name_order(a)) by {
        assert forall|i: int, j: int| 0 <= i < j < a.len() implies text::name_lt(
            #[trigger] a[i].0,
            #[trigger] a[j].0,
        ) by {
            assert(text::name_lt(p.nodes[i].name, p.nodes[j].name));
        }
    }
    assert(names::in_name_order(b)) by {
        assert forall|i: int, j: int| 0 <= i < j < b.len() implies text::name_lt(
            #[trigger] b[i].0,
            #[trigger] b[j].0,
        ) by {
            assert(text::name_lt(q.nodes[i].name, q.nodes[j].name));
        }
    }
    names::lemma_one_order(a, b);
    assert(p.nodes =~= q.nodes) by {
        assert(p.nodes.len() == q.nodes.len());
        assert forall|i: int| 0 <= i < p.nodes.len() implies p.nodes[i] == q.nodes[i] by {
            assert(a[i].1 == b[i].1);
        }
    }
}

/// A node's identity comes from its name alone: whatever else the registration
/// states, the node that stands under the name has the identity of the name.
pub proof fn law_identity_is_the_name(
    flow: FlowView,
    name: Seq<char>,
    edges: Seq<DataEdge>,
    declaration: NodeDeclarationView,
)
    ensures
        flow.registered(name, edges, declaration).nodes[name].id == handle::node_id(name),
{
}

/// A registration states what it states under its name and touches nothing else: every
/// other name, the allowed variables and the failure mode stay. The first under a name
/// counts one, and each further one counts one more, as far as a count goes.
pub proof fn law_a_registration_touches_its_name_only(
    flow: FlowView,
    name: Seq<char>,
    edges: Seq<DataEdge>,
    declaration: NodeDeclarationView,
    other: Seq<char>,
)
    requires
        other != name,
    ensures
        ({
            let after = flow.registered(name, edges, declaration);
            let node = after.nodes[name];
            &&& after.nodes.dom() == flow.nodes.dom().insert(name)
            &&& node.name == name && node.edges == edges && node.declaration == declaration
            &&& !flow.nodes.dom().contains(name) ==> node.registration_count == 1
            &&& flow.nodes.dom().contains(name) && flow.nodes[name].registration_count < usize::MAX
                ==> node.registration_count == flow.nodes[name].registration_count + 1
            &&& flow.nodes.dom().contains(name) && flow.nodes[name].registration_count == usize::MAX
                ==> node.registration_count == usize::MAX
            &&& flow.nodes.dom().contains(other) ==> after.nodes[other] == flow.nodes[other]
            &&& after.env_allowlist == flow.env_allowlist
            &&& after.failure_mode == flow.failure_mode
        }),
{
}

/// An ordinary registration records the inputs, the group, the class, the witness and the
/// rule that it was given, and neither orderings nor covered nodes nor stable names.
pub proof fn law_a_plain_registration_records_what_was_given(
    before: FlowView,
    after: FlowView,
    name: Seq<char>,
    edges: Seq<DataEdge>,
    group: Option<Seq<char>>,
    class: ExecutionClass,
    witness: DurableWitness,
    rule: TriggerRule,
    other: Seq<char>,
)
    requires
        plain_registration(before, after, name, edges, group, class, witness, rule),
        other != name,
    ensures
        ({
            let node = after.nodes[name];
            &&& after.nodes.dom().contains(name)
            &&& node.name == name && node.id == handle::node_id(name) && node.edges == edges
            &&& node.declaration.group == group
            &&& node.declaration.declared_class == class
            &&& node.declaration.durable_witness == witness
            &&& node.declaration.trigger_rule == rule
            &&& node.declaration.ordering.len() == 0 && node.declaration.covers.len() == 0
            &&& node.declaration.stable_names is None
            &&& node.policy() == node.declaration.policy
            &&& after.nodes.dom().contains(other) == before.nodes.dom().contains(other)
            &&& before.nodes.dom().contains(other) ==> after.nodes[other] == before.nodes[other]
            &&& after.failure_mode == before.failure_mode && after.env_allowlist == before.env_allowlist
        }),
{
}

/// A node runs in the class that overrides its own, where one does, and in its own
/// otherwise.
pub proof fn law_an_override_decides_the_class(node: NodeView, class: ExecutionClass)
    ensures
        node.declaration.policy.class_override == Some(class) ==> node.effective_class() == class,
        node.declaration.policy.class_override is None ==> node.effective_class() == node.declaration.declared_class,
{
}

/// A policy that states nothing: the value is neither kept nor durable, nothing is retried,
/// a retry would wait from a tenth of a second on and twice as long each time, without
/// bound, there is no time limit, it is no teardown, it costs nothing and keeps its class.
pub proof fn law_a_default_policy_states_nothing(policy: NodePolicy)
    requires
        policy.is_default(),
    ensures
        !policy.durable && !policy.retained && !policy.teardown,
        policy.retries == 0,
        policy.backoff.base@ == 100_000_000,
        policy.backoff.factor_bits == 0x4000_0000_0000_0000,
        policy.backoff.cap@ == 18_446_744_073_709_551_615_999_999_999,
        policy.timeout is None && policy.class_override is None,
        policy.cost.working_memory == 0 && policy.cost.output_residency == 0,
        policy.cost.blocking_threads == 0 && policy.cost.compute_threads == 0,
{
}

/// An identity resolves to the first node that has it, and to none where none has.
pub proof fn law_an_identity_resolves_to_its_first_node(p: PipelineView, id: NodeId, i: int)
    ensures
        p.has_node(id) ==> {
            let k = p.index_of(id);
            &&& 0 <= k < p.nodes.len() && p.nodes[k].id == id
            &&& 0 <= i < k ==> p.nodes[i].id != id
        },
        0 <= i < p.nodes.len() && p.nodes[i].id == id ==> p.has_node(id) && p.index_of(id) <= i,
{
    if p.has_node(id) {
        lemma_resolves(p, id);
    }
}

/// A pipeline's nodes by name are its nodes, each under its own name.
pub proof fn law_nodes_stand_under_their_names(p: PipelineView, i: int)
    requires
        p.wf(),
        0 <= i < p.nodes.len(),
    ensures
        p.map().dom().contains(p.nodes[i].name),
        p.map()[p.nodes[i].name] == p.nodes[i],
{
    let entries = p.nodes.map_values(|n: NodeView| (n.name, n));
    assert forall|a: int, b: int| 0 <= a < b < entries.len() implies text::name_lt(
        #[trigger] entries[a].0,
        #[trigger] entries[b].0,
    ) by {
        assert(text::name_lt(p.nodes[a].name, p.nodes[b].name));
    }
    names::lemma_entry(entries, i);
    assert(entries[i] == (p.nodes[i].name, p.nodes[i]));
}

/// An optional text.
pub open spec fn opt_view(s: Option<&str>) -> Option<Seq<char>> {
    match s {
        Some(t) => Some(t@),
        None => None,
    }
}

/// `after` is `before` with one more registration under `name`, which states the
/// given edges, group label, class, witness and trigger rule, and besides a policy
/// and a unit mark.
pub open spec fn plain_registration(
    before: FlowView,
    after: FlowView,
    name: Seq<char>,
    edges: Seq<DataEdge>,
    group: Option<Seq<char>>,
    class: ExecutionClass,
    witness: DurableWitness,
    rule: TriggerRule,
) -> bool {
    let node = after.nodes[name];
    after == before.registered(
        name,
        edges,
        NodeDeclarationView::plain(group, node.policy(), class, witness, rule, node.declaration.output_is_unit),
    )
}

/// The contents of a [`Pipeline`]: its nodes in name order, the environment
/// allowlist, and the failure mode.
#[verifier::ext_equal]
pub struct PipelineView {
    pub nodes: Seq<NodeView>,
    pub env_allowlist: Seq<Seq<char>>,
    pub failure_mode: FailureMode,
}

impl PipelineView {
    /// Whether the node at `i` is the first, in name order, with the identity.
    pub open spec fn resolves_to(self, id: NodeId, i: int) -> bool {
        &&& 0 <= i < self.nodes.len()
        &&& self.nodes[i].id == id
        &&& forall|j: int| 0 <= j < i ==> (#[trigger] self.nodes[j]).id != id
    }

    /// Whether some node has the identity.
    pub open spec fn has_node(self, id: NodeId) -> bool {
        exists|i: int| 0 <= i < self.nodes.len() && (#[trigger] self.nodes[i]).id == id
    }

    /// The first node, in name order, with the identity.
    pub open spec fn index_of(self, id: NodeId) -> int {
        choose|i: int| self.resolves_to(id, i)
    }

    /// Nodes stand in strictly increasing name order, and identities follow from
    /// names.
    pub open spec fn wf(self) -> bool {
        &&& forall|i: int, j: int|
            0 <= i < j < self.nodes.len() ==> text::name_lt(
                (#[trigger] self.nodes[i]).name,
                (#[trigger] self.nodes[j]).name,
            )
        &&& forall|i: int| 0 <= i < self.nodes.len() ==> (#[trigger] self.nodes[i]).wf()
    }

    /// The nodes by name.
    pub open spec fn map(self) -> Map<Seq<char>, NodeView> {
        names::entries_map(self.nodes.map_values(|n: NodeView| (n.name, n)))
    }
}

/// An identity that some node has resolves to one node.
pub proof fn lemma_resolves(p: PipelineView, id: NodeId)
    requires
        p.has_node(id),
    ensures
        p.resolves_to(id, p.index_of(id)),
{
    let i = choose|i: int| 0 <= i < p.nodes.len() && (#[trigger] p.nodes[i]).id == id;
    lemma_resolves_below(p, id, i);
}

proof fn lemma_resolves_below(p: PipelineView, id: NodeId, i: int)
    requires
        0 <= i < p.nodes.len(),
        p.nodes[i].id == id,
    ensures
        exists|k: int| p.resolves_to(id, k),
    decreases i,
{
    if exists|j: int| 0 <= j < i && (#[trigger] p.nodes[j]).id == id {
        let j = choose|j: int| 0 <= j < i && (#[trigger] p.nodes[j]).id == id;
        lemma_resolves_below(p, id, j);
    } else {
        assert(p.resolves_to(id, i));
    }
}

/// An identity resolves to at most one node.
pub proof fn lemma_resolves_unique(p: PipelineView, id: NodeId, i: int)
    requires
        p.resolves_to(id, i),
    ensures
        p.has_node(id),
        p.index_of(id) == i,
{
    assert(p.nodes[i].id == id);
    let k = p.index_of(id);
    assert(p.resolves_to(id, k));
    if k < i {
        assert(p.nodes[k].id == id);
    }
}

/// The pipeline a finished [`Flow`] becomes: it can only be read.
#[derive(Debug, Clone, PartialEq, Eq)]
pub struct Pipeline {
    nodes: NameMap<PipelineNode>,
    env_allowlist: Vec<String>,
    failure_mode: FailureMode,
}

impl View for Pipeline {
    type V = PipelineView;

    closed spec fn view(&self) -> PipelineView {
        PipelineView {
            nodes: self.nodes.entries().map_values(|e: (Seq<char>, PipelineNode)| e.1@),
            env_allowlist: self.env_allowlist@.map_values(|s: String| s@),
            failure_mode: self.failure_mode,
        }
    }
}

proof fn lemma_map_of_views(nodes: NameMap<PipelineNode>)
    requires
        keyed_by_name(nodes),
    ensures
        names::entries_map(
            nodes.entries().map_values(|e: (Seq<char>, PipelineNode)| e.1@).map_values(|n: NodeView| (n.name, n)),
        ) == node_map(nodes),
{
    let es = nodes.entries();
    let vs = es.map_values(|e: (Seq<char>, PipelineNode)| e.1@).map_values(|n: NodeView| (n.name, n));
    assert forall|i: int| 0 <= i < es.len() implies #[trigger] vs[i] == (es[i].0, es[i].1@) by {}
    assert(names::in_name_order(vs));
    assert forall|n: Seq<char>| #[trigger] names::has_name(vs, n) <==> names::has_name(es, n) by {
        if names::has_name(vs, n) {
            let i = names::position_of(vs, n);
            assert(es[i].0 == n);
        }
        if names::has_name(es, n) {
            let i = names::position_of(es, n);
            assert(vs[i].0 == n);
        }
    }
    let left = names::entries_map(vs);
    let right = node_map(nodes);
    assert forall|n: Seq<char>| #[trigger] left.dom().contains(n) implies left[n] == right[n] by {
        assert(names::has_name(vs, n));
        assert(names::has_name(es, n));
        let i = names::position_of(es, n);
        assert(vs[i].0 == n);
        names::lemma_entry(es, i);
        names::lemma_entry(vs, i);
    }
    assert(left =~= right);
}

impl Pipeline {
    /// Nodes stand in name order, and identities follow from names.
    pub closed spec fn wf(self) -> bool {
        keyed_by_name(self.nodes)
    }

    /// The nodes of a pipeline stand in name order, each name once, and every identity is
    /// that of its name.
    pub proof fn law_nodes_are_in_name_order(&self)
        requires
            self.wf(),
        ensures
            self@.wf(),
    {
        let es = self.nodes.entries();
        assert forall|i: int, j: int| 0 <= i < j < self@.nodes.len() implies text::name_lt(
            (#[trigger] self@.nodes[i]).name,
            (#[trigger] self@.nodes[j]).name,
        ) by {
            assert(text::name_lt(es[i].0, es[j].0));
        }
        assert forall|i: int| 0 <= i < self@.nodes.len() implies (#[trigger] self@.nodes[i]).wf() by {
            assert(es[i].1@.wf());
        }
    }

    /// The number of nodes.
    #[must_use]
    pub fn len(&self) -> (r: usize)
        ensures
            r == self@.nodes.len(),
    {
        self.nodes.len()
    }

    /// Whether there are no nodes.
    #[must_use]
    pub fn is_empty(&self) -> (r: bool)
        ensures
            r == (self@.nodes.len() == 0),
    {
        self.nodes.is_empty()
    }

    /// The environment variable names that may be captured, in declared order.
    #[must_use]
    pub fn env_allowlist(&self) -> (r: &[String])
        ensures
            r@.map_values(|s: String| s@) == self@.env_allowlist,
    {
        self.env_allowlist.as_slice()
    }

    /// The failure mode.
    #[must_use]
    pub fn failure_mode(&self) -> (r: FailureMode)
        ensures
            r == self@.failure_mode,
    {
        self.failure_mode
    }

    /// The node at place `i` in name order.
    #[must_use]
    pub fn node_at(&self, i: usize) -> (r: &PipelineNode)
        requires
            i < self@.nodes.len(),
        ensures
            r@ == self@.nodes[i as int],
    {
        self.nodes.value_at(i)
    }

    /// The nodes in name order.
    #[must_use]
    pub fn nodes(&self) -> (r: Vec<&PipelineNode>)
        ensures
            r@.map_values(|n: &PipelineNode| n@) == self@.nodes,
    {
        let mut out: Vec<&PipelineNode> = Vec::new();
        let mut i: usize = 0;
        while i < self.nodes.len()
            invariant
                i <= self@.nodes.len(),
                out@.map_values(|n: &PipelineNode| n@) == self@.nodes.take(i as int),
            decreases self@.nodes.len() - i,
        {
            let ghost before = out@;
            out.push(self.node_at(i));
            i = i + 1;
            proof {
                assert(out@.map_values(|n: &PipelineNode| n@) =~= before.map_values(|n: &PipelineNode| n@).push(
                    self@.nodes[i - 1],
                ));
                assert(self@.nodes.take(i as int) =~= self@.nodes.take(i - 1).push(self@.nodes[i - 1]));
            }
        }
        assert(self@.nodes.take(i as int) =~= self@.nodes);
        out
    }

    /// The place of the first node, in name order, with the identity.
    #[must_use]
    pub fn index_of(&self, id: NodeId) -> (r: Option<usize>)
        ensures
            match r {
                Some(i) => self@.has_node(id) && self@.resolves_to(id, i as int) && self@.index_of(id) == i,
                None => !self@.has_node(id),
            },
    {
        let mut i: usize = 0;
        while i < self.nodes.len()
            invariant
                i <= self@.nodes.len(),
                forall|j: int| 0 <= j < i ==> (#[trigger] self@.nodes[j]).id != id,
            decreases self@.nodes.len() - i,
        {
            let node = self.node_at(i);
            if node.id() == id {
                proof {
                    lemma_resolves_unique(self@, id, i as int);
                }
                return Some(i);
            }
            i = i + 1;
        }
        None
    }

    /// The first node, in name order, with the identity.
    #[must_use]
    pub fn node(&self, id: NodeId) -> (r: Option<&PipelineNode>)
        ensures
            match r {
                Some(n) => self@.has_node(id) && n@ == self@.nodes[self@.index_of(id)],
                None => !self@.has_node(id),
            },
    {
        match self.index_of(id) {
            Some(i) => Some(self.node_at(i)),
            None => None,
        }
    }

    /// The node that a handle refers to.
    #[must_use]
    pub fn resolve<T>(&self, handle: Handle<T>) -> (r: Option<&PipelineNode>)
        ensures
            match r {
                Some(n) => self@.has_node(handle@) && n@ == self@.nodes[self@.index_of(handle@)],
                None => !self@.has_node(handle@),
            },
    {
        self.node(handle.id())
    }
}

} // verus!
