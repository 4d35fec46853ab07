//! Declaring that one task consumes another's output.
//!
//! A data dependency is declared by binding handles of already registered nodes.
//! Value types, arity and order are checked when the program is compiled; the
//! receive mode of each edge is recorded as it was declared and judged only when
//! the whole pipeline is assembled.

pub mod test_support;

use crate::handle::{self, Handle, NodeId};
use crate::sealed::Sealed;
use crate::task::Task;
use std::marker::PhantomData;
use vstd::prelude::*;

verus! {

/// The largest number of inputs a task may bind.
pub const MAX_INPUT_ARITY: usize = 8;

/// How an edge delivers its upstream value to the consuming attempt.
#[derive(Debug, Clone, Copy, PartialEq, Eq, Hash, Structural)]
pub enum ReceiveMode {
    /// The consumer takes the value. The mode of a bare handle.
    Owned,
    /// The consumer reads the value while others may read it too.
    Shared,
    /// Each attempt receives a fresh clone of the value.
    CloneOnRead,
}

/// The kind of a recorded dependency edge.
#[derive(Debug, Clone, Copy, PartialEq, Eq, Hash, Structural)]
#[non_exhaustive]
pub enum EdgeKind {
    /// The downstream consumes the upstream's output value.
    Data,
}

/// A recorded data dependency: the upstream node, the consumer's input position
/// that it fills, and the declared receive mode.
#[derive(Debug, Clone, Copy, PartialEq, Eq, Structural)]
pub struct DataEdge {
    pub upstream: NodeId,
    pub position: usize,
    pub mode: ReceiveMode,
}

impl DataEdge {
    /// The identity of the upstream node.
    #[must_use]
    pub fn upstream(&self) -> (r: NodeId)
        ensures
            r == self.upstream,
    {
        self.upstream
    }

    /// The consumer's input position that this edge fills, counted from zero.
    #[must_use]
    pub fn position(&self) -> (r: usize)
        ensures
            r == self.position,
    {
        self.position
    }

    /// The declared receive mode.
    #[must_use]
    pub fn mode(&self) -> (r: ReceiveMode)
        ensures
            r == self.mode,
    {
        self.mode
    }

    /// The kind of this edge.
    #[must_use]
    pub fn kind(&self) -> (r: EdgeKind)
        ensures
            r == EdgeKind::Data,
    {
        EdgeKind::Data
    }

    /// A data edge implies that the upstream succeeded.
    #[must_use]
    pub fn implies_success(&self) -> (r: bool)
        ensures
            r,
    {
        true
    }

    /// A data edge implies that the downstream runs after the upstream.
    #[must_use]
    pub fn implies_ordering(&self) -> (r: bool)
        ensures
            r,
    {
        true
    }
}

/// A recorded dependency that orders two nodes without passing a value.
#[derive(Debug, Clone, Copy, PartialEq, Eq, Structural)]
pub struct OrderingEdge {
    pub upstream: NodeId,
}

impl OrderingEdge {
    /// The identity of the upstream node.
    #[must_use]
    pub fn upstream(&self) -> (r: NodeId)
        ensures
            r == self.upstream,
    {
        self.upstream
    }
}

/// When a node fires, over the terminal states of its upstreams.
#[derive(Debug, Clone, Copy, PartialEq, Eq, Hash, Structural)]
pub enum TriggerRule {
    /// Every upstream is success-like. The default, and the only rule of a node
    /// that consumes data.
    AllSucceeded,
    /// Every upstream is terminal.
    AllTerminal,
    /// Every upstream is terminal and at least one is failure-like.
    AnyFailed,
}

impl Default for TriggerRule {
    fn default() -> (r: Self)
        ensures
            r == TriggerRule::AllSucceeded,
    {
        TriggerRule::AllSucceeded
    }
}

/// One bound input: a handle and its declared receive mode.
pub trait BoundInput: Sealed + Sized {
    /// The value type this input delivers.
    type Value;

    /// The upstream identity and the declared receive mode.
    spec fn bound(self) -> (NodeId, ReceiveMode);

    /// Reads off the upstream identity and the declared receive mode.
    fn resolve(self) -> (r: (NodeId, ReceiveMode))
        ensures
            r == self.bound(),
    ;
}

/// A handle bound for shared reading.
#[verifier::reject_recursive_types(T)]
pub struct Shared<T>(Handle<T>);

/// A handle bound for a fresh clone at each read.
#[verifier::reject_recursive_types(T)]
pub struct CloneOnRead<T>(Handle<T>);

impl<T> View for Shared<T> {
    type V = NodeId;

    closed spec fn view(&self) -> NodeId {
        self.0@
    }
}

impl<T> View for CloneOnRead<T> {
    type V = NodeId;

    closed spec fn view(&self) -> NodeId {
        self.0@
    }
}

impl<T> Clone for Shared<T> {
    fn clone(&self) -> (r: Self)
        ensures
            r == *self,
    {
        *self
    }
}

impl<T> Copy for Shared<T> {

}

impl<T> Clone for CloneOnRead<T> {
    fn clone(&self) -> (r: Self)
        ensures
            r == *self,
    {
        *self
    }
}

impl<T> Copy for CloneOnRead<T> {

}

impl<T> Handle<T> {
    /// Binds this handle for shared reading.
    #[must_use]
    pub fn shared(self) -> (r: Shared<T>)
        ensures
            r@ == self@,
    {
        Shared(self)
    }

    /// Binds this handle for a fresh clone at each read.
    #[must_use]
    pub fn clone_on_read(self) -> (r: CloneOnRead<T>)
        ensures
            r@ == self@,
    {
        CloneOnRead(self)
    }
}

impl<T> Sealed for Handle<T> {

}

impl<T> Sealed for Shared<T> {

}

impl<T> Sealed for CloneOnRead<T> {

}

impl<T> BoundInput for Handle<T> {
    type Value = T;

    open spec fn bound(self) -> (NodeId, ReceiveMode) {
        (self@, ReceiveMode::Owned)
    }

    fn resolve(self) -> (r: (NodeId, ReceiveMode)) {
        (self.id(), ReceiveMode::Owned)
    }
}

impl<T> BoundInput for Shared<T> {
    type Value = T;

    open spec fn bound(self) -> (NodeId, ReceiveMode) {
        (self@, ReceiveMode::Shared)
    }

    fn resolve(self) -> (r: (NodeId, ReceiveMode)) {
        (self.0.id(), ReceiveMode::Shared)
    }
}

impl<T> BoundInput for CloneOnRead<T> {
    type Value = T;

    open spec fn bound(self) -> (NodeId, ReceiveMode) {
        (self@, ReceiveMode::CloneOnRead)
    }

    fn resolve(self) -> (r: (NodeId, ReceiveMode)) {
        (self.0.id(), ReceiveMode::CloneOnRead)
    }
}

/// A set of bound inputs whose value types, in order, are `Inputs`.
pub trait Deps: Sealed + Sized {
    /// The value types that these inputs deliver.
    type Inputs;

    /// Upstream identity and receive mode of each input, in input order.
    spec fn bound_inputs(self) -> Seq<(NodeId, ReceiveMode)>;

    /// Lists upstream identity and receive mode of each input, in input order.
    fn into_edges(self) -> (r: Vec<(NodeId, ReceiveMode)>)
        ensures
            r@ == self.bound_inputs(),
    ;
}

impl<D: BoundInput> Deps for D {
    type Inputs = D::Value;

    open spec fn bound_inputs(self) -> Seq<(NodeId, ReceiveMode)> {
        seq![self.bound()]
    }

    fn into_edges(self) -> (r: Vec<(NodeId, ReceiveMode)>) {
        vec![self.resolve()]
    }
}

impl<I0: BoundInput, I1: BoundInput> Sealed for (I0, I1) {

}

impl<I0: BoundInput, I1: BoundInput> Deps for (I0, I1) {
    type Inputs = (I0::Value, I1::Value);

    open spec fn bound_inputs(self) -> Seq<(NodeId, ReceiveMode)> {
        seq![self.0.bound(), self.1.bound()]
    }

    fn into_edges(self) -> (r: Vec<(NodeId, ReceiveMode)>) {
        vec![self.0.resolve(), self.1.resolve()]
    }
}

impl<I0: BoundInput, I1: BoundInput, I2: BoundInput> Sealed for (I0, I1, I2) {

}

impl<I0: BoundInput, I1: BoundInput, I2: BoundInput> Deps for (I0, I1, I2) {
    type Inputs = (I0::Value, I1::Value, I2::Value);

    open spec fn bound_inputs(self) -> Seq<(NodeId, ReceiveMode)> {
        seq![self.0.bound(), self.1.bound(), self.2.bound()]
    }

    fn into_edges(self) -> (r: Vec<(NodeId, ReceiveMode)>) {
        vec![self.0.resolve(), self.1.resolve(), self.2.resolve()]
    }
}

impl<I0: BoundInput, I1: BoundInput, I2: BoundInput, I3: BoundInput> Sealed for (I0, I1, I2, I3) {

}

impl<I0: BoundInput, I1: BoundInput, I2: BoundInput, I3: BoundInput> Deps for (I0, I1, I2, I3) {
    type Inputs = (I0::Value, I1::Value, I2::Value, I3::Value);

    open spec fn bound_inputs(self) -> Seq<(NodeId, ReceiveMode)> {
        seq![self.0.bound(), self.1.bound(), self.2.bound(), self.3.bound()]
    }

    fn into_edges(self) -> (r: Vec<(NodeId, ReceiveMode)>) {
        vec![self.0.resolve(), self.1.resolve(), self.2.resolve(), self.3.resolve()]
    }
}

impl<I0: BoundInput, I1: BoundInput, I2: BoundInput, I3: BoundInput, I4: BoundInput> Sealed for (I0, I1, I2, I3, I4) {

}

impl<I0: BoundInput, I1: BoundInput, I2: BoundInput, I3: BoundInput, I4: BoundInput> Deps for (I0, I1, I2, I3, I4) {
    type Inputs = (I0::Value, I1::Value, I2::Value, I3::Value, I4::Value);

    open spec fn bound_inputs(self) -> Seq<(NodeId, ReceiveMode)> {
        seq![self.0.bound(), self.1.bound(), self.2.bound(), self.3.bound(), self.4.bound()]
    }

    fn into_edges(self) -> (r: Vec<(NodeId, ReceiveMode)>) {
        vec![self.0.resolve(), self.1.resolve(), self.2.resolve(), self.3.resolve(), self.4.resolve()]
    }
}

impl<I0: BoundInput, I1: BoundInput, I2: BoundInput, I3: BoundInput, I4: BoundInput, I5: BoundInput> Sealed for (I0, I1, I2, I3, I4, I5) {

}

impl<I0: BoundInput, I1: BoundInput, I2: BoundInput, I3: BoundInput, I4: BoundInput, I5: BoundInput> Deps for (I0, I1, I2, I3, I4, I5) {
    type Inputs = (I0::Value, I1::Value, I2::Value, I3::Value, I4::Value, I5::Value);

    open spec fn bound_inputs(self) -> Seq<(NodeId, ReceiveMode)> {
        seq![self.0.bound(), self.1.bound(), self.2.bound(), self.3.bound(), self.4.bound(), self.5.bound()]
    }

    fn into_edges(self) -> (r: Vec<(NodeId, ReceiveMode)>) {
        vec![self.0.resolve(), self.1.resolve(), self.2.resolve(), self.3.resolve(), self.4.resolve(), self.5.resolve()]
    }
}

impl<I0: BoundInput, I1: BoundInput, I2: BoundInput, I3: BoundInput, I4: BoundInput, I5: BoundInput, I6: BoundInput> Sealed for (I0, I1, I2, I3, I4, I5, I6) {

}

impl<I0: BoundInput, I1: BoundInput, I2: BoundInput, I3: BoundInput, I4: BoundInput, I5: BoundInput, I6: BoundInput> Deps for (I0, I1, I2, I3, I4, I5, I6) {
    type Inputs = (I0::Value, I1::Value, I2::Value, I3::Value, I4::Value, I5::Value, I6::Value);

    open spec fn bound_inputs(self) -> Seq<(NodeId, ReceiveMode)> {
        seq![self.0.bound(), self.1.bound(), self.2.bound(), self.3.bound(), self.4.bound(), self.5.bound(), self.6.bound()]
    }

    fn into_edges(self) -> (r: Vec<(NodeId, ReceiveMode)>) {
        vec![self.0.resolve(), self.1.resolve(), self.2.resolve(), self.3.resolve(), self.4.resolve(), self.5.resolve(), self.6.resolve()]
    }
}

impl<I0: BoundInput, I1: BoundInput, I2: BoundInput, I3: BoundInput, I4: BoundInput, I5: BoundInput, I6: BoundInput, I7: BoundInput> Sealed for (I0, I1, I2, I3, I4, I5, I6, I7) {

}

impl<I0: BoundInput, I1: BoundInput, I2: BoundInput, I3: BoundInput, I4: BoundInput, I5: BoundInput, I6: BoundInput, I7: BoundInput> Deps for (I0, I1, I2, I3, I4, I5, I6, I7) {
    type Inputs = (I0::Value, I1::Value, I2::Value, I3::Value, I4::Value, I5::Value, I6::Value, I7::Value);

    open spec fn bound_inputs(self) -> Seq<(NodeId, ReceiveMode)> {
        seq![self.0.bound(), self.1.bound(), self.2.bound(), self.3.bound(), self.4.bound(), self.5.bound(), self.6.bound(), self.7.bound()]
    }

    fn into_edges(self) -> (r: Vec<(NodeId, ReceiveMode)>) {
        vec![self.0.resolve(), self.1.resolve(), self.2.resolve(), self.3.resolve(), self.4.resolve(), self.5.resolve(), self.6.resolve(), self.7.resolve()]
    }
}

/// The data edges that a list of bound inputs makes: one per input, in order, each
/// at its own position.
pub open spec fn edges_of(inputs: Seq<(NodeId, ReceiveMode)>) -> Seq<DataEdge> {
    Seq::new(
        inputs.len(),
        |i: int| DataEdge { upstream: inputs[i].0, position: i as usize, mode: inputs[i].1 },
    )
}

/// Each bound input becomes one data edge, at its own position, from the upstream that it
/// was bound to and with the mode that it was bound for.
pub proof fn law_each_input_becomes_an_edge(inputs: Seq<(NodeId, ReceiveMode)>, i: int)
    ensures
        edges_of(inputs).len() == inputs.len(),
        0 <= i < inputs.len() <= usize::MAX ==> edges_of(inputs)[i].position == i,
        0 <= i < inputs.len() ==> edges_of(inputs)[i].upstream == inputs[i].0,
        0 <= i < inputs.len() ==> edges_of(inputs)[i].mode == inputs[i].1,
{
}

/// A handle that is bound as it is takes its value over; one bound for shared reading, or
/// for a clone at each read, does that. Each is bound to the node that it refers to.
pub proof fn law_a_handle_is_bound_as_declared<T>(owned: Handle<T>, shared: Shared<T>, cloned: CloneOnRead<T>)
    ensures
        owned.bound().0 == owned@ && owned.bound().1 == ReceiveMode::Owned,
        shared.bound().0 == shared@ && shared.bound().1 == ReceiveMode::Shared,
        cloned.bound().0 == cloned@ && cloned.bound().1 == ReceiveMode::CloneOnRead,
{
}

/// Inputs that are bound together are bound one by one, in their order.
pub proof fn law_inputs_are_bound_in_order<
    I0: BoundInput,
    I1: BoundInput,
    I2: BoundInput,
    I3: BoundInput,
    I4: BoundInput,
    I5: BoundInput,
    I6: BoundInput,
    I7: BoundInput,
>(a: I0, b: I1, c: I2, d: I3, e: I4, f: I5, g: I6, h: I7)
    ensures
        a.bound_inputs() == seq![a.bound()],
        (a, b).bound_inputs() == seq![a.bound(), b.bound()],
        (a, b, c).bound_inputs() == seq![a.bound(), b.bound(), c.bound()],
        (a, b, c, d).bound_inputs() == seq![a.bound(), b.bound(), c.bound(), d.bound()],
        (a, b, c, d, e).bound_inputs() == seq![a.bound(), b.bound(), c.bound(), d.bound(), e.bound()],
        (a, b, c, d, e, f).bound_inputs() == seq![a.bound(), b.bound(), c.bound(), d.bound(), e.bound(), f.bound()],
        (a, b, c, d, e, f, g).bound_inputs() == seq![
            a.bound(),
            b.bound(),
            c.bound(),
            d.bound(),
            e.bound(),
            f.bound(),
            g.bound(),
        ],
        (a, b, c, d, e, f, g, h).bound_inputs() == seq![
            a.bound(),
            b.bound(),
            c.bound(),
            d.bound(),
            e.bound(),
            f.bound(),
            g.bound(),
            h.bound(),
        ],
{
}

/// What a registered node recorded: its identity, its data edges in input order,
/// and its trigger rule.
#[derive(Debug, Clone)]
pub struct RegisteredNode {
    id: NodeId,
    edges: Vec<DataEdge>,
    trigger_rule: TriggerRule,
}

/// The contents of a [`RegisteredNode`].
#[verifier::ext_equal]
pub struct RegisteredNodeView {
    pub id: NodeId,
    pub edges: Seq<DataEdge>,
    pub trigger_rule: TriggerRule,
}

impl View for RegisteredNode {
    type V = RegisteredNodeView;

    closed spec fn view(&self) -> RegisteredNodeView {
        RegisteredNodeView { id: self.id, edges: self.edges@, trigger_rule: self.trigger_rule }
    }
}

impl RegisteredNode {
    /// The identity of this node.
    #[must_use]
    pub fn id(&self) -> (r: NodeId)
        ensures
            r == self@.id,
    {
        self.id
    }

    /// The declared data edges, in input order.
    #[must_use]
    pub fn data_edges(&self) -> (r: &[DataEdge])
        ensures
            r@ == self@.edges,
    {
        self.edges.as_slice()
    }

    /// This node's trigger rule.
    #[must_use]
    pub fn trigger_rule(&self) -> (r: TriggerRule)
        ensures
            r == self@.trigger_rule,
    {
        self.trigger_rule
    }

    /// Gives up the data edges, in input order.
    pub(crate) fn into_data_edges(self) -> (r: Vec<DataEdge>)
        ensures
            r@ == self@.edges,
    {
        self.edges
    }
}

/// State of a node that so far consumes no value.
#[derive(Debug)]
pub struct ConsumesNothing;

/// State of a node that has bound a data dependency.
#[derive(Debug)]
pub struct ConsumesData;

/// The registration of one node, in a state that says whether it consumes data. A
/// trigger rule can be set only while it does not.
#[derive(Debug)]
pub struct NodeBinding<S> {
    name: String,
    edges: Vec<DataEdge>,
    trigger_rule: TriggerRule,
    state: PhantomData<S>,
}

/// The contents of a [`NodeBinding`].
#[verifier::ext_equal]
pub struct NodeBindingView {
    pub name: Seq<char>,
    pub edges: Seq<DataEdge>,
    pub trigger_rule: TriggerRule,
}

impl<S> View for NodeBinding<S> {
    type V = NodeBindingView;

    closed spec fn view(&self) -> NodeBindingView {
        NodeBindingView { name: self.name@, edges: self.edges@, trigger_rule: self.trigger_rule }
    }
}

impl NodeBinding<ConsumesNothing> {
    /// Begins registering a node under `name` that so far consumes nothing.
    #[must_use]
    pub fn consuming_nothing(name: &str) -> (r: Self)
        ensures
            r@ == (NodeBindingView {
                name: name@,
                edges: Seq::empty(),
                trigger_rule: TriggerRule::AllSucceeded,
            }),
    {
        NodeBinding {
            name: String::from_str(name),
            edges: Vec::new(),
            trigger_rule: TriggerRule::AllSucceeded,
            state: PhantomData,
        }
    }

    /// Sets the trigger rule.
    #[must_use]
    pub fn trigger_rule(self, rule: TriggerRule) -> (r: Self)
        ensures
            r@ == (NodeBindingView { trigger_rule: rule, ..self@ }),
    {
        NodeBinding { name: self.name, edges: self.edges, trigger_rule: rule, state: PhantomData }
    }

    /// Binds this node's data dependencies. The value types of `deps` must be
    /// exactly the input types of the task. A node that consumes data fires when every
    /// upstream succeeded, whatever rule was set before.
    #[must_use]
    pub fn depends_on<T, D>(self, _task: &T, deps: D) -> (r: NodeBinding<ConsumesData>) where
        T: Task,
        D: Deps<Inputs = T::Input>,

        ensures
            r@ == (NodeBindingView {
                edges: edges_of(deps.bound_inputs()),
                trigger_rule: TriggerRule::AllSucceeded,
                ..self@
            }),
    {
        let inputs = deps.into_edges();
        let mut edges: Vec<DataEdge> = Vec::new();
        let mut i: usize = 0;
        while i < inputs.len()
            invariant
                i <= inputs.len(),
                edges@ == edges_of(inputs@).take(i as int),
            decreases inputs.len() - i,
        {
            let (upstream, mode) = inputs[i];
            edges.push(DataEdge { upstream, position: i, mode });
            i = i + 1;
            assert(edges@ =~= edges_of(inputs@).take(i as int));
        }
        assert(edges@ =~= edges_of(inputs@));
        NodeBinding { name: self.name, edges, trigger_rule: TriggerRule::AllSucceeded, state: PhantomData }
    }

    /// Finishes a node that consumes nothing and mints its output handle.
    #[must_use]
    pub fn finish<Out>(self) -> (r: Handle<Out>)
        ensures
            r@ == handle::node_id(self@.name),
    {
        Handle::for_registration(self.name.as_str())
    }
}

impl NodeBinding<ConsumesData> {
    /// Finishes a node that consumes data: its output handle, and what it recorded.
    #[must_use]
    pub fn finish<Out>(self) -> (r: (Handle<Out>, RegisteredNode))
        ensures
            r.0@ == handle::node_id(self@.name),
            r.1@ == (RegisteredNodeView {
                id: handle::node_id(self@.name),
                edges: self@.edges,
                trigger_rule: self@.trigger_rule,
            }),
    {
        let handle = Handle::for_registration(self.name.as_str());
        let node = RegisteredNode { id: handle.id(), edges: self.edges, trigger_rule: self.trigger_rule };
        (handle, node)
    }
}

} // verus!
