//! Registering a single node without a flow.

use super::{Deps, NodeBinding, RegisteredNode, RegisteredNodeView, TriggerRule};
use crate::binding;
use crate::handle::{self, Handle};
use crate::task::Task;
use vstd::prelude::*;

verus! {

/// Registers a node that consumes nothing and mints its output handle.
#[must_use]
pub fn source<T: Task<Input = ()>>(name: &str, _task: &T) -> (r: Handle<T::Output>)
    ensures
        r@ == handle::node_id(name@),
{
    NodeBinding::consuming_nothing(name).finish::<T::Output>()
}

/// Registers a node that consumes `deps`: its output handle, and what it recorded.
#[must_use]
pub fn register<T, D>(name: &str, task: &T, deps: D) -> (r: (Handle<T::Output>, RegisteredNode)) where
    T: Task,
    D: Deps<Inputs = T::Input>,

    ensures
        r.0@ == handle::node_id(name@),
        r.1@ == (RegisteredNodeView {
            id: handle::node_id(name@),
            edges: binding::edges_of(deps.bound_inputs()),
            trigger_rule: TriggerRule::AllSucceeded,
        }),
{
    NodeBinding::consuming_nothing(name).depends_on::<T, D>(task, deps).finish::<T::Output>()
}

} // verus!
