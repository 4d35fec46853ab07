//! The canonical byte form of a pipeline, and the fingerprints taken of it.

use super::checks;
use super::{FingerprintSlot, NodePolicy, FINGERPRINT_ALGORITHM_VERSION};
use crate::binding::{DataEdge, OrderingEdge, TriggerRule};
use crate::bytes;
use crate::flow::{NodeView, Pipeline, PipelineNode, PipelineView, StableTypeNames, StableTypeNamesView};
use crate::handle;
use crate::names::{self, NameMap};
use crate::task::ExecutionClass;
use crate::text;
use crate::time::{Duration, MAX_NANOS};
use vstd::prelude::*;
use vstd::utf8::*;

verus! {

/// Marks a node name, `n`.
pub const TAG_NODE: u8 = 0x6e;

/// Marks a task name, `t`.
pub const TAG_TASK: u8 = 0x74;

/// Marks an input type name, `i`.
pub const TAG_INPUT: u8 = 0x69;

/// Marks the end of the input type names, `I`.
pub const TAG_INPUTS_END: u8 = 0x49;

/// Marks an output type name, `o`.
pub const TAG_OUTPUT: u8 = 0x6f;

/// Marks that no stable names are declared, `T`.
pub const TAG_UNNAMED: u8 = 0x54;

/// Marks a trigger rule, `r`.
pub const TAG_RULE: u8 = 0x72;

/// Marks the consumer of an edge, `c`.
pub const TAG_CONSUMER: u8 = 0x63;

/// Marks the producer of an edge, `p`.
pub const TAG_PRODUCER: u8 = 0x70;

/// Marks a data edge, `d`.
pub const KIND_DATA: u8 = 0x64;

/// Marks an ordering edge, `O`.
pub const KIND_ORDERING: u8 = 0x4f;

/// Marks the type an edge carries, `y`.
pub const TAG_CARRIED: u8 = 0x79;

/// Marks that the carried type has no stable name, `Y`.
pub const TAG_CARRIES_UNNAMED: u8 = 0x59;

/// Marks an environment variable name, `v`.
pub const TAG_VARIABLE: u8 = 0x76;

/// Marks the structural encoding, `S`.
pub const TAG_STRUCTURE: u8 = 0x53;

/// Marks the policy encoding, `P`.
pub const TAG_POLICY: u8 = 0x50;

/// Marks the environment allowlist, `E`.
pub const TAG_ENVIRONMENT: u8 = 0x45;

/// The code of a trigger rule.
pub open spec fn trigger_rule_code(rule: TriggerRule) -> u8 {
    match rule {
        TriggerRule::AllSucceeded => 0,
        TriggerRule::AllTerminal => 1,
        TriggerRule::AnyFailed => 2,
    }
}

/// The code of an execution class.
pub open spec fn execution_class_code(class: ExecutionClass) -> u8 {
    match class {
        ExecutionClass::AwaitBound => 0,
        ExecutionClass::Blocking => 1,
        ExecutionClass::Compute => 2,
    }
}

/// The code of a flag.
pub open spec fn flag_code(flag: bool) -> u8 {
    if flag {
        1
    } else {
        0
    }
}

/// A field that holds a text.
pub open spec fn framed_text(tag: u8, s: Seq<char>) -> Seq<u8> {
    bytes::framed(tag, encode_utf8(s))
}

/// The declared input names, one field each.
pub open spec fn inputs_encoding(inputs: Seq<Seq<char>>) -> Seq<u8>
    decreases inputs.len(),
{
    if inputs.len() == 0 {
        Seq::empty()
    } else {
        inputs_encoding(inputs.drop_last()) + framed_text(TAG_INPUT, inputs.last())
    }
}

/// The declared stable names, or the mark that there are none.
pub open spec fn stable_encoding(declared: Option<StableTypeNamesView>) -> Seq<u8> {
    match declared {
        Some(d) => framed_text(TAG_TASK, d.task) + inputs_encoding(d.inputs) + bytes::framed(TAG_INPUTS_END, Seq::empty())
            + framed_text(TAG_OUTPUT, d.output),
        None => bytes::framed(TAG_UNNAMED, Seq::empty()),
    }
}

/// The shape of one node: its name, its stable names and its trigger rule.
pub open spec fn node_shape(node: NodeView) -> Seq<u8> {
    framed_text(TAG_NODE, node.name) + stable_encoding(node.declaration.stable_names) + bytes::framed(
        TAG_RULE,
        seq![trigger_rule_code(node.declaration.trigger_rule)],
    )
}

/// The shapes of the first `k` nodes.
pub open spec fn node_shapes(p: PipelineView, k: int) -> Seq<u8>
    decreases k,
{
    if k <= 0 {
        Seq::empty()
    } else {
        node_shapes(p, k - 1) + node_shape(p.nodes[k - 1])
    }
}

/// The stable name of the type that an edge from the node carries: the producer's
/// declared output name, where there is one.
pub open spec fn carried_encoding(p: PipelineView, id: handle::NodeId) -> Seq<u8> {
    if p.has_node(id) && p.nodes[p.index_of(id)].declaration.stable_names is Some {
        framed_text(TAG_CARRIED, p.nodes[p.index_of(id)].declaration.stable_names->0.output)
    } else {
        bytes::framed(TAG_CARRIES_UNNAMED, Seq::empty())
    }
}

/// The shape of one data edge: consumer, producer, position, kind, carried type.
pub open spec fn data_edge_shape(p: PipelineView, consumer: Seq<char>, edge: DataEdge) -> Seq<u8> {
    framed_text(TAG_CONSUMER, consumer) + framed_text(TAG_PRODUCER, checks::producer_text(p, edge.upstream)) + bytes::le(
        edge.position as nat,
        8,
    ) + seq![KIND_DATA] + carried_encoding(p, edge.upstream)
}

/// The shapes of a consumer's data edges, by position.
pub open spec fn data_edges_of(p: PipelineView, consumer: Seq<char>, edges: Seq<DataEdge>) -> Seq<u8>
    decreases edges.len(),
{
    if edges.len() == 0 {
        Seq::empty()
    } else {
        data_edges_of(p, consumer, edges.drop_last()) + data_edge_shape(p, consumer, edges.last())
    }
}

/// The shapes of the data edges of the first `k` nodes, by consumer and position.
pub open spec fn data_edge_shapes(p: PipelineView, k: int) -> Seq<u8>
    decreases k,
{
    if k <= 0 {
        Seq::empty()
    } else {
        data_edge_shapes(p, k - 1) + data_edges_of(p, p.nodes[k - 1].name, p.nodes[k - 1].edges)
    }
}

/// Whether some ordering edge comes from the producer so named.
pub open spec fn is_ordered_after(p: PipelineView, edges: Seq<OrderingEdge>, name: Seq<char>) -> bool {
    exists|k: int| 0 <= k < edges.len() && checks::producer_text(p, (#[trigger] edges[k]).upstream) == name
}

/// The distinct nodes that ordering edges come from, in name order.
pub open spec fn ordered_after(p: PipelineView, edges: Seq<OrderingEdge>) -> Seq<Seq<char>> {
    names::listing(|name: Seq<char>| is_ordered_after(p, edges, name))
}

/// The shapes of a consumer's first `k` ordering edges: consumer, producer, kind.
pub open spec fn ordering_of(consumer: Seq<char>, producers: Seq<Seq<char>>, k: int) -> Seq<u8>
    decreases k,
{
    if k <= 0 {
        Seq::empty()
    } else {
        ordering_of(consumer, producers, k - 1) + framed_text(TAG_CONSUMER, consumer) + framed_text(TAG_PRODUCER, producers[k - 1])
            + seq![KIND_ORDERING]
    }
}

/// The shapes of the distinct ordering edges of the first `k` nodes, by consumer and
/// producer.
pub open spec fn ordering_shapes(p: PipelineView, k: int) -> Seq<u8>
    decreases k,
{
    if k <= 0 {
        Seq::empty()
    } else {
        let node = p.nodes[k - 1];
        let producers = ordered_after(p, node.declaration.ordering);
        ordering_shapes(p, k - 1) + ordering_of(node.name, producers, producers.len() as int)
    }
}

/// The structural encoding: nodes, data edges and ordering edges.
pub open spec fn structural_encoding(p: PipelineView) -> Seq<u8> {
    let n = p.nodes.len() as int;
    node_shapes(p, n) + data_edge_shapes(p, n) + ordering_shapes(p, n)
}

/// The nanoseconds of a span as they are encoded. The longest span, which stands for no
/// limit, is encoded as the largest number.
pub open spec fn encoded_nanos(d: Duration) -> nat {
    if d@ == MAX_NANOS {
        u128::MAX as nat
    } else {
        d@
    }
}

/// The nanoseconds of a span as they are encoded.
#[must_use]
pub fn duration_nanos(d: Duration) -> (r: u128)
    ensures
        r == encoded_nanos(d),
{
    let nanos: u128 = d.as_nanos();
    if nanos == MAX_NANOS {
        u128::MAX
    } else {
        nanos
    }
}

/// The encoding of a timeout: a tag, and the budget in nanoseconds or zero.
pub open spec fn timeout_encoding(policy: NodePolicy) -> Seq<u8> {
    match policy.timeout {
        Some(d) => seq![1u8] + bytes::le(encoded_nanos(d), 16),
        None => seq![0u8] + bytes::le(0, 16),
    }
}

/// The encoding of one node's effective policy.
pub open spec fn node_policy_encoding(node: NodeView) -> Seq<u8> {
    let policy = node.policy();
    framed_text(TAG_NODE, node.name) + bytes::le(policy.retries as nat, 4) + bytes::le(encoded_nanos(policy.backoff.base), 16)
        + bytes::le(encoded_nanos(policy.backoff.cap), 16) + bytes::le(policy.backoff.factor_bits as nat, 8) + timeout_encoding(policy)
        + bytes::le(policy.cost.working_memory as nat, 8) + bytes::le(policy.cost.output_residency as nat, 8)
        + bytes::le(policy.cost.blocking_threads as nat, 4) + bytes::le(policy.cost.compute_threads as nat, 4)
        + seq![execution_class_code(node.effective_class())] + seq![flag_code(policy.retained)] + seq![
        flag_code(policy.durable),
    ] + seq![flag_code(policy.teardown)]
}

/// The encodings of the first `k` nodes' effective policies.
pub open spec fn policies_encoding(p: PipelineView, k: int) -> Seq<u8>
    decreases k,
{
    if k <= 0 {
        Seq::empty()
    } else {
        policies_encoding(p, k - 1) + node_policy_encoding(p.nodes[k - 1])
    }
}

/// The policy encoding: every node's effective policy, in name order.
pub open spec fn policy_encoding(p: PipelineView) -> Seq<u8> {
    policies_encoding(p, p.nodes.len() as int)
}

/// The encoding of the environment allowlist, in declared order.
pub open spec fn env_encoding(list: Seq<Seq<char>>) -> Seq<u8>
    decreases list.len(),
{
    if list.len() == 0 {
        Seq::empty()
    } else {
        env_encoding(list.drop_last()) + framed_text(TAG_VARIABLE, list.last())
    }
}

/// The canonical byte form: structure, policy and environment allowlist, each framed.
pub open spec fn canonical_encoding(p: PipelineView) -> Seq<u8> {
    bytes::framed(TAG_STRUCTURE, structural_encoding(p)) + bytes::framed(TAG_POLICY, policy_encoding(p)) + bytes::framed(
        TAG_ENVIRONMENT,
        env_encoding(p.env_allowlist),
    )
}

/// The fingerprints of a pipeline.
pub open spec fn fingerprint(p: PipelineView) -> FingerprintSlot {
    FingerprintSlot {
        structural: handle::fnv1a(structural_encoding(p)),
        policy: handle::fnv1a(policy_encoding(p)),
        algorithm_version: FINGERPRINT_ALGORITHM_VERSION,
    }
}

fn push_text(out: &mut Vec<u8>, tag: u8, s: &str)
    ensures
        final(out)@ == old(out)@ + framed_text(tag, s@),
{
    bytes::push_framed(out, tag, s.as_bytes());
}

fn push_empty(out: &mut Vec<u8>, tag: u8)
    ensures
        final(out)@ == old(out)@ + bytes::framed(tag, Seq::empty()),
{
    let none: Vec<u8> = Vec::new();
    bytes::push_framed(out, tag, none.as_slice());
    assert(none@ =~= Seq::<u8>::empty());
}

fn push_stable_names(out: &mut Vec<u8>, declared: Option<&StableTypeNames>)
    ensures
        final(out)@ == old(out)@ + stable_encoding(
            match declared {
                Some(d) => Some(d@),
                None => None,
            },
        ),
{
    let ghost start = out@;
    match declared {
        Some(d) => {
            push_text(out, TAG_TASK, d.task.as_str());
            let ghost head = out@;
            let ghost inputs = d@.inputs;
            let mut i: usize = 0;
            assert(head + inputs_encoding(inputs.take(0)) =~= head);
            while i < d.inputs.len()
                invariant
                    i <= d.inputs.len(),
                    inputs == d@.inputs,
                    out@ == head + inputs_encoding(inputs.take(i as int)),
                decreases d.inputs.len() - i,
            {
                proof {
                    assert(inputs.take(i + 1).drop_last() =~= inputs.take(i as int));
                    assert(inputs.take(i + 1).last() == d.inputs@[i as int]@);
                }
                push_text(out, TAG_INPUT, d.inputs[i].as_str());
                i = i + 1;
                assert(out@ =~= head + inputs_encoding(inputs.take(i as int)));
            }
            assert(inputs.take(i as int) =~= inputs);
            push_empty(out, TAG_INPUTS_END);
            push_text(out, TAG_OUTPUT, d.output.as_str());
            assert(out@ =~= start + stable_encoding(Some(d@)));
        },
        None => {
            push_empty(out, TAG_UNNAMED);
        },
    }
}

fn rule_code(rule: TriggerRule) -> (r: u8)
    ensures
        r == trigger_rule_code(rule),
{
    match rule {
        TriggerRule::AllSucceeded => 0,
        TriggerRule::AllTerminal => 1,
        TriggerRule::AnyFailed => 2,
    }
}

fn class_code(class: ExecutionClass) -> (r: u8)
    ensures
        r == execution_class_code(class),
{
    match class {
        ExecutionClass::AwaitBound => 0,
        ExecutionClass::Blocking => 1,
        ExecutionClass::Compute => 2,
    }
}

fn push_flag(out: &mut Vec<u8>, flag: bool)
    ensures
        final(out)@ == old(out)@ + seq![flag_code(flag)],
{
    out.push(if flag { 1 } else { 0 });
    assert(out@ =~= old(out)@ + seq![flag_code(flag)]);
}

fn push_node_shapes(out: &mut Vec<u8>, pipeline: &Pipeline)
    ensures
        final(out)@ == old(out)@ + node_shapes(pipeline@, pipeline@.nodes.len() as int),
{
    let ghost p = pipeline@;
    let ghost start = out@;
    let mut i: usize = 0;
    assert(start + node_shapes(p, 0) =~= start);
    while i < pipeline.len()
        invariant
            i <= p.nodes.len(),
            p == pipeline@,
            out@ == start + node_shapes(p, i as int),
        decreases p.nodes.len() - i,
    {
        let node = pipeline.node_at(i);
        push_text(out, TAG_NODE, node.name());
        push_stable_names(out, node.stable_names());
        let code: Vec<u8> = vec![rule_code(node.trigger_rule())];
        bytes::push_framed(out, TAG_RULE, code.as_slice());
        i = i + 1;
        proof {
            assert(code@ =~= seq![trigger_rule_code(node@.declaration.trigger_rule)]);
            assert(out@ =~= start + node_shapes(p, i as int));
        }
    }
}

fn push_carried(out: &mut Vec<u8>, pipeline: &Pipeline, id: handle::NodeId)
    ensures
        final(out)@ == old(out)@ + carried_encoding(pipeline@, id),
{
    match pipeline.node(id) {
        Some(n) => match n.stable_names() {
            Some(d) => {
                push_text(out, TAG_CARRIED, d.output.as_str());
            },
            None => {
                push_empty(out, TAG_CARRIES_UNNAMED);
            },
        },
        None => {
            push_empty(out, TAG_CARRIES_UNNAMED);
        },
    }
}

fn push_data_edges(out: &mut Vec<u8>, pipeline: &Pipeline)
    ensures
        final(out)@ == old(out)@ + data_edge_shapes(pipeline@, pipeline@.nodes.len() as int),
{
    let ghost p = pipeline@;
    let ghost start = out@;
    let mut i: usize = 0;
    assert(start + data_edge_shapes(p, 0) =~= start);
    while i < pipeline.len()
        invariant
            i <= p.nodes.len(),
            p == pipeline@,
            out@ == start + data_edge_shapes(p, i as int),
        decreases p.nodes.len() - i,
    {
        let node = pipeline.node_at(i);
        let edges = node.data_edges();
        let ghost here = out@;
        let mut j: usize = 0;
        proof {
            assert(edges@.take(0) =~= Seq::<DataEdge>::empty());
            assert(here + data_edges_of(p, node@.name, edges@.take(0)) =~= here);
        }
        while j < edges.len()
            invariant
                j <= edges.len(),
                p == pipeline@,
                edges@ == node@.edges,
                out@ == here + data_edges_of(p, node@.name, edges@.take(j as int)),
            decreases edges.len() - j,
        {
            let edge = edges[j];
            proof {
                assert(edges@.take(j + 1).drop_last() =~= edges@.take(j as int));
                assert(edges@.take(j + 1).last() == edge);
            }
            let ghost before = out@;
            push_text(out, TAG_CONSUMER, node.name());
            let producer = checks::producer_name(pipeline, edge.upstream());
            push_text(out, TAG_PRODUCER, producer.as_str());
            bytes::push_le(out, edge.position() as u128, 8);
            out.push(KIND_DATA);
            push_carried(out, pipeline, edge.upstream());
            j = j + 1;
            proof {
                assert(out@ =~= before + data_edge_shape(p, node@.name, edge));
                assert(out@ =~= here + data_edges_of(p, node@.name, edges@.take(j as int)));
            }
        }
        assert(edges@.take(j as int) =~= edges@);
        i = i + 1;
        assert(out@ =~= start + data_edge_shapes(p, i as int));
    }
}

/// Gathers the distinct nodes that a node is ordered after.
fn gather_ordered_after(pipeline: &Pipeline, node: &PipelineNode) -> (r: NameMap<()>)
    ensures
        r.entries().map_values(|e: (Seq<char>, ())| e.0) == ordered_after(pipeline@, node@.declaration.ordering),
{
    let ghost p = pipeline@;
    let edges = node.ordering_edges();
    let mut found: NameMap<()> = NameMap::new();
    let mut j: usize = 0;
    while j < edges.len()
        invariant
            j <= edges.len(),
            p == pipeline@,
            found.wf(),
            forall|name: Seq<char>| #[trigger]
                found@.dom().contains(name) <==> exists|k: int|
                    0 <= k < j && checks::producer_text(p, (#[trigger] edges@[k]).upstream) == name,
        decreases edges.len() - j,
    {
        let name = checks::producer_name(pipeline, edges[j].upstream());
        let ghost added = name@;
        let ghost before = found@;
        found.insert(name, ());
        proof {
            assert forall|name: Seq<char>| #[trigger] found@.dom().contains(name) <==> exists|k: int|
                0 <= k < j + 1 && checks::producer_text(p, (#[trigger] edges@[k]).upstream) == name by {
                if name == added {
                    assert(checks::producer_text(p, edges@[j as int].upstream) == name);
                } else {
                    assert(found@.dom().contains(name) == before.dom().contains(name));
                }
            }
        }
        j = j + 1;
    }
    proof {
        let es = found.entries();
        let list = es.map_values(|e: (Seq<char>, ())| e.0);
        let property = |name: Seq<char>| is_ordered_after(p, edges@, name);
        assert forall|n: Seq<char>| #[trigger] list.contains(n) <==> property(n) by {
            if list.contains(n) {
                let k = choose|k: int| 0 <= k < list.len() && list[k] == n;
                assert(es[k].0 == n);
                assert(found@.dom().contains(n));
            }
            if property(n) {
                assert(found@.dom().contains(n));
                let k = names::position_of(es, n);
                assert(list[k] == n);
            }
        }
        assert(names::sorted(list)) by {
            assert forall|a: int, b: int| 0 <= a < b < list.len() implies text::name_lt(
                #[trigger] list[a],
                #[trigger] list[b],
            ) by {
                assert(text::name_lt(es[a].0, es[b].0));
            }
        }
        names::lemma_listing_unique(list, property);
    }
    found
}

fn push_ordering(out: &mut Vec<u8>, pipeline: &Pipeline)
    ensures
        final(out)@ == old(out)@ + ordering_shapes(pipeline@, pipeline@.nodes.len() as int),
{
    let ghost p = pipeline@;
    let ghost start = out@;
    let mut i: usize = 0;
    assert(start + ordering_shapes(p, 0) =~= start);
    while i < pipeline.len()
        invariant
            i <= p.nodes.len(),
            p == pipeline@,
            out@ == start + ordering_shapes(p, i as int),
        decreases p.nodes.len() - i,
    {
        let node = pipeline.node_at(i);
        let found = gather_ordered_after(pipeline, node);
        let ghost producers = ordered_after(p, node@.declaration.ordering);
        let ghost here = out@;
        let mut j: usize = 0;
        assert(here + ordering_of(node@.name, producers, 0) =~= here);
        while j < found.len()
            invariant
                j <= found.entries().len(),
                producers == found.entries().map_values(|e: (Seq<char>, ())| e.0),
                out@ == here + ordering_of(node@.name, producers, j as int),
            decreases found.entries().len() - j,
        {
            let ghost before = out@;
            push_text(out, TAG_CONSUMER, node.name());
            push_text(out, TAG_PRODUCER, found.name_at(j));
            out.push(KIND_ORDERING);
            j = j + 1;
            proof {
                assert(producers[j - 1] == found.entries()[j - 1].0);
                assert(out@ =~= here + ordering_of(node@.name, producers, j as int));
            }
        }
        i = i + 1;
        assert(out@ =~= start + ordering_shapes(p, i as int));
    }
}

/// Encodes the structure of a pipeline.
pub(crate) fn encode_structure(pipeline: &Pipeline) -> (r: Vec<u8>)
    ensures
        r@ == structural_encoding(pipeline@),
{
    let mut out: Vec<u8> = Vec::new();
    push_node_shapes(&mut out, pipeline);
    push_data_edges(&mut out, pipeline);
    push_ordering(&mut out, pipeline);
    assert(out@ =~= structural_encoding(pipeline@));
    out
}

fn push_timeout(out: &mut Vec<u8>, policy: &NodePolicy)
    ensures
        final(out)@ == old(out)@ + timeout_encoding(*policy),
{
    match policy.timeout_budget() {
        None => {
            out.push(0);
            bytes::push_le(out, 0, 16);
        },
        Some(d) => {
            out.push(1);
            bytes::push_le(out, duration_nanos(d), 16);
        },
    }
    assert(out@ =~= old(out)@ + timeout_encoding(*policy));
}

fn push_code(out: &mut Vec<u8>, code: u8)
    ensures
        final(out)@ == old(out)@ + seq![code],
{
    out.push(code);
    assert(out@ =~= old(out)@ + seq![code]);
}

fn encode_policy(node: &PipelineNode) -> (r: Vec<u8>)
    ensures
        r@ == node_policy_encoding(node@),
{
    let policy = node.policy();
    let mut out: Vec<u8> = Vec::new();
    push_text(&mut out, TAG_NODE, node.name());
    assert(out@ =~= framed_text(TAG_NODE, node@.name));
    bytes::push_le(&mut out, policy.retry_count() as u128, 4);
    let backoff = policy.backoff_shape();
    bytes::push_le(&mut out, duration_nanos(backoff.base()), 16);
    bytes::push_le(&mut out, duration_nanos(backoff.cap()), 16);
    bytes::push_le(&mut out, backoff.factor_bits() as u128, 8);
    push_timeout(&mut out, &policy);
    let cost = policy.cost();
    bytes::push_le(&mut out, cost.working_memory() as u128, 8);
    bytes::push_le(&mut out, cost.output_residency() as u128, 8);
    bytes::push_le(&mut out, cost.blocking_threads() as u128, 4);
    bytes::push_le(&mut out, cost.compute_threads() as u128, 4);
    push_code(&mut out, class_code(node.effective_class()));
    push_flag(&mut out, policy.is_retained());
    push_flag(&mut out, policy.is_durable());
    push_flag(&mut out, policy.is_teardown());
    out
}

/// Encodes the effective policies of a pipeline.
pub(crate) fn encode_policies(pipeline: &Pipeline) -> (r: Vec<u8>)
    ensures
        r@ == policy_encoding(pipeline@),
{
    let ghost p = pipeline@;
    let mut out: Vec<u8> = Vec::new();
    let mut i: usize = 0;
    assert(out@ =~= policies_encoding(p, 0));
    while i < pipeline.len()
        invariant
            i <= p.nodes.len(),
            p == pipeline@,
            out@ == policies_encoding(p, i as int),
        decreases p.nodes.len() - i,
    {
        let one = encode_policy(pipeline.node_at(i));
        bytes::push_bytes(&mut out, one.as_slice());
        i = i + 1;
    }
    out
}

fn encode_env(pipeline: &Pipeline) -> (r: Vec<u8>)
    ensures
        r@ == env_encoding(pipeline@.env_allowlist),
{
    let ghost list = pipeline@.env_allowlist;
    let given = pipeline.env_allowlist();
    let mut out: Vec<u8> = Vec::new();
    let mut i: usize = 0;
    assert(out@ =~= env_encoding(list.take(0)));
    while i < given.len()
        invariant
            i <= given.len(),
            list == given@.map_values(|s: String| s@),
            out@ == env_encoding(list.take(i as int)),
        decreases given.len() - i,
    {
        proof {
            assert(list.take(i + 1).drop_last() =~= list.take(i as int));
            assert(list.take(i + 1).last() == given@[i as int]@);
        }
        push_text(&mut out, TAG_VARIABLE, given[i].as_str());
        i = i + 1;
    }
    assert(list.take(i as int) =~= list);
    out
}

/// Encodes a whole pipeline.
pub(crate) fn encode_canonical(pipeline: &Pipeline) -> (r: Vec<u8>)
    ensures
        r@ == canonical_encoding(pipeline@),
{
    let mut out: Vec<u8> = Vec::new();
    bytes::push_framed(&mut out, TAG_STRUCTURE, encode_structure(pipeline).as_slice());
    bytes::push_framed(&mut out, TAG_POLICY, encode_policies(pipeline).as_slice());
    bytes::push_framed(&mut out, TAG_ENVIRONMENT, encode_env(pipeline).as_slice());
    assert(out@ =~= canonical_encoding(pipeline@));
    out
}

/// Takes the fingerprints of a pipeline.
pub(crate) fn compute_fingerprint(pipeline: &Pipeline) -> (r: FingerprintSlot)
    ensures
        r == fingerprint(pipeline@),
{
    FingerprintSlot {
        structural: handle::fnv1a_digest(encode_structure(pipeline).as_slice()),
        policy: handle::fnv1a_digest(encode_policies(pipeline).as_slice()),
        algorithm_version: FINGERPRINT_ALGORITHM_VERSION,
    }
}

} // verus!
