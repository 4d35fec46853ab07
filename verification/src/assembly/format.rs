//! How a pipeline is laid out as bytes: what its fingerprints are taken of.

use super::checks;
use super::encoding;
use crate::binding::{DataEdge, OrderingEdge, TriggerRule};
use crate::bytes;
use crate::flow::{NodeView, PipelineView, StableTypeNamesView};
use crate::handle;
use crate::names;
use crate::task::ExecutionClass;
use vstd::prelude::*;
use vstd::utf8::*;

verus! {

/// A field: its mark, the number of its bytes in eight bytes, and the bytes.
pub open spec fn field(mark: u8, content: Seq<u8>) -> Seq<u8> {
    seq![mark] + bytes::le(content.len(), 8) + content
}

/// Rules and classes have fixed codes, and so do flags.
pub proof fn law_codes_are_fixed(rule: TriggerRule, class: ExecutionClass, flag: bool)
    ensures
        rule == TriggerRule::AllSucceeded ==> encoding::trigger_rule_code(rule) == 0,
        rule == TriggerRule::AllTerminal ==> encoding::trigger_rule_code(rule) == 1,
        rule == TriggerRule::AnyFailed ==> encoding::trigger_rule_code(rule) == 2,
        class == ExecutionClass::AwaitBound ==> encoding::execution_class_code(class) == 0,
        class == ExecutionClass::Blocking ==> encoding::execution_class_code(class) == 1,
        class == ExecutionClass::Compute ==> encoding::execution_class_code(class) == 2,
        encoding::flag_code(flag) == (if flag {
            1u8
        } else {
            0u8
        }),
{
}

/// The shape of a node is its name, its stable names or the mark that it has none, and the
/// code of its rule; nothing of its policy or its group.
pub proof fn law_a_node_is_laid_out(node: NodeView, stable: StableTypeNamesView)
    ensures
        ({
            let name = field(0x6e, encode_utf8(node.name));
            let rule = field(0x72, seq![encoding::trigger_rule_code(node.declaration.trigger_rule)]);
            &&& node.declaration.stable_names is None ==> encoding::node_shape(node) == name + field(0x54, Seq::empty())
                + rule
            &&& node.declaration.stable_names == Some(stable) ==> encoding::node_shape(node) == name + (field(
                0x74,
                encode_utf8(stable.task),
            ) + encoding::inputs_encoding(stable.inputs) + field(0x49, Seq::empty()) + field(
                0x6f,
                encode_utf8(stable.output),
            )) + rule
        }),
{
}

/// The names of inputs are laid out one after the other.
pub proof fn law_input_names_are_laid_out(inputs: Seq<Seq<char>>, name: Seq<char>)
    ensures
        encoding::inputs_encoding(Seq::empty()).len() == 0,
        encoding::inputs_encoding(inputs.push(name)) == encoding::inputs_encoding(inputs) + field(0x69, encode_utf8(name)),
{
    assert(inputs.push(name).drop_last() =~= inputs);
}

/// The shape of a data edge is its consumer, its producer, its position in eight bytes, a
/// mark, and the name of the type that the producer declares, or the mark that it declares
/// none; not the mode in which the value is received.
pub proof fn law_a_data_edge_is_laid_out(
    p: PipelineView,
    consumer: Seq<char>,
    edges: Seq<DataEdge>,
    edge: DataEdge,
    u: int,
    stable: StableTypeNamesView,
)
    ensures
        ({
            let start = field(0x63, encode_utf8(consumer)) + field(
                0x70,
                encode_utf8(checks::producer_text(p, edge.upstream)),
            ) + bytes::le(edge.position as nat, 8) + seq![0x64u8];
            let shape = encoding::data_edge_shape(p, consumer, edge);
            &&& p.resolves_to(edge.upstream, u) && p.nodes[u].declaration.stable_names == Some(stable) ==> shape == start
                + field(0x79, encode_utf8(stable.output))
            &&& p.resolves_to(edge.upstream, u) && p.nodes[u].declaration.stable_names is None ==> shape == start + field(
                0x59,
                Seq::empty(),
            )
            &&& !p.has_node(edge.upstream) ==> shape == start + field(0x59, Seq::empty())
            &&& encoding::data_edges_of(p, consumer, edges.push(edge)) == encoding::data_edges_of(p, consumer, edges)
                + shape
            &&& encoding::data_edges_of(p, consumer, Seq::empty()).len() == 0
        }),
{
    if p.resolves_to(edge.upstream, u) {
        crate::flow::lemma_resolves_unique(p, edge.upstream, u);
    }
    assert(edges.push(edge).drop_last() =~= edges);
}

/// The nodes that a node is ordered after are laid out by name, each once, however often and
/// in whatever order they are declared: the consumer, the producer and a mark.
pub proof fn law_orderings_are_laid_out(p: PipelineView, edges: Seq<OrderingEdge>, consumer: Seq<char>, list: Seq<Seq<char>>, k: int)
    requires
        0 <= k < list.len(),
    ensures
        encoding::ordering_of(consumer, list, 0).len() == 0,
        encoding::ordering_of(consumer, list, k + 1) == encoding::ordering_of(consumer, list, k) + field(
            0x63,
            encode_utf8(consumer),
        ) + field(0x70, encode_utf8(list[k])) + seq![0x4fu8],
        names::sorted(list) && (forall|name: Seq<char>| #[trigger]
            list.contains(name) <==> exists|e: int|
                0 <= e < edges.len() && checks::producer_text(p, (#[trigger] edges[e]).upstream) == name)
            ==> encoding::ordered_after(p, edges) == list,
{
    let property = |name: Seq<char>| encoding::is_ordered_after(p, edges, name);
    if names::sorted(list) && (forall|name: Seq<char>| #[trigger]
        list.contains(name) <==> exists|e: int|
            0 <= e < edges.len() && checks::producer_text(p, (#[trigger] edges[e]).upstream) == name) {
        assert forall|n: Seq<char>| #[trigger] list.contains(n) <==> property(n) by {}
        names::lemma_listing_unique(list, property);
    }
}

/// The policy of a node is its name, how often it is retried, the backoff's base, cap and
/// factor, the time limit after a mark whether there is one, what it costs, the code of the
/// class that it runs in, and whether it is retained, durable and a teardown. Times count in
/// nanoseconds, of which the longest counts as the largest number.
pub proof fn law_a_policy_is_laid_out(node: NodeView)
    ensures
        ({
            let policy = node.declaration.policy;
            let class = match policy.class_override {
                Some(c) => c,
                None => node.declaration.declared_class,
            };
            encoding::node_policy_encoding(node) == field(0x6e, encode_utf8(node.name)) + bytes::le(
                policy.retries as nat,
                4,
            ) + bytes::le(encoding::encoded_nanos(policy.backoff.base), 16) + bytes::le(
                encoding::encoded_nanos(policy.backoff.cap),
                16,
            ) + bytes::le(policy.backoff.factor_bits as nat, 8) + encoding::timeout_encoding(policy) + bytes::le(
                policy.cost.working_memory as nat,
                8,
            ) + bytes::le(policy.cost.output_residency as nat, 8) + bytes::le(policy.cost.blocking_threads as nat, 4)
                + bytes::le(policy.cost.compute_threads as nat, 4) + seq![encoding::execution_class_code(class)] + seq![
                encoding::flag_code(policy.retained),
            ] + seq![encoding::flag_code(policy.durable)] + seq![encoding::flag_code(policy.teardown)]
        }),
        ({
            let policy = node.declaration.policy;
            &&& policy.timeout is None ==> encoding::timeout_encoding(policy) == seq![0u8] + bytes::le(0, 16)
            &&& policy.timeout matches Some(d) ==> encoding::timeout_encoding(policy) == seq![1u8] + bytes::le(
                encoding::encoded_nanos(d),
                16,
            )
            &&& policy.backoff.cap@ == 18_446_744_073_709_551_615_999_999_999 ==> encoding::encoded_nanos(
                policy.backoff.cap,
            ) == 0xffff_ffff_ffff_ffff_ffff_ffff_ffff_ffffu128
            &&& policy.backoff.cap@ != 18_446_744_073_709_551_615_999_999_999 ==> encoding::encoded_nanos(
                policy.backoff.cap,
            ) == policy.backoff.cap@
        }),
{
}

/// The structure is the shapes of all nodes, of all data edges and of all orderings, each in
/// name order; the policies are those of all nodes; and the whole is the three parts as
/// fields, the allowed variables last, in the order in which they were allowed.
pub proof fn law_a_pipeline_is_laid_out(p: PipelineView, k: int, list: Seq<Seq<char>>, name: Seq<char>)
    requires
        0 <= k < p.nodes.len(),
    ensures
        ({
            let n = p.nodes.len() as int;
            let node = p.nodes[k];
            let after = encoding::ordered_after(p, node.declaration.ordering);
            &&& encoding::structural_encoding(p) == encoding::node_shapes(p, n) + encoding::data_edge_shapes(p, n)
                + encoding::ordering_shapes(p, n)
            &&& encoding::node_shapes(p, k + 1) == encoding::node_shapes(p, k) + encoding::node_shape(node)
            &&& encoding::data_edge_shapes(p, k + 1) == encoding::data_edge_shapes(p, k) + encoding::data_edges_of(
                p,
                node.name,
                node.edges,
            )
            &&& encoding::ordering_shapes(p, k + 1) == encoding::ordering_shapes(p, k) + encoding::ordering_of(
                node.name,
                after,
                after.len() as int,
            )
            &&& encoding::policies_encoding(p, k + 1) == encoding::policies_encoding(p, k)
                + encoding::node_policy_encoding(node)
            &&& encoding::node_shapes(p, 0).len() == 0 && encoding::data_edge_shapes(p, 0).len() == 0
                && encoding::ordering_shapes(p, 0).len() == 0 && encoding::policies_encoding(p, 0).len() == 0
            &&& encoding::canonical_encoding(p) == field(0x53, encoding::structural_encoding(p)) + field(
                0x50,
                encoding::policies_encoding(p, n),
            ) + field(0x45, encoding::env_encoding(p.env_allowlist))
            &&& encoding::env_encoding(list.push(name)) == encoding::env_encoding(list) + field(0x76, encode_utf8(name))
            &&& encoding::env_encoding(Seq::empty()).len() == 0
        }),
{
    assert(list.push(name).drop_last() =~= list);
}

/// The structural fingerprint is the digest of the structure, the other that of the
/// policies, and the version of the way in which they are taken is one.
pub proof fn law_fingerprints_are_digests(p: PipelineView)
    ensures
        encoding::fingerprint(p).structural == handle::fnv1a(encoding::structural_encoding(p)),
        encoding::fingerprint(p).policy == handle::fnv1a(encoding::policies_encoding(p, p.nodes.len() as int)),
        encoding::fingerprint(p).algorithm_version == 1,
{
}

} // verus!
