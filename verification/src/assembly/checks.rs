//! The checks that need the whole pipeline.

use super::problem::{self, Problem, ProblemKind, ProblemView, Warning};
use crate::assembly::graph;
use crate::assembly::{CostVector, DurableWitness};
use crate::binding::{DataEdge, ReceiveMode};
use crate::flow::{NodeView, Pipeline, PipelineNode, PipelineView};
use crate::handle::NodeId;
use crate::names::{self, NameMap};
use crate::task::ExecutionClass;
use crate::text;
use vstd::prelude::*;

verus! {

/// A problem without a count, with the label of its kind before the message.
pub open spec fn labelled(kind: ProblemKind, rest: Seq<char>) -> ProblemView {
    ProblemView { kind, message: kind.label_spec() + rest, declaration_count: None }
}

/// The problem of a pipeline without nodes.
pub open spec fn empty_problems(p: PipelineView) -> Seq<ProblemView> {
    if p.nodes.len() == 0 {
        seq![labelled(ProblemKind::EmptyPipeline, ": the pipeline registered no nodes"@)]
    } else {
        Seq::empty()
    }
}

/// The problem of a name that several registrations used.
pub open spec fn duplicate_problem(node: NodeView) -> ProblemView {
    ProblemView {
        kind: ProblemKind::DuplicateNodeName,
        message: ProblemKind::DuplicateNodeName.label_spec() + ": node name `"@ + node.name + "` was registered by "@
            + text::decimal(node.registration_count as nat)
            + " declarations; both declarations must use distinct names"@,
        declaration_count: Some(node.registration_count),
    }
}

/// The problems of names that several registrations used, among the first `k` nodes.
pub open spec fn duplicate_problems(p: PipelineView, k: int) -> Seq<ProblemView>
    decreases k,
{
    if k <= 0 {
        Seq::empty()
    } else {
        let rest = duplicate_problems(p, k - 1);
        if p.nodes[k - 1].registration_count > 1 {
            rest.push(duplicate_problem(p.nodes[k - 1]))
        } else {
            rest
        }
    }
}

/// Whether a class override fits the declared class: await-bound work stays
/// await-bound, and synchronous work stays synchronous.
pub open spec fn override_fits(declared: ExecutionClass, target: ExecutionClass) -> bool {
    (declared == ExecutionClass::AwaitBound) == (target == ExecutionClass::AwaitBound)
}

/// The problem of a class override that does not fit.
pub open spec fn override_problem(node: NodeView, target: ExecutionClass) -> ProblemView {
    ProblemView {
        kind: ProblemKind::InvalidExecutionClassOverride,
        message: ProblemKind::InvalidExecutionClassOverride.label_spec() + ": node `"@ + node.name + "` declares "@
            + node.declaration.declared_class.label_spec() + " work but overrides its execution class to "@
            + target.label_spec() + "; await-bound work cannot be moved to a synchronous class"@,
        declaration_count: None,
    }
}

/// The problem of a durable node without the contract.
pub open spec fn durable_problem(node: NodeView) -> ProblemView {
    ProblemView {
        kind: ProblemKind::DurableWithoutContract,
        message: ProblemKind::DurableWithoutContract.label_spec() + ": node `"@ + node.name
            + "` is marked durable, but its output type does not implement the durable-output contract; either implement the contract on the output type or drop durability on `"@
            + node.name + "`"@,
        declaration_count: None,
    }
}

/// The problem of a teardown that declares a cost.
pub open spec fn teardown_problem(node: NodeView) -> ProblemView {
    ProblemView {
        kind: ProblemKind::NonzeroTeardownCost,
        message: ProblemKind::NonzeroTeardownCost.label_spec() + ": teardown node `"@ + node.name
            + "` declares a nonzero cost; a teardown bypasses admission and its declared cost must be zero in every pool"@,
        declaration_count: None,
    }
}

/// What is wrong with a node's class override.
pub open spec fn override_problems(node: NodeView) -> Seq<ProblemView> {
    match node.policy().class_override {
        Some(target) => if override_fits(node.declaration.declared_class, target) {
            Seq::empty()
        } else {
            seq![override_problem(node, target)]
        },
        None => Seq::empty(),
    }
}

/// What is wrong with a node's durability.
pub open spec fn durable_problems(node: NodeView) -> Seq<ProblemView> {
    if node.policy().durable && node.declaration.durable_witness != DurableWitness::Present {
        seq![durable_problem(node)]
    } else {
        Seq::empty()
    }
}

/// What is wrong with a teardown's cost.
pub open spec fn teardown_problems(node: NodeView) -> Seq<ProblemView> {
    if node.policy().teardown && node.policy().cost != CostVector::zero() {
        seq![teardown_problem(node)]
    } else {
        Seq::empty()
    }
}

/// What is wrong with the policies of the first `k` nodes.
pub open spec fn policy_problems(p: PipelineView, k: int) -> Seq<ProblemView>
    decreases k,
{
    if k <= 0 {
        Seq::empty()
    } else {
        policy_problems(p, k - 1) + override_problems(p.nodes[k - 1]) + durable_problems(p.nodes[k - 1])
            + teardown_problems(p.nodes[k - 1])
    }
}

/// The name of the node with an identity, or the identity itself where no node has
/// it.
pub open spec fn producer_text(p: PipelineView, id: NodeId) -> Seq<char> {
    if p.has_node(id) {
        p.nodes[p.index_of(id)].name
    } else {
        "NodeId("@ + text::decimal(id@ as nat) + ")"@
    }
}

/// Whether some data edge takes from the producer so named.
pub open spec fn is_producer(p: PipelineView, name: Seq<char>) -> bool {
    exists|i: int, k: int|
        #![trigger p.nodes[i].edges[k]]
        0 <= i < p.nodes.len() && 0 <= k < p.nodes[i].edges.len() && producer_text(p, p.nodes[i].edges[k].upstream)
            == name
}

/// The producers that data edges take from, in name order.
pub open spec fn producers(p: PipelineView) -> Seq<Seq<char>> {
    names::listing(|name: Seq<char>| is_producer(p, name))
}

/// How many of the edges take from the producer.
pub open spec fn demands_in(p: PipelineView, edges: Seq<DataEdge>, producer: Seq<char>) -> nat
    decreases edges.len(),
{
    if edges.len() == 0 {
        0
    } else {
        demands_in(p, edges.drop_last(), producer) + (if producer_text(p, edges.last().upstream) == producer {
            1nat
        } else {
            0nat
        })
    }
}

/// How many data edges of the first `k` nodes take from the producer.
pub open spec fn demands_among(p: PipelineView, k: int, producer: Seq<char>) -> nat
    decreases k,
{
    if k <= 0 {
        0
    } else {
        demands_among(p, k - 1, producer) + demands_in(p, p.nodes[k - 1].edges, producer)
    }
}

/// How many data edges take from the producer.
pub open spec fn demands_on(p: PipelineView, producer: Seq<char>) -> nat {
    demands_among(p, p.nodes.len() as int, producer)
}

/// A list of names with one more name, after a comma where it is not the first.
pub open spec fn listed(list: Seq<char>, empty: bool, name: Seq<char>) -> Seq<char> {
    if empty {
        name
    } else {
        list + ", "@ + name
    }
}

/// The list of consumers so far, and the same with a node named once more for each
/// of the edges that takes from the producer.
pub open spec fn consumers_in(
    p: PipelineView,
    before: (Seq<char>, bool),
    name: Seq<char>,
    edges: Seq<DataEdge>,
    producer: Seq<char>,
) -> (Seq<char>, bool)
    decreases edges.len(),
{
    if edges.len() == 0 {
        before
    } else {
        let rest = consumers_in(p, before, name, edges.drop_last(), producer);
        if producer_text(p, edges.last().upstream) == producer {
            (listed(rest.0, rest.1, name), false)
        } else {
            rest
        }
    }
}

/// The consumers among the first `k` nodes, each named once for each of its edges
/// that takes from the producer, and whether there are none.
pub open spec fn consumers_among(p: PipelineView, k: int, producer: Seq<char>) -> (Seq<char>, bool)
    decreases k,
{
    if k <= 0 {
        (Seq::empty(), true)
    } else {
        consumers_in(p, consumers_among(p, k - 1, producer), p.nodes[k - 1].name, p.nodes[k - 1].edges, producer)
    }
}

/// The consumers of a producer, in name order and separated by commas.
pub open spec fn consumers_of(p: PipelineView, producer: Seq<char>) -> Seq<char> {
    consumers_among(p, p.nodes.len() as int, producer).0
}

/// The problem of an owned demand on a value with several consumers.
pub open spec fn owned_problem(p: PipelineView, consumer: Seq<char>, producer: Seq<char>) -> ProblemView {
    ProblemView {
        kind: ProblemKind::OwnershipModeConflict,
        message: ProblemKind::OwnershipModeConflict.label_spec() + ": consumer `"@ + consumer
            + "` demands ownership of the value produced by `"@ + producer + "`, but that value has "@
            + text::decimal(demands_on(p, producer)) + " consumers ("@ + consumers_of(p, producer)
            + "); a multiply-consumed value must be received shared, or the edge must opt into clone-on-read"@,
        declaration_count: None,
    }
}

/// The problems of a consumer's owned demands on one producer.
pub open spec fn owned_in(p: PipelineView, consumer: Seq<char>, edges: Seq<DataEdge>, producer: Seq<char>) -> Seq<
    ProblemView,
>
    decreases edges.len(),
{
    if edges.len() == 0 {
        Seq::empty()
    } else {
        let rest = owned_in(p, consumer, edges.drop_last(), producer);
        if edges.last().mode == ReceiveMode::Owned && producer_text(p, edges.last().upstream) == producer {
            rest.push(owned_problem(p, consumer, producer))
        } else {
            rest
        }
    }
}

/// The problems of owned demands of the first `k` nodes on one producer.
pub open spec fn owned_among(p: PipelineView, k: int, producer: Seq<char>) -> Seq<ProblemView>
    decreases k,
{
    if k <= 0 {
        Seq::empty()
    } else {
        owned_among(p, k - 1, producer) + owned_in(p, p.nodes[k - 1].name, p.nodes[k - 1].edges, producer)
    }
}

/// The problems of owned demands on the first `k` producers that have several
/// consumers.
pub open spec fn owned_problems(p: PipelineView, k: int) -> Seq<ProblemView>
    decreases k,
{
    if k <= 0 {
        Seq::empty()
    } else {
        let rest = owned_problems(p, k - 1);
        let producer = producers(p)[k - 1];
        if demands_on(p, producer) > 1 {
            rest + owned_among(p, p.nodes.len() as int, producer)
        } else {
            rest
        }
    }
}

/// The problem of an owned input of a node that retries.
pub open spec fn retry_problem(p: PipelineView, node: NodeView, producer: Seq<char>) -> ProblemView {
    ProblemView {
        kind: ProblemKind::OwnershipModeConflict,
        message: ProblemKind::OwnershipModeConflict.label_spec() + ": node `"@ + node.name + "` has "@ + text::decimal(
            node.policy().retries as nat,
        ) + " retries but takes an owned input edge from `"@ + producer
            + "`; an owned-input edge into a retrying node must opt into clone-on-read (each attempt gets a fresh clone), or the node must drop its retries"@,
        declaration_count: None,
    }
}

/// The problems of a node's owned inputs, where it retries.
pub open spec fn retry_in(p: PipelineView, node: NodeView, edges: Seq<DataEdge>) -> Seq<ProblemView>
    decreases edges.len(),
{
    if edges.len() == 0 {
        Seq::empty()
    } else {
        let rest = retry_in(p, node, edges.drop_last());
        if edges.last().mode == ReceiveMode::Owned {
            rest.push(retry_problem(p, node, producer_text(p, edges.last().upstream)))
        } else {
            rest
        }
    }
}

/// The problems of owned inputs of those of the first `k` nodes that retry.
pub open spec fn retry_problems(p: PipelineView, k: int) -> Seq<ProblemView>
    decreases k,
{
    if k <= 0 {
        Seq::empty()
    } else {
        let rest = retry_problems(p, k - 1);
        if p.nodes[k - 1].policy().retries == 0 {
            rest
        } else {
            rest + retry_in(p, p.nodes[k - 1], p.nodes[k - 1].edges)
        }
    }
}

/// The problems of receive modes.
pub open spec fn ownership_problems(p: PipelineView) -> Seq<ProblemView> {
    owned_problems(p, producers(p).len() as int) + retry_problems(p, p.nodes.len() as int)
}

/// Every problem of a pipeline, in the order in which they are reported.
pub open spec fn problems(p: PipelineView) -> Seq<ProblemView> {
    let n = p.nodes.len() as int;
    empty_problems(p) + duplicate_problems(p, n) + policy_problems(p, n) + ownership_problems(p)
}

fn push_problem(list: &mut Vec<Problem>, item: Problem)
    ensures
        problem::problem_views(final(list)@) == problem::problem_views(old(list)@).push(item@),
{
    list.push(item);
    assert(problem::problem_views(list@) =~= problem::problem_views(old(list)@).push(item@));
}

/// Reports a pipeline without nodes.
pub(crate) fn check_empty(pipeline: &Pipeline, list: &mut Vec<Problem>)
    ensures
        problem::problem_views(final(list)@) == problem::problem_views(old(list)@) + empty_problems(pipeline@),
{
    if pipeline.is_empty() {
        let mut message = String::from_str(ProblemKind::EmptyPipeline.label());
        message.append(": the pipeline registered no nodes");
        push_problem(list, Problem::new(ProblemKind::EmptyPipeline, message));
    }
    assert(problem::problem_views(list@) =~= problem::problem_views(old(list)@) + empty_problems(pipeline@));
}

/// Reports names that several registrations used.
pub(crate) fn check_duplicates(pipeline: &Pipeline, list: &mut Vec<Problem>)
    ensures
        problem::problem_views(final(list)@) == problem::problem_views(old(list)@) + duplicate_problems(
            pipeline@,
            pipeline@.nodes.len() as int,
        ),
{
    let ghost start = problem::problem_views(list@);
    let mut i: usize = 0;
    assert(start =~= start + duplicate_problems(pipeline@, 0));
    while i < pipeline.len()
        invariant
            i <= pipeline@.nodes.len(),
            problem::problem_views(list@) == start + duplicate_problems(pipeline@, i as int),
        decreases pipeline@.nodes.len() - i,
    {
        let node = pipeline.node_at(i);
        let count: usize = node.registration_count();
        if count > 1 {
            let mut message = String::from_str(ProblemKind::DuplicateNodeName.label());
            message.append(": node name `");
            message.append(node.name());
            message.append("` was registered by ");
            message.append(text::decimal_text(count as u128).as_str());
            message.append(" declarations; both declarations must use distinct names");
            push_problem(list, Problem::counted(ProblemKind::DuplicateNodeName, message, count));
        }
        i = i + 1;
        assert(problem::problem_views(list@) =~= start + duplicate_problems(pipeline@, i as int));
    }
}

/// Reports a class override that does not fit the declared class.
pub(crate) fn check_execution_class_override(node: &PipelineNode, list: &mut Vec<Problem>)
    ensures
        problem::problem_views(final(list)@) == problem::problem_views(old(list)@) + override_problems(node@),
{
    assert(problem::problem_views(old(list)@) + Seq::empty() =~= problem::problem_views(old(list)@));
    let target: ExecutionClass = match node.policy().class_override() {
        Some(t) => t,
        None => {
            return;
        },
    };
    let declared = node.declared_class();
    let ok = match declared {
        ExecutionClass::AwaitBound => target == ExecutionClass::AwaitBound,
        ExecutionClass::Blocking | ExecutionClass::Compute => target == ExecutionClass::Blocking || target
            == ExecutionClass::Compute,
    };
    if !ok {
        let mut message = String::from_str(ProblemKind::InvalidExecutionClassOverride.label());
        message.append(": node `");
        message.append(node.name());
        message.append("` declares ");
        message.append(declared.label());
        message.append(" work but overrides its execution class to ");
        message.append(target.label());
        message.append("; await-bound work cannot be moved to a synchronous class");
        push_problem(list, Problem::new(ProblemKind::InvalidExecutionClassOverride, message));
    }
    assert(problem::problem_views(list@) =~= problem::problem_views(old(list)@) + override_problems(node@));
}

/// Reports a durable node without the contract.
pub(crate) fn check_durable_contract(node: &PipelineNode, list: &mut Vec<Problem>)
    ensures
        problem::problem_views(final(list)@) == problem::problem_views(old(list)@) + durable_problems(node@),
{
    if node.policy().is_durable() && !node.output_is_durable() {
        let mut message = String::from_str(ProblemKind::DurableWithoutContract.label());
        message.append(": node `");
        message.append(node.name());
        message.append(
            "` is marked durable, but its output type does not implement the durable-output contract; either implement the contract on the output type or drop durability on `",
        );
        message.append(node.name());
        message.append("`");
        push_problem(list, Problem::new(ProblemKind::DurableWithoutContract, message));
    }
    assert(problem::problem_views(list@) =~= problem::problem_views(old(list)@) + durable_problems(node@));
}

/// Reports a teardown that declares a cost.
pub(crate) fn check_teardown_cost(node: &PipelineNode, list: &mut Vec<Problem>)
    ensures
        problem::problem_views(final(list)@) == problem::problem_views(old(list)@) + teardown_problems(node@),
{
    if node.policy().is_teardown() && !node.policy().cost().is_zero() {
        let mut message = String::from_str(ProblemKind::NonzeroTeardownCost.label());
        message.append(": teardown node `");
        message.append(node.name());
        message.append(
            "` declares a nonzero cost; a teardown bypasses admission and its declared cost must be zero in every pool",
        );
        push_problem(list, Problem::new(ProblemKind::NonzeroTeardownCost, message));
    }
    assert(problem::problem_views(list@) =~= problem::problem_views(old(list)@) + teardown_problems(node@));
}

/// Reports what is wrong with policies, node by node.
pub(crate) fn check_policies(pipeline: &Pipeline, list: &mut Vec<Problem>)
    ensures
        problem::problem_views(final(list)@) == problem::problem_views(old(list)@) + policy_problems(
            pipeline@,
            pipeline@.nodes.len() as int,
        ),
{
    let ghost start = problem::problem_views(list@);
    let mut i: usize = 0;
    assert(start =~= start + policy_problems(pipeline@, 0));
    while i < pipeline.len()
        invariant
            i <= pipeline@.nodes.len(),
            problem::problem_views(list@) == start + policy_problems(pipeline@, i as int),
        decreases pipeline@.nodes.len() - i,
    {
        let node = pipeline.node_at(i);
        check_execution_class_override(node, list);
        check_durable_contract(node, list);
        check_teardown_cost(node, list);
        i = i + 1;
        assert(problem::problem_views(list@) =~= start + policy_problems(pipeline@, i as int));
    }
}

/// Names the node with an identity, or the identity itself where no node has it.
pub(crate) fn producer_name(pipeline: &Pipeline, id: NodeId) -> (r: String)
    ensures
        r@ == producer_text(pipeline@, id),
{
    match pipeline.node(id) {
        Some(n) => String::from_str(n.name()),
        None => {
            let mut out = String::from_str("NodeId(");
            out.append(text::decimal_text(id.sort_key() as u128).as_str());
            out.append(")");
            out
        },
    }
}

/// Gathers the producers that data edges take from.
fn gather_producers(pipeline: &Pipeline) -> (r: NameMap<()>)
    ensures
        r.wf(),
        r.entries().map_values(|e: (Seq<char>, ())| e.0) == producers(pipeline@),
{
    let ghost p = pipeline@;
    let mut found: NameMap<()> = NameMap::new();
    let mut i: usize = 0;
    while i < pipeline.len()
        invariant
            i <= p.nodes.len(),
            p == pipeline@,
            found.wf(),
            forall|name: Seq<char>| #[trigger]
                found@.dom().contains(name) <==> exists|a: int, k: int|
                    #![trigger p.nodes[a].edges[k]]
                    0 <= a < i && 0 <= k < p.nodes[a].edges.len() && producer_text(p, p.nodes[a].edges[k].upstream)
                        == name,
        decreases p.nodes.len() - i,
    {
        let edges = pipeline.node_at(i).data_edges();
        let mut j: usize = 0;
        while j < edges.len()
            invariant
                i < p.nodes.len(),
                j <= edges.len(),
                p == pipeline@,
                edges@ == p.nodes[i as int].edges,
                found.wf(),
                forall|name: Seq<char>| #[trigger]
                    found@.dom().contains(name) <==> exists|a: int, k: int|
                        #![trigger p.nodes[a].edges[k]]
                        (0 <= a < i || (a == i && k < j)) && 0 <= k < p.nodes[a].edges.len() && producer_text(
                            p,
                            p.nodes[a].edges[k].upstream,
                        ) == name,
            decreases edges.len() - j,
        {
            let name = producer_name(pipeline, edges[j].upstream());
            let ghost added = name@;
            let ghost before = found@;
            found.insert(name, ());
            proof {
                assert(p.nodes[i as int].edges[j as int] == edges@[j as int]);
                assert forall|name: Seq<char>| #[trigger] found@.dom().contains(name) <==> exists|a: int, k: int|
                    #![trigger p.nodes[a].edges[k]]
                    (0 <= a < i || (a == i && k < j + 1)) && 0 <= k < p.nodes[a].edges.len() && producer_text(
                        p,
                        p.nodes[a].edges[k].upstream,
                    ) == name by {
                    if name == added {
                        assert(producer_text(p, p.nodes[i as int].edges[j as int].upstream) == name);
                    } else {
                        assert(found@.dom().contains(name) == before.dom().contains(name));
                    }
                }
            }
            j = j + 1;
        }
        i = i + 1;
    }
    proof {
        let list = found.entries().map_values(|e: (Seq<char>, ())| e.0);
        let property = |name: Seq<char>| is_producer(p, name);
        let es = found.entries();
        assert forall|n: Seq<char>| #[trigger] list.contains(n) <==> property(n) by {
            if list.contains(n) {
                let k = choose|k: int| 0 <= k < list.len() && list[k] == n;
                assert(es[k].0 == n);
                assert(found@.dom().contains(n));
            }
            if property(n) {
                assert(found@.dom().contains(n));
                let k = names::position_of(es, n);
                assert(list[k] == n);
            }
        }
        assert(names::sorted(list)) by {
            assert forall|a: int, b: int| 0 <= a < b < list.len() implies text::name_lt(
                #[trigger] list[a],
                #[trigger] list[b],
            ) by {
                assert(text::name_lt(es[a].0, es[b].0));
            }
        }
        names::lemma_listing_unique(list, property);
    }
    found
}

/// Counts and lists the consumers of a producer.
fn survey_consumers(pipeline: &Pipeline, producer: &str) -> (r: (u128, String))
    ensures
        r.0 == demands_on(pipeline@, producer@),
        r.1@ == consumers_of(pipeline@, producer@),
{
    let ghost p = pipeline@;
    let mut count: u128 = 0;
    let mut list = String::new();
    let mut empty = true;
    let mut i: usize = 0;
    while i < pipeline.len()
        invariant
            i <= p.nodes.len(),
            p == pipeline@,
            count == demands_among(p, i as int, producer@),
            count <= i * 0x1_0000_0000_0000_0000,
            consumers_among(p, i as int, producer@) == (list@, empty),
        decreases p.nodes.len() - i,
    {
        let node = pipeline.node_at(i);
        let edges = node.data_edges();
        let ghost before = (list@, empty);
        let ghost start = count;
        let mut j: usize = 0;
        proof {
            assert(edges@.take(0) =~= Seq::<DataEdge>::empty());
        }
        while j < edges.len()
            invariant
                i < p.nodes.len(),
                j <= edges.len(),
                p == pipeline@,
                node@ == p.nodes[i as int],
                edges@ == node@.edges,
                count == start + demands_in(p, edges@.take(j as int), producer@),
                start <= i * 0x1_0000_0000_0000_0000,
                count <= start + j,
                consumers_in(p, before, node@.name, edges@.take(j as int), producer@) == (list@, empty),
            decreases edges.len() - j,
        {
            proof {
                assert(edges@.take(j + 1).drop_last() =~= edges@.take(j as int));
                assert(edges@.take(j + 1).last() == edges@[j as int]);
            }
            let name = producer_name(pipeline, edges[j].upstream());
            if text::same_text(name.as_str(), producer) {
                count = count + 1;
                if empty {
                    list = String::from_str(node.name());
                    empty = false;
                } else {
                    list.append(", ");
                    list.append(node.name());
                }
            }
            j = j + 1;
        }
        assert(edges@.take(j as int) =~= edges@);
        i = i + 1;
    }
    (count, list)
}

/// Reports the owned demands on one producer with several consumers.
fn report_owned(pipeline: &Pipeline, producer: &str, count: u128, consumers: &str, list: &mut Vec<Problem>)
    requires
        count == demands_on(pipeline@, producer@),
        consumers@ == consumers_of(pipeline@, producer@),
    ensures
        problem::problem_views(final(list)@) == problem::problem_views(old(list)@) + owned_among(
            pipeline@,
            pipeline@.nodes.len() as int,
            producer@,
        ),
{
    let ghost p = pipeline@;
    let ghost start = problem::problem_views(list@);
    let mut i: usize = 0;
    assert(start + owned_among(p, 0, producer@) =~= start);
    while i < pipeline.len()
        invariant
            i <= p.nodes.len(),
            p == pipeline@,
            count == demands_on(p, producer@),
            consumers@ == consumers_of(p, producer@),
            problem::problem_views(list@) == start + owned_among(p, i as int, producer@),
        decreases p.nodes.len() - i,
    {
        let node = pipeline.node_at(i);
        let edges = node.data_edges();
        let ghost here = problem::problem_views(list@);
        let mut j: usize = 0;
        proof {
            assert(edges@.take(0) =~= Seq::<DataEdge>::empty());
            assert(here + owned_in(p, node@.name, edges@.take(0), producer@) =~= here);
        }
        while j < edges.len()
            invariant
                j <= edges.len(),
                p == pipeline@,
                edges@ == node@.edges,
                count == demands_on(p, producer@),
                consumers@ == consumers_of(p, producer@),
                problem::problem_views(list@) == here + owned_in(p, node@.name, edges@.take(j as int), producer@),
            decreases edges.len() - j,
        {
            proof {
                assert(edges@.take(j + 1).drop_last() =~= edges@.take(j as int));
                assert(edges@.take(j + 1).last() == edges@[j as int]);
            }
            let name = producer_name(pipeline, edges[j].upstream());
            if edges[j].mode() == ReceiveMode::Owned && text::same_text(name.as_str(), producer) {
                let mut message = String::from_str(ProblemKind::OwnershipModeConflict.label());
                message.append(": consumer `");
                message.append(node.name());
                message.append("` demands ownership of the value produced by `");
                message.append(producer);
                message.append("`, but that value has ");
                message.append(text::decimal_text(count).as_str());
                message.append(" consumers (");
                message.append(consumers);
                message.append(
                    "); a multiply-consumed value must be received shared, or the edge must opt into clone-on-read",
                );
                push_problem(list, Problem::new(ProblemKind::OwnershipModeConflict, message));
            }
            j = j + 1;
            assert(problem::problem_views(list@) =~= here + owned_in(p, node@.name, edges@.take(j as int), producer@));
        }
        assert(edges@.take(j as int) =~= edges@);
        i = i + 1;
        assert(problem::problem_views(list@) =~= start + owned_among(p, i as int, producer@));
    }
}

/// Reports the owned inputs of nodes that retry.
fn report_retrying(pipeline: &Pipeline, list: &mut Vec<Problem>)
    ensures
        problem::problem_views(final(list)@) == problem::problem_views(old(list)@) + retry_problems(
            pipeline@,
            pipeline@.nodes.len() as int,
        ),
{
    let ghost p = pipeline@;
    let ghost start = problem::problem_views(list@);
    let mut i: usize = 0;
    assert(start + retry_problems(p, 0) =~= start);
    while i < pipeline.len()
        invariant
            i <= p.nodes.len(),
            p == pipeline@,
            problem::problem_views(list@) == start + retry_problems(p, i as int),
        decreases p.nodes.len() - i,
    {
        let node = pipeline.node_at(i);
        let retries: u32 = node.policy().retry_count();
        if retries != 0 {
            let edges = node.data_edges();
            let ghost here = problem::problem_views(list@);
            let mut j: usize = 0;
            proof {
                assert(edges@.take(0) =~= Seq::<DataEdge>::empty());
                assert(here + retry_in(p, node@, edges@.take(0)) =~= here);
            }
            while j < edges.len()
                invariant
                    j <= edges.len(),
                    p == pipeline@,
                    edges@ == node@.edges,
                    retries == node@.policy().retries,
                    problem::problem_views(list@) == here + retry_in(p, node@, edges@.take(j as int)),
                decreases edges.len() - j,
            {
                proof {
                    assert(edges@.take(j + 1).drop_last() =~= edges@.take(j as int));
                    assert(edges@.take(j + 1).last() == edges@[j as int]);
                }
                if edges[j].mode() == ReceiveMode::Owned {
                    let producer = producer_name(pipeline, edges[j].upstream());
                    let mut message = String::from_str(ProblemKind::OwnershipModeConflict.label());
                    message.append(": node `");
                    message.append(node.name());
                    message.append("` has ");
                    message.append(text::decimal_text(retries as u128).as_str());
                    message.append(" retries but takes an owned input edge from `");
                    message.append(producer.as_str());
                    message.append(
                        "`; an owned-input edge into a retrying node must opt into clone-on-read (each attempt gets a fresh clone), or the node must drop its retries",
                    );
                    push_problem(list, Problem::new(ProblemKind::OwnershipModeConflict, message));
                }
                j = j + 1;
                assert(problem::problem_views(list@) =~= here + retry_in(p, node@, edges@.take(j as int)));
            }
            assert(edges@.take(j as int) =~= edges@);
        }
        i = i + 1;
        assert(problem::problem_views(list@) =~= start + retry_problems(p, i as int));
    }
}

/// Reports owned demands on values with several consumers, producer by producer, and
/// then owned inputs of nodes that retry.
pub(crate) fn check_ownership_conflicts(pipeline: &Pipeline, list: &mut Vec<Problem>)
    ensures
        problem::problem_views(final(list)@) == problem::problem_views(old(list)@) + ownership_problems(pipeline@),
{
    let ghost p = pipeline@;
    let ghost start = problem::problem_views(list@);
    let found = gather_producers(pipeline);
    let mut i: usize = 0;
    assert(start + owned_problems(p, 0) =~= start);
    while i < found.len()
        invariant
            i <= found.entries().len(),
            p == pipeline@,
            found.entries().map_values(|e: (Seq<char>, ())| e.0) == producers(p),
            problem::problem_views(list@) == start + owned_problems(p, i as int),
        decreases found.entries().len() - i,
    {
        let producer = found.name_at(i);
        assert(producers(p)[i as int] == producer@);
        let (count, consumers) = survey_consumers(pipeline, producer);
        if count > 1 {
            report_owned(pipeline, producer, count, consumers.as_str(), list);
        }
        i = i + 1;
        assert(problem::problem_views(list@) =~= start + owned_problems(p, i as int));
    }
    report_retrying(pipeline, list);
    assert(problem::problem_views(list@) =~= start + ownership_problems(p));
}

/// Finds every problem of a pipeline.
pub(crate) fn find_problems(pipeline: &Pipeline) -> (r: Vec<Problem>)
    ensures
        problem::problem_views(r@) == problems(pipeline@),
{
    let mut list: Vec<Problem> = Vec::new();
    let ghost none = problem::problem_views(list@);
    check_empty(pipeline, &mut list);
    check_duplicates(pipeline, &mut list);
    check_policies(pipeline, &mut list);
    check_ownership_conflicts(pipeline, &mut list);
    proof {
        assert(none =~= Seq::empty());
        assert(problem::problem_views(list@) =~= problems(pipeline@));
    }
    list
}

/// Whether a node's output looks forgotten: nobody consumes it, it is not the unit
/// value, and it is neither retained nor durable.
pub open spec fn unconsumed(p: PipelineView, i: int) -> bool {
    &&& graph::consumer_count(p, i) == 0
    &&& !p.nodes[i].declaration.output_is_unit
    &&& !p.nodes[i].policy().retained
    &&& !p.nodes[i].policy().durable
}

/// The warning about a node whose output looks forgotten.
pub open spec fn warning_text(name: Seq<char>) -> Seq<char> {
    "node `"@ + name
        + "` produces a non-() output with zero consumers and is neither retained nor durable; this is usually a wiring mistake (a legitimate effect-only node should produce `()`)"@
}

/// The warnings about the first `k` nodes.
pub open spec fn warnings(p: PipelineView, k: int) -> Seq<Seq<char>>
    decreases k,
{
    if k <= 0 {
        Seq::empty()
    } else {
        let rest = warnings(p, k - 1);
        if unconsumed(p, k - 1) {
            rest.push(warning_text(p.nodes[k - 1].name))
        } else {
            rest
        }
    }
}

/// Warns about nodes whose output looks forgotten.
pub(crate) fn collect_warnings(pipeline: &Pipeline, counts: &Vec<u32>) -> (r: Vec<Warning>)
    requires
        counts.len() == pipeline@.nodes.len(),
        forall|i: int|
            0 <= i < counts.len() ==> #[trigger] counts@[i] == graph::capped(graph::consumer_count(pipeline@, i)),
    ensures
        problem::warning_views(r@) == warnings(pipeline@, pipeline@.nodes.len() as int),
{
    let ghost p = pipeline@;
    let mut out: Vec<Warning> = Vec::new();
    let mut i: usize = 0;
    assert(problem::warning_views(out@) =~= warnings(p, 0));
    while i < pipeline.len()
        invariant
            i <= p.nodes.len(),
            p == pipeline@,
            counts.len() == p.nodes.len(),
            forall|i: int|
                0 <= i < counts.len() ==> #[trigger] counts@[i] == graph::capped(graph::consumer_count(p, i)),
            problem::warning_views(out@) == warnings(p, i as int),
        decreases p.nodes.len() - i,
    {
        let node = pipeline.node_at(i);
        let ghost before = out@;
        if counts[i] == 0 && !node.output_is_unit() && !node.policy().is_retained() && !node.policy().is_durable() {
            let mut message = String::from_str("node `");
            message.append(node.name());
            message.append(
                "` produces a non-() output with zero consumers and is neither retained nor durable; this is usually a wiring mistake (a legitimate effect-only node should produce `()`)",
            );
            let item = Warning::new(message);
            out.push(item);
            assert(problem::warning_views(out@) =~= problem::warning_views(before).push(item@));
        }
        i = i + 1;
    }
    out
}

} // verus!
