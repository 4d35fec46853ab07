//! What assembly promises, in terms of the nodes and edges of a pipeline.

use super::artifact::{self, ArtifactView};
use super::checks;
use super::graph;
use super::laws;
use super::problem::{ProblemKind, ProblemView};
use super::DurableWitness;
use crate::binding::{DataEdge, ReceiveMode};
use crate::flow::{self, NodeView, PipelineView};
use crate::handle::NodeId;
use crate::task::ExecutionClass;
use crate::text;
use vstd::prelude::*;

verus! {

/// Whether node `i` has a data edge at place `e`.
pub open spec fn is_edge(p: PipelineView, i: int, e: int) -> bool {
    0 <= i < p.nodes.len() && 0 <= e < p.nodes[i].edges.len()
}

/// Whether two data edges are different edges from one upstream.
pub open spec fn share(p: PipelineView, i: int, e: int, j: int, f: int) -> bool {
    &&& is_edge(p, i, e)
    &&& is_edge(p, j, f)
    &&& (i != j || e != f)
    &&& p.nodes[i].edges[e].upstream == p.nodes[j].edges[f].upstream
}

/// The data edges among those of the first `k` nodes, and the first `m` of the next, that
/// have a property.
pub open spec fn edges_such(p: PipelineView, k: int, m: int, property: spec_fn(int, int) -> bool) -> Set<(int, int)> {
    Set::new(
        |x: (int, int)|
            is_edge(p, x.0, x.1) && (x.0 < k || (x.0 == k && x.1 < m)) && property(x.0, x.1),
    )
}

spec fn counted(p: PipelineView, k: int, m: int, property: spec_fn(int, int) -> bool) -> nat
    decreases k, m,
{
    if m > 0 {
        counted(p, k, m - 1, property) + (if property(k, m - 1) {
            1nat
        } else {
            0nat
        })
    } else if k > 0 {
        counted(p, k - 1, p.nodes[k - 1].edges.len() as int, property)
    } else {
        0
    }
}

proof fn lemma_counted(p: PipelineView, k: int, m: int, property: spec_fn(int, int) -> bool)
    requires
        0 <= k <= p.nodes.len(),
        0 <= m,
        k < p.nodes.len() ==> m <= p.nodes[k].edges.len(),
        k == p.nodes.len() ==> m == 0,
    ensures
        edges_such(p, k, m, property).finite(),
        edges_such(p, k, m, property).len() == counted(p, k, m, property),
    decreases k, m,
{
    let all = edges_such(p, k, m, property);
    if m > 0 {
        lemma_counted(p, k, m - 1, property);
        let before = edges_such(p, k, m - 1, property);
        if property(k, m - 1) {
            assert(all =~= before.insert((k, m - 1)));
        } else {
            assert(all =~= before);
        }
    } else if k > 0 {
        let n = p.nodes[k - 1].edges.len() as int;
        lemma_counted(p, k - 1, n, property);
        assert(all =~= edges_such(p, k - 1, n, property));
    } else {
        assert(all =~= Set::<(int, int)>::empty());
    }
}

proof fn lemma_demands(p: PipelineView, k: int, m: int, producer: Seq<char>)
    requires
        0 <= k <= p.nodes.len(),
        0 <= m,
        k < p.nodes.len() ==> m <= p.nodes[k].edges.len(),
        k == p.nodes.len() ==> m == 0,
    ensures
        ({
            let property = |i: int, e: int| checks::producer_text(p, p.nodes[i].edges[e].upstream) == producer;
            counted(p, k, m, property) == checks::demands_among(p, k, producer) + (if k < p.nodes.len() {
                checks::demands_in(p, p.nodes[k].edges.take(m), producer)
            } else {
                0
            })
        }),
    decreases k, m,
{
    if m > 0 {
        lemma_demands(p, k, m - 1, producer);
        let edges = p.nodes[k].edges;
        assert(edges.take(m).drop_last() =~= edges.take(m - 1));
        assert(edges.take(m).last() == edges[m - 1]);
    } else {
        if k < p.nodes.len() {
            assert(p.nodes[k].edges.take(0) =~= Seq::<DataEdge>::empty());
        }
        if k > 0 {
            let edges = p.nodes[k - 1].edges;
            lemma_demands(p, k - 1, edges.len() as int, producer);
            assert(edges.take(edges.len() as int) =~= edges);
        }
    }
}

proof fn lemma_consumers(p: PipelineView, k: int, m: int, u: int)
    requires
        0 <= k <= p.nodes.len(),
        0 <= m,
        k < p.nodes.len() ==> m <= p.nodes[k].edges.len(),
        k == p.nodes.len() ==> m == 0,
    ensures
        ({
            let property = |i: int, e: int| p.resolves_to(p.nodes[i].edges[e].upstream, u);
            counted(p, k, m, property) == graph::consumers_among(p, k, u) + (if k < p.nodes.len() {
                graph::edges_from(p, p.nodes[k].edges.take(m), u)
            } else {
                0
            })
        }),
    decreases k, m,
{
    if m > 0 {
        lemma_consumers(p, k, m - 1, u);
        let edges = p.nodes[k].edges;
        assert(edges.take(m).drop_last() =~= edges.take(m - 1));
        assert(edges.take(m).last() == edges[m - 1]);
        lemma_resolution(p, edges[m - 1].upstream, u);
    } else {
        if k < p.nodes.len() {
            assert(p.nodes[k].edges.take(0) =~= Seq::<DataEdge>::empty());
        }
        if k > 0 {
            let edges = p.nodes[k - 1].edges;
            lemma_consumers(p, k - 1, edges.len() as int, u);
            assert(edges.take(edges.len() as int) =~= edges);
        }
    }
}

proof fn lemma_resolution(p: PipelineView, id: NodeId, u: int)
    ensures
        (p.has_node(id) && p.index_of(id) == u) == p.resolves_to(id, u),
{
    if p.has_node(id) {
        flow::lemma_resolves(p, id);
    }
    if p.resolves_to(id, u) {
        flow::lemma_resolves_unique(p, id, u);
    }
}

/// The consumers of a value are the data edges that take from its producer, each counted
/// once, whatever its receive mode: so they are counted in what is reported of a conflict,
/// and so, up to what 32 bits hold, in what assembly hands on.
pub proof fn law_every_edge_is_a_consumer(p: PipelineView, producer: Seq<char>, u: int)
    requires
        0 <= u < p.nodes.len(),
    ensures
        ({
            let n = p.nodes.len() as int;
            let demands = edges_such(
                p,
                n,
                0,
                |i: int, e: int| checks::producer_text(p, p.nodes[i].edges[e].upstream) == producer,
            );
            let consumers = edges_such(p, n, 0, |i: int, e: int| p.resolves_to(p.nodes[i].edges[e].upstream, u));
            &&& demands.finite() && checks::demands_on(p, producer) == demands.len()
            &&& consumers.finite() && graph::consumer_count(p, u) == consumers.len()
            &&& consumers.len() <= u32::MAX ==> ArtifactView::of(p).consumer_counts[u] == consumers.len()
            &&& consumers.len() > u32::MAX ==> ArtifactView::of(p).consumer_counts[u] == u32::MAX
        }),
{
    let n = p.nodes.len() as int;
    lemma_counted(p, n, 0, |i: int, e: int| checks::producer_text(p, p.nodes[i].edges[e].upstream) == producer);
    lemma_counted(p, n, 0, |i: int, e: int| p.resolves_to(p.nodes[i].edges[e].upstream, u));
    lemma_demands(p, n, 0, producer);
    lemma_consumers(p, n, 0, u);
}

/// The dependencies of a node are the distinct nodes that its data edges come from.
pub proof fn law_distinct_upstreams_are_dependencies(p: PipelineView, i: int)
    requires
        0 <= i < p.nodes.len(),
    ensures
        ({
            let ups = Set::new(
                |id: NodeId|
                    p.has_node(id) && exists|e: int|
                        0 <= e < p.nodes[i].edges.len() && (#[trigger] p.nodes[i].edges[e]).upstream == id,
            );
            &&& ups.finite()
            &&& ups.len() <= u32::MAX ==> ArtifactView::of(p).remaining_deps[i] == ups.len()
            &&& ups.len() > u32::MAX ==> ArtifactView::of(p).remaining_deps[i] == u32::MAX
        }),
{
    let edges = p.nodes[i].edges;
    let ups = Set::new(
        |id: NodeId|
            p.has_node(id) && exists|e: int|
                0 <= e < p.nodes[i].edges.len() && (#[trigger] p.nodes[i].edges[e]).upstream == id,
    );
    let present = graph::present_upstreams(p, edges);
    assert forall|id: NodeId| #[trigger] present.contains(id) == ups.contains(id) by {
        graph::lemma_present_upstreams(p, edges, id);
    }
    graph::lemma_present_upstreams(p, edges, p.nodes[i].id);
    assert(present =~= ups);
}

/// Whether a report holds a problem of the kind.
pub open spec fn reports(report: Seq<ProblemView>, kind: ProblemKind) -> bool {
    exists|k: int| 0 <= k < report.len() && (#[trigger] report[k]).kind == kind
}

proof fn lemma_reports(report: Seq<ProblemView>, item: ProblemView)
    requires
        report.contains(item),
    ensures
        reports(report, item.kind),
        report.len() > 0,
{
    let k = choose|k: int| 0 <= k < report.len() && report[k] == item;
    assert(report[k].kind == item.kind);
}

proof fn lemma_two_demands(p: PipelineView, i: int, e: int, j: int, f: int, producer: Seq<char>)
    requires
        is_edge(p, i, e),
        is_edge(p, j, f),
        i != j || e != f,
        checks::producer_text(p, p.nodes[i].edges[e].upstream) == producer,
        checks::producer_text(p, p.nodes[j].edges[f].upstream) == producer,
    ensures
        checks::demands_on(p, producer) > 1,
{
    let n = p.nodes.len() as int;
    let property = |i: int, e: int| checks::producer_text(p, p.nodes[i].edges[e].upstream) == producer;
    lemma_counted(p, n, 0, property);
    lemma_demands(p, n, 0, producer);
    let all = edges_such(p, n, 0, property);
    let two = Set::<(int, int)>::empty().insert((i, e)).insert((j, f));
    assert(two.subset_of(all));
    vstd::set_lib::lemma_len_subset(two, all);
}

proof fn lemma_other_demand(p: PipelineView, i: int, e: int, producer: Seq<char>) -> (other: (int, int))
    requires
        is_edge(p, i, e),
        checks::producer_text(p, p.nodes[i].edges[e].upstream) == producer,
        checks::demands_on(p, producer) > 1,
    ensures
        is_edge(p, other.0, other.1),
        other != (i, e),
        checks::producer_text(p, p.nodes[other.0].edges[other.1].upstream) == producer,
{
    let n = p.nodes.len() as int;
    let property = |i: int, e: int| checks::producer_text(p, p.nodes[i].edges[e].upstream) == producer;
    lemma_counted(p, n, 0, property);
    lemma_demands(p, n, 0, producer);
    let all = edges_such(p, n, 0, property);
    let rest = all.remove((i, e));
    assert(all.contains((i, e)));
    assert(rest.len() > 0);
    let other = rest.choose();
    assert(rest.contains(other));
    other
}

/// A value that one consumer takes over has no other consumer: where a data edge is owned
/// and any other data edge comes from the same upstream, at another node or another input
/// of the same, whatever its receive mode, assembly fails for it.
pub proof fn law_an_owned_value_is_not_shared(p: PipelineView, i: int, e: int, j: int, f: int)
    requires
        share(p, i, e, j, f),
        p.nodes[i].edges[e].mode == ReceiveMode::Owned,
    ensures
        checks::problems(p).len() > 0,
        reports(checks::problems(p), ProblemKind::OwnershipModeConflict),
{
    let producer = checks::producer_text(p, p.nodes[i].edges[e].upstream);
    lemma_two_demands(p, i, e, j, f, producer);
    laws::law_every_ownership_conflict_is_reported(p, i, e);
    lemma_reports(checks::problems(p), checks::owned_problem(p, p.nodes[i].name, producer));
}

/// A node that retries takes no value over: where it has an owned data edge, assembly fails
/// for it.
pub proof fn law_a_retrying_node_owns_nothing(p: PipelineView, i: int, e: int)
    requires
        is_edge(p, i, e),
        p.nodes[i].edges[e].mode == ReceiveMode::Owned,
        p.nodes[i].declaration.policy.retries > 0,
    ensures
        checks::problems(p).len() > 0,
        reports(checks::problems(p), ProblemKind::OwnershipModeConflict),
{
    laws::law_every_ownership_conflict_is_reported(p, i, e);
    let producer = checks::producer_text(p, p.nodes[i].edges[e].upstream);
    lemma_reports(checks::problems(p), checks::retry_problem(p, p.nodes[i], producer));
}

/// Whether a node's own declaration is in order: its name was registered once, its class is
/// not moved between await-bound and synchronous work, it is durable only where its output
/// can be, and it costs nothing if it is a teardown.
pub open spec fn in_order(node: NodeView) -> bool {
    let policy = node.declaration.policy;
    &&& node.registration_count <= 1
    &&& (policy.class_override matches Some(target) ==> (node.declaration.declared_class == ExecutionClass::AwaitBound)
        == (target == ExecutionClass::AwaitBound))
    &&& (policy.durable ==> node.declaration.durable_witness == DurableWitness::Present)
    &&& (policy.teardown ==> policy.cost.working_memory == 0 && policy.cost.output_residency == 0
        && policy.cost.blocking_threads == 0 && policy.cost.compute_threads == 0)
}

/// Each fault of a node's declaration is reported as what it is, and so is a pipeline
/// without nodes.
pub proof fn law_faults_are_reported_as_they_are(p: PipelineView, i: int)
    ensures
        p.nodes.len() == 0 ==> reports(checks::problems(p), ProblemKind::EmptyPipeline),
        0 <= i < p.nodes.len() ==> {
            let declaration = p.nodes[i].declaration;
            let policy = declaration.policy;
            let report = checks::problems(p);
            &&& p.nodes[i].registration_count > 1 ==> reports(report, ProblemKind::DuplicateNodeName)
            &&& policy.class_override == Some(ExecutionClass::AwaitBound) && declaration.declared_class
                != ExecutionClass::AwaitBound ==> reports(report, ProblemKind::InvalidExecutionClassOverride)
            &&& declaration.declared_class == ExecutionClass::AwaitBound && (policy.class_override == Some(
                ExecutionClass::Blocking,
            ) || policy.class_override == Some(ExecutionClass::Compute)) ==> reports(
                report,
                ProblemKind::InvalidExecutionClassOverride,
            )
            &&& policy.durable && declaration.durable_witness == DurableWitness::Absent ==> reports(
                report,
                ProblemKind::DurableWithoutContract,
            )
            &&& policy.teardown && (policy.cost.working_memory > 0 || policy.cost.output_residency > 0
                || policy.cost.blocking_threads > 0 || policy.cost.compute_threads > 0) ==> reports(
                report,
                ProblemKind::NonzeroTeardownCost,
            )
        },
{
    let report = checks::problems(p);
    laws::law_every_node_problem_is_reported(p, i);
    if p.nodes.len() == 0 {
        lemma_reports(
            report,
            checks::labelled(ProblemKind::EmptyPipeline, ": the pipeline registered no nodes"@),
        );
    }
    if 0 <= i < p.nodes.len() {
        let node = p.nodes[i];
        let policy = node.declaration.policy;
        if node.registration_count > 1 {
            lemma_reports(report, checks::duplicate_problem(node));
        }
        if policy.class_override is Some && !checks::override_fits(
            node.declaration.declared_class,
            policy.class_override->0,
        ) {
            lemma_reports(report, checks::override_problem(node, policy.class_override->0));
        }
        if policy.durable && node.declaration.durable_witness == DurableWitness::Absent {
            lemma_reports(report, checks::durable_problem(node));
        }
        if policy.teardown && policy.cost != super::CostVector::zero() {
            lemma_reports(report, checks::teardown_problem(node));
        }
    }
}

/// Assembly succeeds exactly where there are nodes, each in order, no node that retries
/// has an owned data edge, and no owned data edge has an upstream that another data edge
/// has too; of pipelines whose data edges all come from nodes that are there.
pub proof fn law_assembles_exactly_when_nothing_is_wrong(p: PipelineView)
    requires
        p.wf(),
        forall|i: int, e: int|
            #![trigger p.nodes[i].edges[e]]
            is_edge(p, i, e) ==> p.has_node(p.nodes[i].edges[e].upstream),
    ensures
        checks::problems(p).len() == 0 <==> {
            &&& p.nodes.len() > 0
            &&& forall|i: int| 0 <= i < p.nodes.len() ==> in_order(#[trigger] p.nodes[i])
            &&& forall|i: int, e: int|
                #![trigger p.nodes[i].edges[e]]
                is_edge(p, i, e) && p.nodes[i].edges[e].mode == ReceiveMode::Owned
                    ==> p.nodes[i].declaration.policy.retries == 0
            &&& forall|i: int, e: int, j: int, f: int|
                p.nodes[i].edges[e].mode == ReceiveMode::Owned ==> !#[trigger] share(p, i, e, j, f)
        },
{
    laws::law_assembles_exactly_when_sound(p);
    let n = p.nodes.len() as int;
    if checks::problems(p).len() == 0 {
        assert forall|i: int| 0 <= i < n implies in_order(#[trigger] p.nodes[i]) by {
            assert(laws::policy_sound(p.nodes[i]));
        }
        assert forall|i: int, e: int|
            #![trigger p.nodes[i].edges[e]]
            is_edge(p, i, e) && p.nodes[i].edges[e].mode == ReceiveMode::Owned implies p.nodes[i].declaration.policy.retries
            == 0 by {
            assert(laws::edge_sound(p, p.nodes[i], p.nodes[i].edges[e]));
        }
        assert forall|i: int, e: int, j: int, f: int|
            p.nodes[i].edges[e].mode == ReceiveMode::Owned implies !#[trigger] share(p, i, e, j, f) by {
            if share(p, i, e, j, f) {
                law_an_owned_value_is_not_shared(p, i, e, j, f);
            }
        }
    } else if n > 0 && (forall|i: int| 0 <= i < n ==> in_order(#[trigger] p.nodes[i])) && (forall|i: int, e: int|
        #![trigger p.nodes[i].edges[e]]
        is_edge(p, i, e) && p.nodes[i].edges[e].mode == ReceiveMode::Owned ==> p.nodes[i].declaration.policy.retries == 0)
        && (forall|i: int, e: int, j: int, f: int|
        p.nodes[i].edges[e].mode == ReceiveMode::Owned ==> !#[trigger] share(p, i, e, j, f)) {
        assert forall|i: int| 0 <= i < n implies (#[trigger] p.nodes[i]).registration_count <= 1 by {
            assert(in_order(p.nodes[i]));
        }
        assert forall|i: int| 0 <= i < n implies laws::policy_sound(#[trigger] p.nodes[i]) by {
            assert(in_order(p.nodes[i]));
            let cost = p.nodes[i].declaration.policy.cost;
            assert(p.nodes[i].declaration.policy.teardown ==> cost == super::CostVector::zero());
        }
        assert forall|i: int, e: int|
            #![trigger p.nodes[i].edges[e]]
            0 <= i < n && 0 <= e < p.nodes[i].edges.len() implies laws::edge_sound(
            p,
            p.nodes[i],
            p.nodes[i].edges[e],
        ) by {
            let edge = p.nodes[i].edges[e];
            let producer = checks::producer_text(p, edge.upstream);
            assert(is_edge(p, i, e));
            if edge.mode == ReceiveMode::Owned && checks::demands_on(p, producer) > 1 {
                let (j, f) = lemma_other_demand(p, i, e, producer);
                lemma_same_upstream(p, edge.upstream, p.nodes[j].edges[f].upstream);
                assert(share(p, i, e, j, f));
            }
        }
        assert(laws::sound(p));
    }
}

/// Nodes that are there and have one name are one.
proof fn lemma_same_upstream(p: PipelineView, a: NodeId, b: NodeId)
    requires
        p.wf(),
        p.has_node(a),
        p.has_node(b),
        checks::producer_text(p, a) == checks::producer_text(p, b),
    ensures
        a == b,
{
    flow::lemma_resolves(p, a);
    flow::lemma_resolves(p, b);
    assert(p.nodes[p.index_of(a)].wf());
    assert(p.nodes[p.index_of(b)].wf());
}

/// A warning is given of exactly the nodes whose value nobody takes, which is not the unit
/// value, and which are neither retained nor durable; and each names its node.
pub proof fn law_forgotten_values_are_warned_of(p: PipelineView, u: int)
    requires
        p.wf(),
        0 <= u < p.nodes.len(),
    ensures
        ({
            let node = p.nodes[u];
            let warning = "node `"@ + node.name
                + "` produces a non-() output with zero consumers and is neither retained nor durable; this is usually a wiring mistake (a legitimate effect-only node should produce `()`)"@;
            ArtifactView::of(p).warnings.contains(warning) <==> {
                &&& forall|i: int, e: int|
                    #![trigger p.nodes[i].edges[e]]
                    is_edge(p, i, e) ==> !p.resolves_to(p.nodes[i].edges[e].upstream, u)
                &&& !node.declaration.output_is_unit
                &&& !node.declaration.policy.retained
                &&& !node.declaration.policy.durable
            }
        }),
{
    let n = p.nodes.len() as int;
    let property = |i: int, e: int| p.resolves_to(p.nodes[i].edges[e].upstream, u);
    let takers = edges_such(p, n, 0, property);
    law_every_edge_is_a_consumer(p, p.nodes[u].name, u);
    lemma_warned(p, n, u);
    if graph::consumer_count(p, u) == 0 {
        assert forall|i: int, e: int|
            #![trigger p.nodes[i].edges[e]]
            is_edge(p, i, e) implies !p.resolves_to(p.nodes[i].edges[e].upstream, u) by {
            if p.resolves_to(p.nodes[i].edges[e].upstream, u) {
                assert(takers.contains((i, e)));
                assert(takers =~= Set::<(int, int)>::empty());
            }
        }
    } else {
        let x = takers.choose();
        assert(takers.contains(x));
        assert(is_edge(p, x.0, x.1) && p.resolves_to(p.nodes[x.0].edges[x.1].upstream, u));
    }
}

proof fn lemma_warned(p: PipelineView, k: int, u: int)
    requires
        p.wf(),
        0 <= u < p.nodes.len(),
        0 <= k <= p.nodes.len(),
    ensures
        checks::warnings(p, k).contains(checks::warning_text(p.nodes[u].name)) <==> u < k && checks::unconsumed(p, u),
    decreases k,
{
    let all = checks::warnings(p, k);
    let own = checks::warning_text(p.nodes[u].name);
    if k > 0 {
        lemma_warned(p, k - 1, u);
        let before = checks::warnings(p, k - 1);
        if before.contains(own) {
            let m = choose|m: int| 0 <= m < before.len() && before[m] == own;
            assert(all[m] == own);
        }
        if checks::unconsumed(p, k - 1) {
            assert(all[before.len() as int] == checks::warning_text(p.nodes[k - 1].name));
            if all.contains(own) && !before.contains(own) {
                let m = choose|m: int| 0 <= m < all.len() && all[m] == own;
                if m < before.len() {
                    assert(before[m] == own);
                }
                lemma_warning_names(p.nodes[k - 1].name, p.nodes[u].name);
                lemma_one_name(p, k - 1, u);
            }
        }
    }
}

proof fn lemma_warning_names(a: Seq<char>, b: Seq<char>)
    requires
        checks::warning_text(a) == checks::warning_text(b),
    ensures
        a == b,
{
    let head = "node `"@;
    let tail = "` produces a non-() output with zero consumers and is neither retained nor durable; this is usually a wiring mistake (a legitimate effect-only node should produce `()`)"@;
    let x = checks::warning_text(a);
    let y = checks::warning_text(b);
    assert(x.len() == head.len() + a.len() + tail.len());
    assert(y.len() == head.len() + b.len() + tail.len());
    let h = head.len() as int;
    assert(x.subrange(h, h + a.len()) =~= a);
    assert(y.subrange(h, h + b.len()) =~= b);
}

proof fn lemma_one_name(p: PipelineView, i: int, j: int)
    requires
        p.wf(),
        0 <= i < p.nodes.len(),
        0 <= j < p.nodes.len(),
        p.nodes[i].name == p.nodes[j].name,
    ensures
        i == j,
{
    if i < j {
        text::lemma_name_lt_asymmetric(p.nodes[i].name, p.nodes[j].name);
    } else if j < i {
        text::lemma_name_lt_asymmetric(p.nodes[j].name, p.nodes[i].name);
    }
}

/// Whether node `i` takes data from node `u` or is ordered after it.
pub open spec fn runs_after(p: PipelineView, i: int, u: int) -> bool {
    ||| exists|e: int| 0 <= e < p.nodes[i].edges.len() && p.resolves_to((#[trigger] p.nodes[i].edges[e]).upstream, u)
    ||| exists|e: int|
        0 <= e < p.nodes[i].declaration.ordering.len() && p.resolves_to(
            (#[trigger] p.nodes[i].declaration.ordering[e]).upstream,
            u,
        )
}

proof fn lemma_runs_after(p: PipelineView, i: int, u: int)
    requires
        runs_after(p, i, u),
    ensures
        graph::upstreams(p, i).contains(u),
{
    let edges = p.nodes[i].edges;
    let ordering = p.nodes[i].declaration.ordering;
    let a = graph::upstream_ids(edges);
    let b = graph::ordering_ids(ordering);
    let x = graph::resolved(p, a);
    let y = graph::resolved(p, b);
    graph::lemma_resolved_contains(p, a, u);
    graph::lemma_resolved_contains(p, b, u);
    if exists|e: int| 0 <= e < edges.len() && p.resolves_to((#[trigger] edges[e]).upstream, u) {
        let e = choose|e: int| 0 <= e < edges.len() && p.resolves_to((#[trigger] edges[e]).upstream, u);
        lemma_resolution(p, edges[e].upstream, u);
        assert(a[e] == edges[e].upstream);
        let m = choose|m: int| 0 <= m < x.len() && x[m] == u;
        assert((x + y)[m] == u);
    } else {
        let e = choose|e: int| 0 <= e < ordering.len() && p.resolves_to((#[trigger] ordering[e]).upstream, u);
        lemma_resolution(p, ordering[e].upstream, u);
        assert(b[e] == ordering[e].upstream);
        let m = choose|m: int| 0 <= m < y.len() && y[m] == u;
        assert((x + y)[x.len() + m] == u);
    }
}

/// In the execution order a node comes after every node that it takes data from and every
/// node that it is ordered after; and no node comes twice.
pub proof fn law_a_node_comes_after_its_upstreams(p: PipelineView, k: int, u: int)
    requires
        0 <= k < graph::execution_places(p).len(),
        runs_after(p, graph::execution_places(p)[k], u),
    ensures
        ({
            let places = graph::execution_places(p);
            let order = ArtifactView::of(p).order;
            &&& exists|m: int| 0 <= m < k && #[trigger] places[m] == u && order[m] == p.nodes[u].id
            &&& order.len() == places.len()
            &&& order[k] == p.nodes[places[k]].id
            &&& places.no_duplicates()
        }),
{
    let places = graph::execution_places(p);
    graph::law_execution_order_is_topological(p);
    let i = places[k];
    lemma_runs_after(p, i, u);
    let ups = graph::upstreams(p, i);
    let e = choose|e: int| 0 <= e < ups.len() && ups[e] == u;
    assert(graph::comes_before(places, k, graph::upstreams(p, places[k])[e]));
    let m = choose|m: int| 0 <= m < k && #[trigger] places[m] == u;
    assert(ArtifactView::of(p).order[m] == p.nodes[u].id);
}

proof fn lemma_upstreams_are_run_after(p: PipelineView, i: int, u: int)
    ensures
        graph::upstreams(p, i).contains(u) <==> runs_after(p, i, u),
{
    let edges = p.nodes[i].edges;
    let ordering = p.nodes[i].declaration.ordering;
    let a = graph::upstream_ids(edges);
    let b = graph::ordering_ids(ordering);
    let x = graph::resolved(p, a);
    let y = graph::resolved(p, b);
    graph::lemma_resolved_contains(p, a, u);
    graph::lemma_resolved_contains(p, b, u);
    if runs_after(p, i, u) {
        lemma_runs_after(p, i, u);
    }
    if graph::upstreams(p, i).contains(u) {
        let m = choose|m: int| 0 <= m < (x + y).len() && (x + y)[m] == u;
        if m < x.len() {
            assert(x[m] == u);
            let k = choose|k: int| 0 <= k < a.len() && p.has_node(#[trigger] a[k]) && p.index_of(a[k]) == u;
            lemma_resolution(p, a[k], u);
            assert(p.resolves_to(edges[k].upstream, u));
        } else {
            assert(y[m - x.len()] == u);
            let k = choose|k: int| 0 <= k < b.len() && p.has_node(#[trigger] b[k]) && p.index_of(b[k]) == u;
            lemma_resolution(p, b[k], u);
            assert(p.resolves_to(ordering[k].upstream, u));
        }
    }
}

proof fn lemma_next_in_order(p: PipelineView, done: Seq<int>, k: int)
    requires
        done.len() <= k < graph::order_from(p, done).len(),
    ensures
        graph::order_from(p, done).take(done.len() as int) == done,
        graph::comes_next(p, graph::order_from(p, done).take(k), graph::order_from(p, done)[k]),
    decreases p.nodes.len() - done.len(),
{
    let all = graph::order_from(p, done);
    let i = choose|i: int| graph::comes_next(p, done, i);
    let more = done.push(i);
    lemma_order_begins(p, done);
    if k == done.len() {
        lemma_order_begins(p, more);
        assert(all.take(k) =~= done);
        assert(all[k] == all.take(more.len() as int)[k]);
    } else {
        lemma_next_in_order(p, more, k);
    }
}

proof fn lemma_order_begins(p: PipelineView, done: Seq<int>)
    ensures
        graph::order_from(p, done).len() >= done.len(),
        graph::order_from(p, done).take(done.len() as int) == done,
    decreases p.nodes.len() - done.len(),
{
    let all = graph::order_from(p, done);
    if done.len() < p.nodes.len() && exists|i: int| graph::comes_next(p, done, i) {
        let i = choose|i: int| graph::comes_next(p, done, i);
        let more = done.push(i);
        lemma_order_begins(p, more);
        assert(all.take(done.len() as int) =~= all.take(more.len() as int).take(done.len() as int));
        assert(more.take(done.len() as int) =~= done);
    } else {
        assert(all.take(done.len() as int) =~= done);
    }
}

proof fn lemma_waits(p: PipelineView, done: Seq<int>, j: int)
    requires
        0 <= j < p.nodes.len(),
        !graph::can_follow(p, done, j),
        !done.contains(j),
    ensures
        exists|u: int| #[trigger] runs_after(p, j, u) && !done.contains(u),
{
    let ups = graph::upstreams(p, j);
    let k = choose|k: int| 0 <= k < ups.len() && !done.contains(#[trigger] ups[k]);
    lemma_upstreams_are_run_after(p, j, ups[k]);
    assert(runs_after(p, j, ups[k]));
}

/// At each place of the execution order stands the first node, in name order, that can run
/// by then: each that stands before it in name order has run, or waits for one that has
/// not.
pub proof fn law_the_first_by_name_runs_next(p: PipelineView, k: int, j: int)
    requires
        0 <= k < graph::execution_places(p).len(),
        0 <= j < graph::execution_places(p)[k],
    ensures
        ({
            let before = graph::execution_places(p).take(k);
            before.contains(j) || exists|u: int| #[trigger] runs_after(p, j, u) && !before.contains(u)
        }),
{
    lemma_next_in_order(p, Seq::empty(), k);
    let before = graph::execution_places(p).take(k);
    let i = graph::execution_places(p)[k];
    assert(!graph::can_follow(p, before, j));
    assert(0 <= j < p.nodes.len());
    if !before.contains(j) {
        lemma_waits(p, before, j);
    }
}

/// A node that the execution order leaves out waits for one that it leaves out too; so,
/// where no node can be reached from itself, every node is in it, once.
pub proof fn law_only_a_cycle_is_left_out(p: PipelineView, j: int, rank: spec_fn(int) -> nat)
    requires
        0 <= j < p.nodes.len(),
    ensures
        ({
            let places = graph::execution_places(p);
            &&& places.contains(j) || exists|u: int| #[trigger] runs_after(p, j, u) && !places.contains(u)
            &&& (forall|i: int, u: int|
                0 <= i < p.nodes.len() && #[trigger] runs_after(p, i, u) ==> rank(u) < rank(i)) ==> places.contains(j)
                && places.len() == p.nodes.len()
        }),
{
    let places = graph::execution_places(p);
    graph::law_execution_order_is_topological(p);
    if !places.contains(j) {
        assert(!graph::can_follow(p, places, j));
        lemma_waits(p, places, j);
    }
    if forall|i: int, u: int| 0 <= i < p.nodes.len() && #[trigger] runs_after(p, i, u) ==> rank(u) < rank(i) {
        assert forall|i: int, u: int|
            #![trigger graph::upstreams(p, i)[u]]
            0 <= i < p.nodes.len() && 0 <= u < graph::upstreams(p, i).len() implies rank(graph::upstreams(p, i)[u])
            < rank(i) by {
            let to = graph::upstreams(p, i)[u];
            assert(graph::upstreams(p, i).contains(to));
            lemma_upstreams_are_run_after(p, i, to);
            assert(runs_after(p, i, to));
        }
        graph::law_acyclic_order_is_complete(p, rank);
    }
}

/// What assembly hands on of a node is found by its identity, at the first place that has
/// it; and the allowed variables are handed on as they are.
pub proof fn law_counts_are_found_by_identity(p: PipelineView, i: int, id: NodeId)
    ensures
        ({
            let made = ArtifactView::of(p);
            &&& made.ids.len() == p.nodes.len() && made.consumer_counts.len() == p.nodes.len()
                && made.remaining_deps.len() == p.nodes.len()
            &&& p.resolves_to(id, i) ==> artifact::at_first(made.ids, made.consumer_counts, id) == Some(
                made.consumer_counts[i],
            )
            &&& p.resolves_to(id, i) ==> artifact::at_first(made.ids, made.remaining_deps, id) == Some(
                made.remaining_deps[i],
            )
            &&& !p.has_node(id) ==> artifact::at_first(made.ids, made.consumer_counts, id) is None
            &&& made.env_allowlist == p.env_allowlist
        }),
{
    let made = ArtifactView::of(p);
    if p.resolves_to(id, i) {
        assert(artifact::first_at(made.ids, id, i)) by {
            assert forall|j: int| 0 <= j < i implies #[trigger] made.ids[j] != id by {
                assert(p.nodes[j].id != id);
            }
        }
        let k = choose|k: int| artifact::first_at(made.ids, id, k);
        if k < i {
            assert(made.ids[k] != id);
        } else if i < k {
            assert(made.ids[i] != id);
        }
    }
    if !p.has_node(id) && exists|k: int| artifact::first_at(made.ids, id, k) {
        let k = choose|k: int| artifact::first_at(made.ids, id, k);
        assert(p.nodes[k].id == id);
    }
}

/// Names behind each other, with a comma and a space between them.
pub open spec fn joined(list: Seq<Seq<char>>) -> Seq<char>
    decreases list.len(),
{
    if list.len() == 0 {
        Seq::empty()
    } else if list.len() == 1 {
        list[0]
    } else {
        joined(list.drop_last()) + ", "@ + list.last()
    }
}

/// The nodes of the data edges among those of the first `k` nodes, and the first `m` of the
/// next, that take from a producer: one name for each edge, in name order.
pub open spec fn takers(p: PipelineView, k: int, m: int, producer: Seq<char>) -> Seq<Seq<char>>
    decreases k, m,
{
    if m > 0 {
        let before = takers(p, k, m - 1, producer);
        if checks::producer_text(p, p.nodes[k].edges[m - 1].upstream) == producer {
            before.push(p.nodes[k].name)
        } else {
            before
        }
    } else if k > 0 {
        takers(p, k - 1, p.nodes[k - 1].edges.len() as int, producer)
    } else {
        Seq::empty()
    }
}

proof fn lemma_takers(p: PipelineView, k: int, m: int, producer: Seq<char>)
    requires
        0 <= k <= p.nodes.len(),
        0 <= m,
        k < p.nodes.len() ==> m <= p.nodes[k].edges.len(),
        k == p.nodes.len() ==> m == 0,
    ensures
        ({
            let list = takers(p, k, m, producer);
            let said = if k < p.nodes.len() {
                checks::consumers_in(
                    p,
                    checks::consumers_among(p, k, producer),
                    p.nodes[k].name,
                    p.nodes[k].edges.take(m),
                    producer,
                )
            } else {
                checks::consumers_among(p, k, producer)
            };
            said.0 == joined(list) && said.1 == (list.len() == 0)
        }),
    decreases k, m,
{
    if m > 0 {
        lemma_takers(p, k, m - 1, producer);
        let edges = p.nodes[k].edges;
        assert(edges.take(m).drop_last() =~= edges.take(m - 1));
        assert(edges.take(m).last() == edges[m - 1]);
        let before = takers(p, k, m - 1, producer);
        assert(before.push(p.nodes[k].name).drop_last() =~= before);
    } else {
        if k < p.nodes.len() {
            assert(p.nodes[k].edges.take(0) =~= Seq::<DataEdge>::empty());
        }
        if k > 0 {
            let edges = p.nodes[k - 1].edges;
            lemma_takers(p, k - 1, edges.len() as int, producer);
            assert(edges.take(edges.len() as int) =~= edges);
        }
    }
}

/// What is said of a conflict: who demands ownership, of whose value, how many take it, and
/// each of those by name, once for each edge.
pub proof fn law_a_conflict_names_all_who_take(p: PipelineView, consumer: Seq<char>, producer: Seq<char>)
    ensures
        ({
            let names = takers(p, p.nodes.len() as int, 0, producer);
            &&& checks::owned_problem(p, consumer, producer).kind == ProblemKind::OwnershipModeConflict
            &&& checks::owned_problem(p, consumer, producer).message == "ownership-mode conflict"@ + ": consumer `"@
                + consumer + "` demands ownership of the value produced by `"@ + producer + "`, but that value has "@
                + text::decimal(names.len()) + " consumers ("@ + joined(names)
                + "); a multiply-consumed value must be received shared, or the edge must opt into clone-on-read"@
        }),
{
    let n = p.nodes.len() as int;
    lemma_takers(p, n, 0, producer);
    lemma_demands(p, n, 0, producer);
    lemma_takers_counted(p, n, 0, producer);
}

proof fn lemma_takers_counted(p: PipelineView, k: int, m: int, producer: Seq<char>)
    requires
        0 <= k <= p.nodes.len(),
        0 <= m,
    ensures
        takers(p, k, m, producer).len() == counted(
            p,
            k,
            m,
            |i: int, e: int| checks::producer_text(p, p.nodes[i].edges[e].upstream) == producer,
        ),
    decreases k, m,
{
    if m > 0 {
        lemma_takers_counted(p, k, m - 1, producer);
    } else if k > 0 {
        lemma_takers_counted(p, k - 1, p.nodes[k - 1].edges.len() as int, producer);
    }
}

/// What is said of the other faults names the node and what it declares.
pub proof fn law_faults_name_the_node(node: NodeView, target: ExecutionClass)
    ensures
        checks::duplicate_problem(node).message == "duplicate node name"@ + ": node name `"@ + node.name
            + "` was registered by "@ + text::decimal(node.registration_count as nat)
            + " declarations; both declarations must use distinct names"@,
        checks::duplicate_problem(node).declaration_count == Some(node.registration_count),
        checks::override_problem(node, target).message == "invalid execution-class override"@ + ": node `"@ + node.name
            + "` declares "@ + node.declaration.declared_class.label_spec() + " work but overrides its execution class to "@
            + target.label_spec() + "; await-bound work cannot be moved to a synchronous class"@,
        checks::teardown_problem(node).message == "nonzero teardown cost"@ + ": teardown node `"@ + node.name
            + "` declares a nonzero cost; a teardown bypasses admission and its declared cost must be zero in every pool"@,
{
}

/// A producer goes by its name, or by its identity where no node has it.
pub proof fn law_a_producer_goes_by_its_name(p: PipelineView, id: NodeId, i: int)
    ensures
        p.resolves_to(id, i) ==> checks::producer_text(p, id) == p.nodes[i].name,
        !p.has_node(id) ==> checks::producer_text(p, id) == "NodeId("@ + text::decimal(id@ as nat) + ")"@,
{
    if p.resolves_to(id, i) {
        flow::lemma_resolves_unique(p, id, i);
    }
}

/// Whether something in the pipeline is wrong in the way that a kind of problem says.
pub open spec fn wrong_so(p: PipelineView, kind: ProblemKind) -> bool {
    match kind {
        ProblemKind::EmptyPipeline => p.nodes.len() == 0,
        ProblemKind::DuplicateNodeName => exists|i: int|
            0 <= i < p.nodes.len() && (#[trigger] p.nodes[i]).registration_count > 1,
        ProblemKind::InvalidExecutionClassOverride => exists|i: int|
            0 <= i < p.nodes.len() && ((#[trigger] p.nodes[i]).declaration.policy.class_override matches Some(target) && (
            p.nodes[i].declaration.declared_class == ExecutionClass::AwaitBound) != (target == ExecutionClass::AwaitBound)),
        ProblemKind::DurableWithoutContract => exists|i: int|
            0 <= i < p.nodes.len() && (#[trigger] p.nodes[i]).declaration.policy.durable
                && p.nodes[i].declaration.durable_witness == DurableWitness::Absent,
        ProblemKind::NonzeroTeardownCost => exists|i: int|
            0 <= i < p.nodes.len() && (#[trigger] p.nodes[i]).declaration.policy.teardown && (
            p.nodes[i].declaration.policy.cost.working_memory > 0 || p.nodes[i].declaration.policy.cost.output_residency > 0
                || p.nodes[i].declaration.policy.cost.blocking_threads > 0
                || p.nodes[i].declaration.policy.cost.compute_threads > 0),
        ProblemKind::OwnershipModeConflict => exists|i: int, e: int|
            #![trigger p.nodes[i].edges[e]]
            is_edge(p, i, e) && p.nodes[i].edges[e].mode == ReceiveMode::Owned && (
            p.nodes[i].declaration.policy.retries > 0 || exists|j: int, f: int|
                #![trigger p.nodes[j].edges[f]]
                is_edge(p, j, f) && (i != j || e != f) && checks::producer_text(p, p.nodes[j].edges[f].upstream)
                    == checks::producer_text(p, p.nodes[i].edges[e].upstream)),
    }
}

/// Whether every problem of a list is one that there is.
spec fn all_so(p: PipelineView, list: Seq<ProblemView>) -> bool {
    forall|m: int| 0 <= m < list.len() ==> wrong_so(p, (#[trigger] list[m]).kind)
}

proof fn lemma_all_so_adds(p: PipelineView, a: Seq<ProblemView>, b: Seq<ProblemView>)
    requires
        all_so(p, a),
        all_so(p, b),
    ensures
        all_so(p, a + b),
{
    assert forall|m: int| 0 <= m < (a + b).len() implies wrong_so(p, (#[trigger] (a + b)[m]).kind) by {
        if m < a.len() {
            assert((a + b)[m] == a[m]);
        } else {
            assert((a + b)[m] == b[m - a.len()]);
        }
    }
}

proof fn lemma_declarations_so(p: PipelineView, k: int)
    requires
        0 <= k <= p.nodes.len(),
    ensures
        all_so(p, checks::duplicate_problems(p, k)),
        all_so(p, checks::policy_problems(p, k)),
    decreases k,
{
    if k > 0 {
        lemma_declarations_so(p, k - 1);
        let node = p.nodes[k - 1];
        let a = checks::override_problems(node);
        let b = checks::durable_problems(node);
        let c = checks::teardown_problems(node);
        let before = checks::policy_problems(p, k - 1);
        let cost = node.declaration.policy.cost;
        assert(cost.working_memory == 0 && cost.output_residency == 0 && cost.blocking_threads == 0
            && cost.compute_threads == 0 ==> cost == super::CostVector::zero());
        assert(all_so(p, a) && all_so(p, b) && all_so(p, c));
        lemma_all_so_adds(p, before, a);
        lemma_all_so_adds(p, before + a, b);
        lemma_all_so_adds(p, before + a + b, c);
    }
}

proof fn lemma_retries_so(p: PipelineView, k: int, m: int)
    requires
        0 <= k < p.nodes.len(),
        0 <= m <= p.nodes[k].edges.len(),
        p.nodes[k].declaration.policy.retries > 0,
    ensures
        all_so(p, checks::retry_in(p, p.nodes[k], p.nodes[k].edges.take(m))),
    decreases m,
{
    let edges = p.nodes[k].edges;
    if m > 0 {
        lemma_retries_so(p, k, m - 1);
        assert(edges.take(m).drop_last() =~= edges.take(m - 1));
        assert(edges.take(m).last() == edges[m - 1]);
        if edges[m - 1].mode == ReceiveMode::Owned {
            assert(is_edge(p, k, m - 1) && p.nodes[k].edges[m - 1].mode == ReceiveMode::Owned);
        }
    }
}

proof fn lemma_all_retries_so(p: PipelineView, k: int)
    requires
        0 <= k <= p.nodes.len(),
    ensures
        all_so(p, checks::retry_problems(p, k)),
    decreases k,
{
    if k > 0 {
        lemma_all_retries_so(p, k - 1);
        let edges = p.nodes[k - 1].edges;
        if p.nodes[k - 1].declaration.policy.retries > 0 {
            lemma_retries_so(p, k - 1, edges.len() as int);
            assert(edges.take(edges.len() as int) =~= edges);
            lemma_all_so_adds(p, checks::retry_problems(p, k - 1), checks::retry_in(p, p.nodes[k - 1], edges));
        }
    }
}

proof fn lemma_owned_so(p: PipelineView, k: int, m: int, producer: Seq<char>)
    requires
        0 <= k < p.nodes.len(),
        0 <= m <= p.nodes[k].edges.len(),
        checks::demands_on(p, producer) > 1,
    ensures
        all_so(p, checks::owned_in(p, p.nodes[k].name, p.nodes[k].edges.take(m), producer)),
    decreases m,
{
    let edges = p.nodes[k].edges;
    if m > 0 {
        lemma_owned_so(p, k, m - 1, producer);
        assert(edges.take(m).drop_last() =~= edges.take(m - 1));
        assert(edges.take(m).last() == edges[m - 1]);
        if edges[m - 1].mode == ReceiveMode::Owned && checks::producer_text(p, edges[m - 1].upstream) == producer {
            let (j, f) = lemma_other_demand(p, k, m - 1, producer);
            assert(is_edge(p, j, f) && checks::producer_text(p, p.nodes[j].edges[f].upstream) == producer);
            assert(is_edge(p, k, m - 1) && p.nodes[k].edges[m - 1].mode == ReceiveMode::Owned);
        }
    }
}

proof fn lemma_all_owned_so(p: PipelineView, k: int, producer: Seq<char>)
    requires
        0 <= k <= p.nodes.len(),
        checks::demands_on(p, producer) > 1,
    ensures
        all_so(p, checks::owned_among(p, k, producer)),
    decreases k,
{
    if k > 0 {
        lemma_all_owned_so(p, k - 1, producer);
        let edges = p.nodes[k - 1].edges;
        lemma_owned_so(p, k - 1, edges.len() as int, producer);
        assert(edges.take(edges.len() as int) =~= edges);
        lemma_all_so_adds(
            p,
            checks::owned_among(p, k - 1, producer),
            checks::owned_in(p, p.nodes[k - 1].name, edges, producer),
        );
    }
}

proof fn lemma_every_owned_so(p: PipelineView, k: int)
    requires
        0 <= k <= checks::producers(p).len(),
    ensures
        all_so(p, checks::owned_problems(p, k)),
    decreases k,
{
    if k > 0 {
        lemma_every_owned_so(p, k - 1);
        let producer = checks::producers(p)[k - 1];
        if checks::demands_on(p, producer) > 1 {
            lemma_all_owned_so(p, p.nodes.len() as int, producer);
            lemma_all_so_adds(
                p,
                checks::owned_problems(p, k - 1),
                checks::owned_among(p, p.nodes.len() as int, producer),
            );
        }
    }
}

/// Nothing is reported that is not so: each problem has its reason in the pipeline.
pub proof fn law_every_problem_has_its_reason(p: PipelineView, k: int)
    requires
        0 <= k < checks::problems(p).len(),
    ensures
        wrong_so(p, checks::problems(p)[k].kind),
{
    let n = p.nodes.len() as int;
    let a = checks::empty_problems(p);
    let b = checks::duplicate_problems(p, n);
    let c = checks::policy_problems(p, n);
    let d = checks::owned_problems(p, checks::producers(p).len() as int);
    let e = checks::retry_problems(p, n);
    lemma_declarations_so(p, n);
    lemma_every_owned_so(p, checks::producers(p).len() as int);
    lemma_all_retries_so(p, n);
    assert(all_so(p, a));
    lemma_all_so_adds(p, a, b);
    lemma_all_so_adds(p, a + b, c);
    lemma_all_so_adds(p, d, e);
    lemma_all_so_adds(p, a + b + c, d + e);
}

} // verus!
