//! What holds of assembly as a whole.

use super::checks;
use super::encoding;
use super::problem::{ProblemKind, ProblemView};
use super::{CostVector, DurableWitness, NodePolicy};
use crate::binding::{DataEdge, ReceiveMode};
use crate::flow::{self, NodeView, PipelineView};
use crate::handle::NodeId;
use crate::names;
use vstd::prelude::*;

verus! {

/// Whether a node's policy raises no objection.
pub open spec fn policy_sound(node: NodeView) -> bool {
    &&& (node.policy().class_override matches Some(target) ==> checks::override_fits(
        node.declaration.declared_class,
        target,
    ))
    &&& (node.policy().durable ==> node.declaration.durable_witness == DurableWitness::Present)
    &&& (node.policy().teardown ==> node.policy().cost == CostVector::zero())
}

/// Whether an edge of a node raises no objection: an owned edge is the only edge
/// from its producer, and its consumer does not retry.
pub open spec fn edge_sound(p: PipelineView, node: NodeView, edge: DataEdge) -> bool {
    edge.mode == ReceiveMode::Owned ==> checks::demands_on(p, checks::producer_text(p, edge.upstream)) <= 1
        && node.policy().retries == 0
}

/// Whether a pipeline raises no objection: it has nodes, each registered once, with
/// sound policies and sound edges.
pub open spec fn sound(p: PipelineView) -> bool {
    &&& p.nodes.len() > 0
    &&& forall|i: int| 0 <= i < p.nodes.len() ==> (#[trigger] p.nodes[i]).registration_count <= 1
    &&& forall|i: int| 0 <= i < p.nodes.len() ==> policy_sound(#[trigger] p.nodes[i])
    &&& forall|i: int, k: int|
        #![trigger p.nodes[i].edges[k]]
        0 <= i < p.nodes.len() && 0 <= k < p.nodes[i].edges.len() ==> edge_sound(p, p.nodes[i], p.nodes[i].edges[k])
}

proof fn lemma_duplicates_reported(p: PipelineView, k: int, i: int)
    requires
        0 <= i < k <= p.nodes.len(),
        p.nodes[i].registration_count > 1,
    ensures
        checks::duplicate_problems(p, k).contains(checks::duplicate_problem(p.nodes[i])),
    decreases k,
{
    let rest = checks::duplicate_problems(p, k - 1);
    let item = checks::duplicate_problem(p.nodes[i]);
    let all = checks::duplicate_problems(p, k);
    if i < k - 1 {
        lemma_duplicates_reported(p, k - 1, i);
        let m = choose|m: int| 0 <= m < rest.len() && rest[m] == item;
        assert(all[m] == item);
    } else {
        assert(all[rest.len() as int] == item);
    }
}

proof fn lemma_policies_reported(p: PipelineView, k: int, i: int, item: ProblemView)
    requires
        0 <= i < k <= p.nodes.len(),
        checks::override_problems(p.nodes[i]).contains(item) || checks::durable_problems(p.nodes[i]).contains(item)
            || checks::teardown_problems(p.nodes[i]).contains(item),
    ensures
        checks::policy_problems(p, k).contains(item),
    decreases k,
{
    let rest = checks::policy_problems(p, k - 1);
    let a = checks::override_problems(p.nodes[k - 1]);
    let b = checks::durable_problems(p.nodes[k - 1]);
    let c = checks::teardown_problems(p.nodes[k - 1]);
    let all = checks::policy_problems(p, k);
    assert(all == rest + a + b + c);
    if i < k - 1 {
        lemma_policies_reported(p, k - 1, i, item);
        let m = choose|m: int| 0 <= m < rest.len() && rest[m] == item;
        assert(all[m] == item);
    } else if a.contains(item) {
        let m = choose|m: int| 0 <= m < a.len() && a[m] == item;
        assert(all[rest.len() + m] == item);
    } else if b.contains(item) {
        let m = choose|m: int| 0 <= m < b.len() && b[m] == item;
        assert(all[rest.len() + a.len() + m] == item);
    } else {
        let m = choose|m: int| 0 <= m < c.len() && c[m] == item;
        assert(all[rest.len() + a.len() + b.len() + m] == item);
    }
}

proof fn lemma_owned_in(p: PipelineView, consumer: Seq<char>, edges: Seq<DataEdge>, producer: Seq<char>, k: int)
    requires
        0 <= k < edges.len(),
        edges[k].mode == ReceiveMode::Owned,
        checks::producer_text(p, edges[k].upstream) == producer,
    ensures
        checks::owned_in(p, consumer, edges, producer).contains(checks::owned_problem(p, consumer, producer)),
    decreases edges.len(),
{
    let front = edges.drop_last();
    let rest = checks::owned_in(p, consumer, front, producer);
    let all = checks::owned_in(p, consumer, edges, producer);
    let item = checks::owned_problem(p, consumer, producer);
    if k < front.len() {
        assert(front[k] == edges[k]);
        lemma_owned_in(p, consumer, front, producer, k);
        let m = choose|m: int| 0 <= m < rest.len() && rest[m] == item;
        assert(all[m] == item);
    } else {
        assert(all[rest.len() as int] == item);
    }
}

proof fn lemma_owned_among(p: PipelineView, k: int, producer: Seq<char>, i: int, e: int)
    requires
        0 <= i < k <= p.nodes.len(),
        0 <= e < p.nodes[i].edges.len(),
        p.nodes[i].edges[e].mode == ReceiveMode::Owned,
        checks::producer_text(p, p.nodes[i].edges[e].upstream) == producer,
    ensures
        checks::owned_among(p, k, producer).contains(checks::owned_problem(p, p.nodes[i].name, producer)),
    decreases k,
{
    let rest = checks::owned_among(p, k - 1, producer);
    let own = checks::owned_in(p, p.nodes[k - 1].name, p.nodes[k - 1].edges, producer);
    let all = checks::owned_among(p, k, producer);
    let item = checks::owned_problem(p, p.nodes[i].name, producer);
    if i < k - 1 {
        lemma_owned_among(p, k - 1, producer, i, e);
        let m = choose|m: int| 0 <= m < rest.len() && rest[m] == item;
        assert(all[m] == item);
    } else {
        lemma_owned_in(p, p.nodes[i].name, p.nodes[i].edges, producer, e);
        let m = choose|m: int| 0 <= m < own.len() && own[m] == item;
        assert(all[rest.len() + m] == item);
    }
}

proof fn lemma_owned_problems(p: PipelineView, k: int, j: int, item: ProblemView)
    requires
        0 <= j < k <= checks::producers(p).len(),
        checks::demands_on(p, checks::producers(p)[j]) > 1,
        checks::owned_among(p, p.nodes.len() as int, checks::producers(p)[j]).contains(item),
    ensures
        checks::owned_problems(p, k).contains(item),
    decreases k,
{
    let rest = checks::owned_problems(p, k - 1);
    let all = checks::owned_problems(p, k);
    if j < k - 1 {
        lemma_owned_problems(p, k - 1, j, item);
        let m = choose|m: int| 0 <= m < rest.len() && rest[m] == item;
        assert(all[m] == item);
    } else {
        let own = checks::owned_among(p, p.nodes.len() as int, checks::producers(p)[j]);
        let m = choose|m: int| 0 <= m < own.len() && own[m] == item;
        assert(all[rest.len() + m] == item);
    }
}

/// The producers are listed: there are finitely many, so they can be put in order.
proof fn lemma_producers_listed(p: PipelineView)
    ensures
        names::lists(checks::producers(p), |name: Seq<char>| checks::is_producer(p, name)),
{
    let property = |name: Seq<char>| checks::is_producer(p, name);
    let all = lemma_producers_upto(p, p.nodes.len() as int);
    assert(names::lists(all, property)) by {
        assert forall|n: Seq<char>| #[trigger] all.contains(n) <==> property(n) by {
            if property(n) {
                let (i, k) = choose|i: int, k: int|
                    #![trigger p.nodes[i].edges[k]]
                    0 <= i < p.nodes.len() && 0 <= k < p.nodes[i].edges.len() && checks::producer_text(
                        p,
                        p.nodes[i].edges[k].upstream,
                    ) == n;
                assert(producer_among(p, p.nodes.len() as int, n));
            }
        }
    }
    names::lemma_listing_unique(all, property);
}

spec fn producer_among(p: PipelineView, m: int, name: Seq<char>) -> bool {
    exists|i: int, k: int|
        #![trigger p.nodes[i].edges[k]]
        0 <= i < m && 0 <= k < p.nodes[i].edges.len() && checks::producer_text(p, p.nodes[i].edges[k].upstream) == name
}

spec fn producer_within(p: PipelineView, m: int, e: int, name: Seq<char>) -> bool {
    producer_among(p, m, name) || exists|k: int|
        0 <= k < e && checks::producer_text(p, (#[trigger] p.nodes[m].edges[k]).upstream) == name
}

proof fn lemma_producers_upto(p: PipelineView, m: int) -> (list: Seq<Seq<char>>)
    requires
        0 <= m <= p.nodes.len(),
    ensures
        names::sorted(list),
        forall|n: Seq<char>| #[trigger] list.contains(n) <==> producer_among(p, m, n),
    decreases m, 0int,
{
    if m == 0 {
        let list = Seq::<Seq<char>>::empty();
        list
    } else {
        let list = lemma_producers_within(p, m - 1, p.nodes[m - 1].edges.len() as int);
        assert forall|n: Seq<char>| #[trigger] list.contains(n) <==> producer_among(p, m, n) by {
            if producer_among(p, m, n) {
                let (i, k) = choose|i: int, k: int|
                    #![trigger p.nodes[i].edges[k]]
                    0 <= i < m && 0 <= k < p.nodes[i].edges.len() && checks::producer_text(
                        p,
                        p.nodes[i].edges[k].upstream,
                    ) == n;
                if i < m - 1 {
                    assert(producer_among(p, m - 1, n));
                }
            }
        }
        list
    }
}

proof fn lemma_producers_within(p: PipelineView, m: int, e: int) -> (list: Seq<Seq<char>>)
    requires
        0 <= m < p.nodes.len(),
        0 <= e <= p.nodes[m].edges.len(),
    ensures
        names::sorted(list),
        forall|n: Seq<char>| #[trigger] list.contains(n) <==> producer_within(p, m, e, n),
    decreases m, e + 1,
{
    if e == 0 {
        lemma_producers_upto(p, m)
    } else {
        let list = lemma_producers_within(p, m, e - 1);
        let added = checks::producer_text(p, p.nodes[m].edges[e - 1].upstream);
        let grown = names::lemma_sorted_insert(list, added);
        assert forall|n: Seq<char>| #[trigger] grown.contains(n) <==> producer_within(p, m, e, n) by {
            if producer_within(p, m, e, n) && !producer_within(p, m, e - 1, n) {
                let k = choose|k: int|
                    0 <= k < e && checks::producer_text(p, (#[trigger] p.nodes[m].edges[k]).upstream) == n;
                assert(k == e - 1);
            }
            if n == added {
                assert(checks::producer_text(p, p.nodes[m].edges[e - 1].upstream) == n);
            }
            assert(list.contains(n) <==> producer_within(p, m, e - 1, n));
        }
        grown
    }
}

proof fn lemma_retry_in(p: PipelineView, node: NodeView, edges: Seq<DataEdge>, k: int)
    requires
        0 <= k < edges.len(),
        edges[k].mode == ReceiveMode::Owned,
    ensures
        checks::retry_in(p, node, edges).contains(
            checks::retry_problem(p, node, checks::producer_text(p, edges[k].upstream)),
        ),
    decreases edges.len(),
{
    let front = edges.drop_last();
    let rest = checks::retry_in(p, node, front);
    let all = checks::retry_in(p, node, edges);
    let item = checks::retry_problem(p, node, checks::producer_text(p, edges[k].upstream));
    if k < front.len() {
        assert(front[k] == edges[k]);
        lemma_retry_in(p, node, front, k);
        let m = choose|m: int| 0 <= m < rest.len() && rest[m] == item;
        assert(all[m] == item);
    } else {
        assert(all[rest.len() as int] == item);
    }
}

proof fn lemma_retry_problems(p: PipelineView, k: int, i: int, e: int)
    requires
        0 <= i < k <= p.nodes.len(),
        0 <= e < p.nodes[i].edges.len(),
        p.nodes[i].edges[e].mode == ReceiveMode::Owned,
        p.nodes[i].policy().retries != 0,
    ensures
        checks::retry_problems(p, k).contains(
            checks::retry_problem(p, p.nodes[i], checks::producer_text(p, p.nodes[i].edges[e].upstream)),
        ),
    decreases k,
{
    let rest = checks::retry_problems(p, k - 1);
    let all = checks::retry_problems(p, k);
    let item = checks::retry_problem(p, p.nodes[i], checks::producer_text(p, p.nodes[i].edges[e].upstream));
    if i < k - 1 {
        lemma_retry_problems(p, k - 1, i, e);
        let m = choose|m: int| 0 <= m < rest.len() && rest[m] == item;
        assert(all[m] == item);
    } else {
        let own = checks::retry_in(p, p.nodes[i], p.nodes[i].edges);
        lemma_retry_in(p, p.nodes[i], p.nodes[i].edges, e);
        let m = choose|m: int| 0 <= m < own.len() && own[m] == item;
        assert(all[rest.len() + m] == item);
    }
}

/// Every problem of one part of the report is in the report.
proof fn lemma_in_report(p: PipelineView, item: ProblemView)
    requires
        ({
            let n = p.nodes.len() as int;
            ||| checks::empty_problems(p).contains(item)
            ||| checks::duplicate_problems(p, n).contains(item)
            ||| checks::policy_problems(p, n).contains(item)
            ||| checks::owned_problems(p, checks::producers(p).len() as int).contains(item)
            ||| checks::retry_problems(p, n).contains(item)
        }),
    ensures
        checks::problems(p).contains(item),
{
    let n = p.nodes.len() as int;
    let a = checks::empty_problems(p);
    let b = checks::duplicate_problems(p, n);
    let c = checks::policy_problems(p, n);
    let d = checks::owned_problems(p, checks::producers(p).len() as int);
    let e = checks::retry_problems(p, n);
    let all = checks::problems(p);
    assert(all == a + b + c + (d + e));
    if a.contains(item) {
        let m = choose|m: int| 0 <= m < a.len() && a[m] == item;
        assert(all[m] == item);
    } else if b.contains(item) {
        let m = choose|m: int| 0 <= m < b.len() && b[m] == item;
        assert(all[a.len() + m] == item);
    } else if c.contains(item) {
        let m = choose|m: int| 0 <= m < c.len() && c[m] == item;
        assert(all[a.len() + b.len() + m] == item);
    } else if d.contains(item) {
        let m = choose|m: int| 0 <= m < d.len() && d[m] == item;
        assert(all[a.len() + b.len() + c.len() + m] == item);
    } else {
        let m = choose|m: int| 0 <= m < e.len() && e[m] == item;
        assert(all[a.len() + b.len() + c.len() + d.len() + m] == item);
    }
}

/// Every problem is reported: an empty pipeline, and for every node its duplicate
/// name and the faults of its policy, however many other problems there are.
pub proof fn law_every_node_problem_is_reported(p: PipelineView, i: int)
    ensures
        p.nodes.len() == 0 ==> checks::problems(p).contains(
            checks::labelled(ProblemKind::EmptyPipeline, ": the pipeline registered no nodes"@),
        ),
        0 <= i < p.nodes.len() && p.nodes[i].registration_count > 1 ==> checks::problems(p).contains(
            checks::duplicate_problem(p.nodes[i]),
        ),
        0 <= i < p.nodes.len() && p.nodes[i].policy().class_override is Some && !checks::override_fits(
            p.nodes[i].declaration.declared_class,
            p.nodes[i].policy().class_override->0,
        ) ==> checks::problems(p).contains(
            checks::override_problem(p.nodes[i], p.nodes[i].policy().class_override->0),
        ),
        0 <= i < p.nodes.len() && p.nodes[i].policy().durable && p.nodes[i].declaration.durable_witness
            == DurableWitness::Absent ==> checks::problems(p).contains(checks::durable_problem(p.nodes[i])),
        0 <= i < p.nodes.len() && p.nodes[i].policy().teardown && p.nodes[i].policy().cost != CostVector::zero()
            ==> checks::problems(p).contains(checks::teardown_problem(p.nodes[i])),
{
    let n = p.nodes.len() as int;
    if n == 0 {
        let item = checks::labelled(ProblemKind::EmptyPipeline, ": the pipeline registered no nodes"@);
        assert(checks::empty_problems(p)[0] == item);
        lemma_in_report(p, item);
    }
    if 0 <= i < n {
        let node = p.nodes[i];
        if node.registration_count > 1 {
            lemma_duplicates_reported(p, n, i);
            lemma_in_report(p, checks::duplicate_problem(node));
        }
        if node.policy().class_override is Some && !checks::override_fits(
            node.declaration.declared_class,
            node.policy().class_override->0,
        ) {
            let item = checks::override_problem(node, node.policy().class_override->0);
            assert(checks::override_problems(node)[0] == item);
            lemma_policies_reported(p, n, i, item);
            lemma_in_report(p, item);
        }
        if node.policy().durable && node.declaration.durable_witness == DurableWitness::Absent {
            let item = checks::durable_problem(node);
            assert(checks::durable_problems(node)[0] == item);
            lemma_policies_reported(p, n, i, item);
            lemma_in_report(p, item);
        }
        if node.policy().teardown && node.policy().cost != CostVector::zero() {
            let item = checks::teardown_problem(node);
            assert(checks::teardown_problems(node)[0] == item);
            lemma_policies_reported(p, n, i, item);
            lemma_in_report(p, item);
        }
    }
}

/// Every receive-mode conflict is reported: an owned edge from a producer with
/// several consumers, and an owned edge into a node that retries.
pub proof fn law_every_ownership_conflict_is_reported(p: PipelineView, i: int, e: int)
    requires
        0 <= i < p.nodes.len(),
        0 <= e < p.nodes[i].edges.len(),
        p.nodes[i].edges[e].mode == ReceiveMode::Owned,
    ensures
        ({
            let producer = checks::producer_text(p, p.nodes[i].edges[e].upstream);
            &&& checks::demands_on(p, producer) > 1 ==> checks::problems(p).contains(
                checks::owned_problem(p, p.nodes[i].name, producer),
            )
            &&& p.nodes[i].policy().retries != 0 ==> checks::problems(p).contains(
                checks::retry_problem(p, p.nodes[i], producer),
            )
        }),
{
    let n = p.nodes.len() as int;
    let producer = checks::producer_text(p, p.nodes[i].edges[e].upstream);
    if checks::demands_on(p, producer) > 1 {
        let item = checks::owned_problem(p, p.nodes[i].name, producer);
        lemma_owned_among(p, n, producer, i, e);
        lemma_producers_listed(p);
        assert(checks::is_producer(p, producer));
        assert(checks::producers(p).contains(producer));
        let j = choose|j: int| 0 <= j < checks::producers(p).len() && checks::producers(p)[j] == producer;
        lemma_owned_problems(p, checks::producers(p).len() as int, j, item);
        lemma_in_report(p, item);
    }
    if p.nodes[i].policy().retries != 0 {
        lemma_retry_problems(p, n, i, e);
        lemma_in_report(p, checks::retry_problem(p, p.nodes[i], producer));
    }
}

proof fn lemma_no_duplicates(p: PipelineView, k: int)
    requires
        0 <= k <= p.nodes.len(),
        forall|i: int| 0 <= i < p.nodes.len() ==> (#[trigger] p.nodes[i]).registration_count <= 1,
    ensures
        checks::duplicate_problems(p, k).len() == 0,
    decreases k,
{
    if k > 0 {
        lemma_no_duplicates(p, k - 1);
        assert(p.nodes[k - 1].registration_count <= 1);
    }
}

proof fn lemma_no_policy_problems(p: PipelineView, k: int)
    requires
        0 <= k <= p.nodes.len(),
        forall|i: int| 0 <= i < p.nodes.len() ==> policy_sound(#[trigger] p.nodes[i]),
    ensures
        checks::policy_problems(p, k).len() == 0,
    decreases k,
{
    if k > 0 {
        lemma_no_policy_problems(p, k - 1);
        assert(policy_sound(p.nodes[k - 1]));
    }
}

proof fn lemma_no_owned_in(p: PipelineView, consumer: Seq<char>, edges: Seq<DataEdge>, producer: Seq<char>)
    requires
        forall|k: int|
            0 <= k < edges.len() && (#[trigger] edges[k]).mode == ReceiveMode::Owned ==> checks::producer_text(
                p,
                edges[k].upstream,
            ) != producer,
    ensures
        checks::owned_in(p, consumer, edges, producer).len() == 0,
    decreases edges.len(),
{
    if edges.len() > 0 {
        let front = edges.drop_last();
        assert forall|k: int|
            0 <= k < front.len() && (#[trigger] front[k]).mode == ReceiveMode::Owned implies checks::producer_text(
            p,
            front[k].upstream,
        ) != producer by {
            assert(front[k] == edges[k]);
        }
        lemma_no_owned_in(p, consumer, front, producer);
        assert(edges[edges.len() - 1] == edges.last());
    }
}

proof fn lemma_no_owned_among(p: PipelineView, k: int, producer: Seq<char>)
    requires
        0 <= k <= p.nodes.len(),
        sound(p),
        checks::demands_on(p, producer) > 1,
    ensures
        checks::owned_among(p, k, producer).len() == 0,
    decreases k,
{
    if k > 0 {
        lemma_no_owned_among(p, k - 1, producer);
        let edges = p.nodes[k - 1].edges;
        assert forall|e: int|
            0 <= e < edges.len() && (#[trigger] edges[e]).mode == ReceiveMode::Owned implies checks::producer_text(
            p,
            edges[e].upstream,
        ) != producer by {
            assert(edge_sound(p, p.nodes[k - 1], p.nodes[k - 1].edges[e]));
        }
        lemma_no_owned_in(p, p.nodes[k - 1].name, edges, producer);
    }
}

proof fn lemma_no_owned_problems(p: PipelineView, k: int)
    requires
        0 <= k <= checks::producers(p).len(),
        sound(p),
    ensures
        checks::owned_problems(p, k).len() == 0,
    decreases k,
{
    if k > 0 {
        lemma_no_owned_problems(p, k - 1);
        let producer = checks::producers(p)[k - 1];
        if checks::demands_on(p, producer) > 1 {
            lemma_no_owned_among(p, p.nodes.len() as int, producer);
        }
    }
}

proof fn lemma_no_retry_in(p: PipelineView, node: NodeView, edges: Seq<DataEdge>)
    requires
        forall|k: int| 0 <= k < edges.len() ==> (#[trigger] edges[k]).mode != ReceiveMode::Owned,
    ensures
        checks::retry_in(p, node, edges).len() == 0,
    decreases edges.len(),
{
    if edges.len() > 0 {
        let front = edges.drop_last();
        assert forall|k: int| 0 <= k < front.len() implies (#[trigger] front[k]).mode != ReceiveMode::Owned by {
            assert(front[k] == edges[k]);
        }
        lemma_no_retry_in(p, node, front);
        assert(edges[edges.len() - 1] == edges.last());
    }
}

proof fn lemma_no_retry_problems(p: PipelineView, k: int)
    requires
        0 <= k <= p.nodes.len(),
        sound(p),
    ensures
        checks::retry_problems(p, k).len() == 0,
    decreases k,
{
    if k > 0 {
        lemma_no_retry_problems(p, k - 1);
        let node = p.nodes[k - 1];
        if node.policy().retries != 0 {
            assert forall|e: int| 0 <= e < node.edges.len() implies (#[trigger] node.edges[e]).mode
                != ReceiveMode::Owned by {
                assert(edge_sound(p, p.nodes[k - 1], p.nodes[k - 1].edges[e]));
            }
            lemma_no_retry_in(p, node, node.edges);
        }
    }
}

/// Assembly reports nothing exactly when the pipeline is sound.
pub proof fn law_assembles_exactly_when_sound(p: PipelineView)
    ensures
        checks::problems(p).len() == 0 <==> sound(p),
{
    let n = p.nodes.len() as int;
    if sound(p) {
        lemma_no_duplicates(p, n);
        lemma_no_policy_problems(p, n);
        lemma_no_owned_problems(p, checks::producers(p).len() as int);
        lemma_no_retry_problems(p, n);
    }
    if checks::problems(p).len() == 0 {
        law_every_node_problem_is_reported(p, 0);
        assert forall|i: int| 0 <= i < n implies (#[trigger] p.nodes[i]).registration_count <= 1 by {
            law_every_node_problem_is_reported(p, i);
        }
        assert forall|i: int| 0 <= i < n implies policy_sound(#[trigger] p.nodes[i]) by {
            law_every_node_problem_is_reported(p, i);
        }
        assert forall|i: int, k: int|
            #![trigger p.nodes[i].edges[k]]
            0 <= i < n && 0 <= k < p.nodes[i].edges.len() implies edge_sound(p, p.nodes[i], p.nodes[i].edges[k]) by {
            if p.nodes[i].edges[k].mode == ReceiveMode::Owned {
                law_every_ownership_conflict_is_reported(p, i, k);
            }
        }
    }
}

/// Whether a node is ordered after the node with an identity.
pub open spec fn ordered_behind(node: NodeView, id: NodeId) -> bool {
    exists|k: int| 0 <= k < node.declaration.ordering.len() && (#[trigger] node.declaration.ordering[k]).upstream == id
}

/// Whether two pipelines have one structure: the same nodes by name, with the same
/// stable names and trigger rules, the same data edges apart from receive modes, and the
/// same ordering, however often and in which order it was stated.
pub open spec fn same_structure(p: PipelineView, q: PipelineView) -> bool {
    &&& p.nodes.len() == q.nodes.len()
    &&& forall|i: int|
        0 <= i < p.nodes.len() ==> {
            let a = #[trigger] p.nodes[i];
            let b = q.nodes[i];
            &&& a.name == b.name
            &&& a.id == b.id
            &&& a.declaration.stable_names == b.declaration.stable_names
            &&& a.declaration.trigger_rule == b.declaration.trigger_rule
            &&& a.edges.len() == b.edges.len()
        }
    &&& forall|i: int, id: NodeId|
        #![trigger ordered_behind(p.nodes[i], id)]
        #![trigger ordered_behind(q.nodes[i], id)]
        0 <= i < p.nodes.len() ==> ordered_behind(p.nodes[i], id) == ordered_behind(q.nodes[i], id)
    &&& forall|i: int, k: int|
        #![trigger p.nodes[i].edges[k]]
        0 <= i < p.nodes.len() && 0 <= k < p.nodes[i].edges.len() ==> p.nodes[i].edges[k].upstream
            == q.nodes[i].edges[k].upstream && p.nodes[i].edges[k].position == q.nodes[i].edges[k].position
}

proof fn lemma_same_resolution(p: PipelineView, q: PipelineView, id: NodeId)
    requires
        same_structure(p, q),
    ensures
        p.has_node(id) == q.has_node(id),
        p.has_node(id) ==> p.index_of(id) == q.index_of(id) && 0 <= p.index_of(id) < p.nodes.len(),
        checks::producer_text(p, id) == checks::producer_text(q, id),
{
    if p.has_node(id) {
        let i = choose|i: int| 0 <= i < p.nodes.len() && (#[trigger] p.nodes[i]).id == id;
        assert(q.nodes[i].id == id);
        flow::lemma_resolves(p, id);
        flow::lemma_resolves(q, id);
        let a = p.index_of(id);
        assert(q.resolves_to(id, a)) by {
            assert(p.nodes[a].id == q.nodes[a].id);
            assert forall|j: int| 0 <= j < a implies (#[trigger] q.nodes[j]).id != id by {
                assert(p.nodes[j].id != id);
            }
        }
        flow::lemma_resolves_unique(q, id, a);
        assert(p.nodes[a].name == q.nodes[a].name);
    }
    if q.has_node(id) {
        let i = choose|i: int| 0 <= i < q.nodes.len() && (#[trigger] q.nodes[i]).id == id;
        assert(p.nodes[i].id == id);
    }
}

proof fn lemma_same_node_shapes(p: PipelineView, q: PipelineView, k: int)
    requires
        same_structure(p, q),
        0 <= k <= p.nodes.len(),
    ensures
        encoding::node_shapes(p, k) == encoding::node_shapes(q, k),
    decreases k,
{
    if k > 0 {
        lemma_same_node_shapes(p, q, k - 1);
        assert(p.nodes[k - 1].name == q.nodes[k - 1].name);
    }
}

proof fn lemma_same_data_edges(p: PipelineView, q: PipelineView, consumer: Seq<char>, a: Seq<DataEdge>, b: Seq<DataEdge>)
    requires
        same_structure(p, q),
        a.len() == b.len(),
        forall|k: int|
            0 <= k < a.len() ==> (#[trigger] a[k]).upstream == b[k].upstream && a[k].position == b[k].position,
    ensures
        encoding::data_edges_of(p, consumer, a) == encoding::data_edges_of(q, consumer, b),
    decreases a.len(),
{
    if a.len() > 0 {
        let fa = a.drop_last();
        let fb = b.drop_last();
        assert forall|k: int| 0 <= k < fa.len() implies (#[trigger] fa[k]).upstream == fb[k].upstream
            && fa[k].position == fb[k].position by {
            assert(fa[k] == a[k]);
        }
        lemma_same_data_edges(p, q, consumer, fa, fb);
        let last = a.len() - 1;
        assert(a[last].upstream == b[last].upstream && a[last].position == b[last].position);
        lemma_same_resolution(p, q, a.last().upstream);
        if p.has_node(a.last().upstream) {
            let i = p.index_of(a.last().upstream);
            assert(p.nodes[i].declaration.stable_names == q.nodes[i].declaration.stable_names);
        }
    }
}

proof fn lemma_same_data_edge_shapes(p: PipelineView, q: PipelineView, k: int)
    requires
        same_structure(p, q),
        0 <= k <= p.nodes.len(),
    ensures
        encoding::data_edge_shapes(p, k) == encoding::data_edge_shapes(q, k),
    decreases k,
{
    if k > 0 {
        lemma_same_data_edge_shapes(p, q, k - 1);
        let a = p.nodes[k - 1];
        let b = q.nodes[k - 1];
        assert(a.name == b.name);
        assert forall|e: int| 0 <= e < a.edges.len() implies (#[trigger] a.edges[e]).upstream == b.edges[e].upstream
            && a.edges[e].position == b.edges[e].position by {
            assert(p.nodes[k - 1].edges[e].upstream == q.nodes[k - 1].edges[e].upstream);
        }
        lemma_same_data_edges(p, q, a.name, a.edges, b.edges);
    }
}

proof fn lemma_same_ordering_shapes(p: PipelineView, q: PipelineView, k: int)
    requires
        same_structure(p, q),
        0 <= k <= p.nodes.len(),
    ensures
        encoding::ordering_shapes(p, k) == encoding::ordering_shapes(q, k),
    decreases k,
{
    if k > 0 {
        lemma_same_ordering_shapes(p, q, k - 1);
        let a = p.nodes[k - 1];
        let b = q.nodes[k - 1];
        assert(a.name == b.name);
        let x = a.declaration.ordering;
        let y = b.declaration.ordering;
        let f = |name: Seq<char>| encoding::is_ordered_after(p, x, name);
        let g = |name: Seq<char>| encoding::is_ordered_after(q, y, name);
        assert forall|name: Seq<char>| #[trigger] f(name) == g(name) by {
            if f(name) {
                let e = choose|e: int| 0 <= e < x.len() && checks::producer_text(p, (#[trigger] x[e]).upstream) == name;
                let id = x[e].upstream;
                lemma_same_resolution(p, q, id);
                assert(ordered_behind(p.nodes[k - 1], id));
                let m = choose|m: int| 0 <= m < y.len() && (#[trigger] y[m]).upstream == id;
                assert(checks::producer_text(q, y[m].upstream) == name);
            }
            if g(name) {
                let e = choose|e: int| 0 <= e < y.len() && checks::producer_text(q, (#[trigger] y[e]).upstream) == name;
                let id = y[e].upstream;
                lemma_same_resolution(p, q, id);
                assert(ordered_behind(q.nodes[k - 1], id));
                let m = choose|m: int| 0 <= m < x.len() && (#[trigger] x[m]).upstream == id;
                assert(checks::producer_text(p, x[m].upstream) == name);
            }
        }
        assert(f =~= g);
    }
}

/// The structural fingerprint depends on the structure alone: policies, group
/// labels, receive modes, the failure mode and the environment allowlist leave it as
/// it is.
pub proof fn law_structure_fixes_structural_fingerprint(p: PipelineView, q: PipelineView)
    requires
        same_structure(p, q),
    ensures
        encoding::structural_encoding(p) == encoding::structural_encoding(q),
        encoding::fingerprint(p).structural == encoding::fingerprint(q).structural,
{
    let n = p.nodes.len() as int;
    lemma_same_node_shapes(p, q, n);
    lemma_same_data_edge_shapes(p, q, n);
    lemma_same_ordering_shapes(p, q, n);
}

/// Whether two pipelines have one set of effective policies, by node name. The
/// overriding class counts only through the effective class.
pub open spec fn same_policies(p: PipelineView, q: PipelineView) -> bool {
    &&& p.nodes.len() == q.nodes.len()
    &&& forall|i: int|
        0 <= i < p.nodes.len() ==> {
            let a = #[trigger] p.nodes[i];
            let b = q.nodes[i];
            &&& a.name == b.name
            &&& a.effective_class() == b.effective_class()
            &&& (NodePolicy { class_override: None, ..a.policy() }) == (NodePolicy { class_override: None, ..b.policy() })
        }
}

proof fn lemma_same_policies(p: PipelineView, q: PipelineView, k: int)
    requires
        same_policies(p, q),
        0 <= k <= p.nodes.len(),
    ensures
        encoding::policies_encoding(p, k) == encoding::policies_encoding(q, k),
    decreases k,
{
    if k > 0 {
        lemma_same_policies(p, q, k - 1);
        let a = p.nodes[k - 1];
        let b = q.nodes[k - 1];
        assert(a.name == b.name);
        let x = NodePolicy { class_override: None, ..a.policy() };
        let y = NodePolicy { class_override: None, ..b.policy() };
        assert(x == y);
        assert(x.retries == y.retries && x.backoff == y.backoff && x.timeout == y.timeout && x.cost == y.cost);
    }
}

/// The policy hash depends on the effective policies alone: edges, trigger rules,
/// group labels, stable names, the failure mode and the environment allowlist leave
/// it as it is.
pub proof fn law_policies_fix_policy_hash(p: PipelineView, q: PipelineView)
    requires
        same_policies(p, q),
    ensures
        encoding::policy_encoding(p) == encoding::policy_encoding(q),
        encoding::fingerprint(p).policy == encoding::fingerprint(q).policy,
{
    lemma_same_policies(p, q, p.nodes.len() as int);
}

/// There is one default policy: writing every default out is the same as stating
/// nothing.
pub proof fn law_default_policy_is_one(a: NodePolicy, b: NodePolicy)
    requires
        a.is_default(),
        b.is_default(),
    ensures
        a == b,
{
    broadcast use crate::time::lemma_duration_ext;

    assert(a.backoff.base@ == b.backoff.base@);
    assert(a.backoff.cap@ == b.backoff.cap@);
}

} // verus!
