//! What holds of the readiness tracker over a whole run.

use super::tracker::{self, Cascade, Decision, TrackerView, WaitingView};
use super::{RuleOutcome, StateClass};
use crate::binding::TriggerRule;
use crate::assembly::artifact::ArtifactView;
use crate::assembly::graph;
use crate::context::TerminalState;
use crate::flow::{self, PipelineView};
use crate::handle::NodeId;
use crate::readiness;
use vstd::prelude::*;

verus! {

/// Upstreams and dependents mirror each other, and are nodes, each listed once.
pub open spec fn linked(nodes: Seq<WaitingView>) -> bool {
    &&& forall|i: int| 0 <= i < nodes.len() ==> (#[trigger] nodes[i]).ups.no_duplicates()
    &&& forall|i: int| 0 <= i < nodes.len() ==> (#[trigger] nodes[i]).dependents.no_duplicates()
    &&& forall|i: int, u: int| #[trigger]
        nodes[i].ups.contains(u) && 0 <= i < nodes.len() ==> 0 <= u < nodes.len()
    &&& forall|i: int, d: int| #[trigger]
        nodes[i].dependents.contains(d) && 0 <= i < nodes.len() ==> 0 <= d < nodes.len()
    &&& forall|i: int, u: int|
        #![trigger nodes[i].ups.contains(u)]
        #![trigger nodes[u].dependents.contains(i)]
        0 <= i < nodes.len() && 0 <= u < nodes.len() ==> (nodes[i].ups.contains(u)
            <==> nodes[u].dependents.contains(i))
}

/// Whether a node has heard of an upstream.
pub open spec fn has_heard(node: WaitingView, u: int) -> bool {
    exists|k: int| 0 <= k < node.heard.len() && (#[trigger] node.heard[k]).0 == u
}

/// What a node has heard is true of its upstreams, and it has heard of each once.
pub open spec fn truthful(nodes: Seq<WaitingView>, i: int) -> bool {
    let node = nodes[i];
    &&& forall|k: int|
        0 <= k < node.heard.len() ==> {
            let (u, s) = #[trigger] node.heard[k];
            node.ups.contains(u) && nodes[u].decided == Some(s)
        }
    &&& forall|a: int, b: int|
        0 <= a < b < node.heard.len() ==> (#[trigger] node.heard[a]).0 != (#[trigger] node.heard[b]).0
}

/// A node that has not ended has heard of every upstream that has.
pub open spec fn informed(nodes: Seq<WaitingView>, i: int, u: int) -> bool {
    nodes[i].decided is None && nodes[i].ups.contains(u) && nodes[u].decided is Some ==> has_heard(nodes[i], u)
}

/// The state of a tracker between calls.
pub open spec fn sound(nodes: Seq<WaitingView>) -> bool {
    &&& linked(nodes)
    &&& forall|i: int| 0 <= i < nodes.len() ==> #[trigger] truthful(nodes, i)
    &&& forall|i: int, u: int|
        0 <= i < nodes.len() && 0 <= u < nodes.len() ==> #[trigger] informed(nodes, i, u)
}

/// The state of a tracker while the dependents of `t` are being told: those from the
/// `k`th on have not heard of `t` yet.
spec fn telling(nodes: Seq<WaitingView>, t: int, s: TerminalState, listeners: Seq<int>, k: int) -> bool {
    &&& linked(nodes)
    &&& 0 <= t < nodes.len()
    &&& nodes[t].decided == Some(s)
    &&& nodes[t].dependents == listeners
    &&& forall|i: int| 0 <= i < nodes.len() ==> #[trigger] truthful(nodes, i)
    &&& forall|i: int, u: int|
        0 <= i < nodes.len() && 0 <= u < nodes.len() && u != t ==> #[trigger] informed(nodes, i, u)
    &&& forall|j: int| 0 <= j < k && j < listeners.len() ==> #[trigger] informed(nodes, listeners[j], t)
    &&& forall|j: int| k <= j < listeners.len() ==> !has_heard(nodes[#[trigger] listeners[j]], t)
}

/// A tracker at the start of a run is sound.
pub proof fn law_start_is_sound(p: PipelineView, ordering: Map<Seq<char>, Seq<Seq<char>>>)
    ensures
        sound(TrackerView::of(p, ordering).nodes),
{
    let n = p.nodes.len() as int;
    let nodes = TrackerView::of(p, ordering).nodes;
    assert forall|i: int| 0 <= i < n implies (#[trigger] nodes[i]).ups.no_duplicates()
        && nodes[i].dependents.no_duplicates() by {
        tracker::lemma_ascending(n, |u: int| tracker::waits_for(p, ordering, i, u));
        tracker::lemma_ascending(n, |d: int| tracker::waits_for(p, ordering, d, i));
    }
    assert forall|i: int, u: int| 0 <= i < n && #[trigger] nodes[i].ups.contains(u) implies 0 <= u < n by {
        tracker::lemma_ascending(n, |u: int| tracker::waits_for(p, ordering, i, u));
    }
    assert forall|i: int, d: int| 0 <= i < n && #[trigger] nodes[i].dependents.contains(d) implies 0 <= d < n by {
        tracker::lemma_ascending(n, |d: int| tracker::waits_for(p, ordering, d, i));
    }
    assert forall|i: int, u: int|
        #![trigger nodes[i].ups.contains(u)]
        #![trigger nodes[u].dependents.contains(i)]
        0 <= i < n && 0 <= u < n implies (nodes[i].ups.contains(u) <==> nodes[u].dependents.contains(i)) by {
        tracker::lemma_ascending(n, |x: int| tracker::waits_for(p, ordering, i, x));
        tracker::lemma_ascending(n, |d: int| tracker::waits_for(p, ordering, d, u));
    }
    assert forall|i: int| 0 <= i < n implies #[trigger] truthful(nodes, i) by {}
    assert forall|i: int, u: int| 0 <= i < n && 0 <= u < n implies #[trigger] informed(nodes, i, u) by {}
}

/// At the start of a run each node stands under its own identity and rule, has heard of
/// nothing and not ended, and waits for exactly the nodes that it takes data from and those
/// that it is told to run after.
pub proof fn law_a_node_waits_for_its_upstreams(
    p: PipelineView,
    ordering: Map<Seq<char>, Seq<Seq<char>>>,
    i: int,
    u: int,
)
    requires
        0 <= i < p.nodes.len(),
    ensures
        ({
            let start = TrackerView::of(p, ordering);
            let node = start.nodes[i];
            let name = p.nodes[i].name;
            let takes = exists|e: int|
                0 <= e < p.nodes[i].edges.len() && p.resolves_to((#[trigger] p.nodes[i].edges[e]).upstream, u);
            let follows = ordering.dom().contains(name) && exists|k: int|
                0 <= k < ordering[name].len() && p.resolves_to(
                    crate::handle::node_id(#[trigger] ordering[name][k]),
                    u,
                );
            &&& start.nodes.len() == p.nodes.len()
            &&& node.id == p.nodes[i].id
            &&& node.rule == p.nodes[i].declaration.trigger_rule
            &&& node.heard.len() == 0
            &&& node.decided is None
            &&& node.ups.contains(u) <==> takes || follows
            &&& node.remaining() == node.ups.len()
        }),
{
    let n = p.nodes.len() as int;
    let name = p.nodes[i].name;
    let edges = p.nodes[i].edges;
    let sources = graph::upstream_ids(edges);
    tracker::lemma_ascending(n, |u: int| tracker::waits_for(p, ordering, i, u));
    graph::lemma_resolved_contains(p, sources, u);
    graph::lemma_resolved_bounds(p, sources);
    assert forall|e: int| 0 <= e < edges.len() implies (p.has_node((#[trigger] edges[e]).upstream) && p.index_of(
        edges[e].upstream,
    ) == u) == p.resolves_to(edges[e].upstream, u) by {
        lemma_resolution(p, edges[e].upstream, u);
    }
    if graph::data_inputs(p, i).contains(u) {
        let k = choose|k: int|
            0 <= k < sources.len() && p.has_node(#[trigger] sources[k]) && p.index_of(sources[k]) == u;
        assert(edges[k].upstream == sources[k]);
        assert(p.resolves_to(p.nodes[i].edges[k].upstream, u));
    }
    if exists|e: int| 0 <= e < p.nodes[i].edges.len() && p.resolves_to((#[trigger] p.nodes[i].edges[e]).upstream, u) {
        let e = choose|e: int|
            0 <= e < p.nodes[i].edges.len() && p.resolves_to((#[trigger] p.nodes[i].edges[e]).upstream, u);
        assert(sources[e] == edges[e].upstream);
    }
    if ordering.dom().contains(name) {
        assert forall|k: int| 0 <= k < ordering[name].len() implies (p.has_node(
            crate::handle::node_id(#[trigger] ordering[name][k]),
        ) && p.index_of(crate::handle::node_id(ordering[name][k])) == u) == p.resolves_to(
            crate::handle::node_id(ordering[name][k]),
            u,
        ) by {
            lemma_resolution(p, crate::handle::node_id(ordering[name][k]), u);
        }
    }
}

proof fn lemma_resolution(p: PipelineView, id: NodeId, u: int)
    ensures
        (p.has_node(id) && p.index_of(id) == u) == p.resolves_to(id, u),
{
    if p.has_node(id) {
        flow::lemma_resolves(p, id);
    }
    if p.resolves_to(id, u) {
        flow::lemma_resolves_unique(p, id, u);
    }
}

/// The nodes that are ready at the start are those that wait for nothing, in name order.
pub proof fn law_what_waits_for_nothing_is_ready(p: PipelineView, ordering: Map<Seq<char>, Seq<Seq<char>>>)
    ensures
        ({
            let start = TrackerView::of(p, ordering);
            exists|places: Seq<int>|
                {
                    &&& #[trigger] places.len() == start.initial_ready.len()
                    &&& forall|a: int, b: int| 0 <= a < b < places.len() ==> #[trigger] places[a] < #[trigger] places[b]
                    &&& forall|a: int| 0 <= a < places.len() ==> start.initial_ready[a] == p.nodes[#[trigger] places[a]].id
                    &&& forall|i: int| #[trigger]
                        places.contains(i) <==> 0 <= i < p.nodes.len() && start.nodes[i].ups.len() == 0
                }
        }),
{
    let start = TrackerView::of(p, ordering);
    let n = p.nodes.len() as int;
    let property = |i: int| start.nodes[i].ups.len() == 0;
    let places = tracker::ascending(n, property);
    tracker::lemma_ascending(n, property);
    lemma_ascending_ascends(n, property);
    let nodes = start.nodes;
    let listed = tracker::ascending(n, |i: int| nodes[i].ups.len() == 0);
    assert(property =~= (|i: int| nodes[i].ups.len() == 0));
    assert forall|a: int| 0 <= a < places.len() implies start.initial_ready[a] == p.nodes[#[trigger] places[a]].id by {
        assert(places.contains(places[a]));
    }
    assert(places.len() == start.initial_ready.len());
}

proof fn lemma_ascending_ascends(n: int, property: spec_fn(int) -> bool)
    ensures
        forall|a: int, b: int|
            0 <= a < b < tracker::ascending(n, property).len() ==> #[trigger] tracker::ascending(n, property)[a]
                < #[trigger] tracker::ascending(n, property)[b],
    decreases n,
{
    if n > 0 {
        lemma_ascending_ascends(n - 1, property);
        tracker::lemma_ascending(n - 1, property);
    }
}

/// A tracker without further ordering starts from the counts that assembly made: a node
/// waits for as many upstreams as it takes data from.
pub proof fn law_countdown_starts_as_assembled(p: PipelineView, i: int)
    requires
        0 <= i < p.nodes.len(),
    ensures
        graph::capped(TrackerView::of(p, Map::empty()).nodes[i].remaining()) == ArtifactView::of(p).remaining_deps[i],
{
    let n = p.nodes.len() as int;
    let edges = p.nodes[i].edges;
    let sources = graph::upstream_ids(edges);
    let ups = TrackerView::of(p, Map::empty()).nodes[i].ups;
    let present = graph::present_upstreams(p, edges);
    let ids = ups.map_values(|u: int| p.nodes[u].id);
    tracker::lemma_ascending(n, |u: int| tracker::waits_for(p, Map::empty(), i, u));
    assert forall|u: int| #[trigger] ups.contains(u) implies present.contains(p.nodes[u].id) && p.index_of(
        p.nodes[u].id,
    ) == u by {
        graph::lemma_resolved_contains(p, sources, u);
        let k = choose|k: int|
            0 <= k < sources.len() && p.has_node(#[trigger] sources[k]) && p.index_of(sources[k]) == u;
        flow::lemma_resolves(p, sources[k]);
        assert(edges[k].upstream == sources[k]);
        graph::lemma_present_upstreams(p, edges, sources[k]);
    }
    assert forall|a: int, b: int| 0 <= a < ids.len() && 0 <= b < ids.len() && a != b implies ids[a] != ids[b] by {
        assert(ups.contains(ups[a]) && ups.contains(ups[b]));
    }
    assert forall|id: NodeId| #[trigger] ids.to_set().contains(id) <==> present.contains(id) by {
        graph::lemma_present_upstreams(p, edges, id);
        if ids.contains(id) {
            let k = choose|k: int| 0 <= k < ids.len() && ids[k] == id;
            assert(ups.contains(ups[k]));
        }
        if present.contains(id) {
            let k = choose|k: int| 0 <= k < edges.len() && (#[trigger] edges[k]).upstream == id;
            let u = p.index_of(id);
            assert(sources[k] == id);
            flow::lemma_resolves(p, id);
            graph::lemma_resolved_contains(p, sources, u);
            assert(graph::data_inputs(p, i).contains(u));
            assert(ups.contains(u));
            let m = choose|m: int| 0 <= m < ups.len() && ups[m] == u;
            assert(ids[m] == id);
        }
    }
    assert(ids.to_set() =~= present);
    ids.unique_seq_to_set();
}

/// Whether a state is a success, now or in an earlier run.
pub open spec fn went_well(s: TerminalState) -> bool {
    s == TerminalState::Succeeded || s == TerminalState::SatisfiedFromPrior
}

/// Whether a state is a skip, by the node itself or passed on to it.
pub open spec fn was_skipped(s: TerminalState) -> bool {
    s == TerminalState::Skipped || s == TerminalState::UpstreamSkipped
}

/// Whether a state is a failure, by the node itself or passed on to it.
pub open spec fn went_wrong(s: TerminalState) -> bool {
    s == TerminalState::Failed || s == TerminalState::TimedOut || s == TerminalState::Abandoned || s
        == TerminalState::UpstreamFailed
}

/// A node that needs all its upstreams to succeed runs exactly where each of them did, in
/// this run or an earlier one. One failure among them is passed on as a failure, whatever
/// the others did; so is a skip beside a cancellation. Skips alone are passed on as a
/// skip, and cancellations alone as a cancellation.
pub proof fn law_all_succeeded_needs_every_success(states: Seq<TerminalState>)
    ensures
        readiness::outcome(TriggerRule::AllSucceeded, states) == RuleOutcome::Fires <==> (forall|i: int|
            0 <= i < states.len() ==> went_well(#[trigger] states[i])),
        (exists|i: int| 0 <= i < states.len() && went_wrong(#[trigger] states[i])) ==> readiness::outcome(
            TriggerRule::AllSucceeded,
            states,
        ) == RuleOutcome::Propagate(TerminalState::UpstreamFailed),
        (exists|i: int, j: int|
            #![trigger states[i], states[j]]
            0 <= i < states.len() && 0 <= j < states.len() && was_skipped(states[i]) && states[j]
                == TerminalState::Cancelled) ==> readiness::outcome(TriggerRule::AllSucceeded, states)
            == RuleOutcome::Propagate(TerminalState::UpstreamFailed),
        (exists|i: int| 0 <= i < states.len() && was_skipped(#[trigger] states[i])) && (forall|i: int|
            0 <= i < states.len() ==> went_well(#[trigger] states[i]) || was_skipped(states[i]))
            ==> readiness::outcome(TriggerRule::AllSucceeded, states) == RuleOutcome::Propagate(
            TerminalState::UpstreamSkipped,
        ),
        (exists|i: int| 0 <= i < states.len() && #[trigger] states[i] == TerminalState::Cancelled) && (forall|i: int|
            0 <= i < states.len() ==> went_well(#[trigger] states[i]) || states[i] == TerminalState::Cancelled)
            ==> readiness::outcome(TriggerRule::AllSucceeded, states) == RuleOutcome::Propagate(
            TerminalState::Cancelled,
        ),
{
    let skip = readiness::some_of(states, StateClass::Skip);
    let failure = readiness::some_of(states, StateClass::Failure);
    let stop = readiness::some_of(states, StateClass::Stop);
    assert forall|i: int| 0 <= i < states.len() && !skip && !failure && !stop implies went_well(
        #[trigger] states[i],
    ) by {
        let c = readiness::class(states[i]);
        assert(c == StateClass::Success || c == StateClass::Skip || c == StateClass::Failure || c == StateClass::Stop);
    }
    if skip {
        let i = choose|i: int| 0 <= i < states.len() && readiness::class(#[trigger] states[i]) == StateClass::Skip;
        assert(was_skipped(states[i]) && !went_well(states[i]));
    }
    if failure {
        let i = choose|i: int| 0 <= i < states.len() && readiness::class(#[trigger] states[i]) == StateClass::Failure;
        assert(went_wrong(states[i]) && !went_well(states[i]));
    }
    if stop {
        let i = choose|i: int| 0 <= i < states.len() && readiness::class(#[trigger] states[i]) == StateClass::Stop;
        assert(states[i] == TerminalState::Cancelled && !went_well(states[i]));
    }
    if exists|i: int| 0 <= i < states.len() && was_skipped(#[trigger] states[i]) {
        let i = choose|i: int| 0 <= i < states.len() && was_skipped(#[trigger] states[i]);
        assert(readiness::class(states[i]) == StateClass::Skip);
    }
    if exists|i: int| 0 <= i < states.len() && went_wrong(#[trigger] states[i]) {
        let i = choose|i: int| 0 <= i < states.len() && went_wrong(#[trigger] states[i]);
        assert(readiness::class(states[i]) == StateClass::Failure);
    }
    if exists|i: int| 0 <= i < states.len() && #[trigger] states[i] == TerminalState::Cancelled {
        let i = choose|i: int| 0 <= i < states.len() && #[trigger] states[i] == TerminalState::Cancelled;
        assert(readiness::class(states[i]) == StateClass::Stop);
    }
}

/// A node that runs in any case runs whatever its upstreams did. A node that runs on a
/// failure runs exactly where one of its upstreams failed, and is skipped otherwise.
pub proof fn law_cleanup_rules_fire_when_they_should(states: Seq<TerminalState>)
    ensures
        readiness::outcome(TriggerRule::AllTerminal, states) == RuleOutcome::Fires,
        readiness::outcome(TriggerRule::AnyFailed, states) == RuleOutcome::Fires <==> (exists|i: int|
            0 <= i < states.len() && went_wrong(#[trigger] states[i])),
        (forall|i: int| 0 <= i < states.len() ==> !went_wrong(#[trigger] states[i])) ==> readiness::outcome(
            TriggerRule::AnyFailed,
            states,
        ) == RuleOutcome::Propagate(TerminalState::Skipped),
{
    if readiness::some_of(states, StateClass::Failure) {
        let i = choose|i: int| 0 <= i < states.len() && readiness::class(#[trigger] states[i]) == StateClass::Failure;
        assert(went_wrong(states[i]));
    }
    if exists|i: int| 0 <= i < states.len() && went_wrong(#[trigger] states[i]) {
        let i = choose|i: int| 0 <= i < states.len() && went_wrong(#[trigger] states[i]);
        assert(readiness::class(states[i]) == StateClass::Failure);
    }
}

/// What one node hearing one more thing leaves as it was.
proof fn lemma_tell_frame(c: Cascade, t: int, s: TerminalState, d: int)
    ensures
        ({
            let e = c.tell(t, s, d);
            &&& e.nodes.len() == c.nodes.len()
            &&& forall|i: int|
                0 <= i < c.nodes.len() ==> (#[trigger] e.nodes[i]).ups == c.nodes[i].ups && e.nodes[i].dependents
                    == c.nodes[i].dependents && e.nodes[i].decided == c.nodes[i].decided && e.nodes[i].id
                    == c.nodes[i].id && e.nodes[i].rule == c.nodes[i].rule
            &&& forall|i: int| 0 <= i < c.nodes.len() && i != d ==> #[trigger] e.nodes[i] == c.nodes[i]
            &&& 0 <= d < c.nodes.len() && c.nodes[d].decided is None ==> e.nodes[d].heard == c.nodes[d].heard.push(
                (t, s),
            )
            &&& 0 <= d < c.nodes.len() && c.nodes[d].decided is Some ==> e.nodes[d] == c.nodes[d]
        }),
{
}

proof fn lemma_linked_frame(a: Seq<WaitingView>, b: Seq<WaitingView>)
    requires
        linked(a),
        a.len() == b.len(),
        forall|i: int|
            0 <= i < a.len() ==> (#[trigger] b[i]).ups == a[i].ups && b[i].dependents == a[i].dependents,
    ensures
        linked(b),
{
    assert forall|i: int| 0 <= i < b.len() implies (#[trigger] b[i]).ups.no_duplicates() by {
        assert(a[i].ups.no_duplicates());
    }
    assert forall|i: int| 0 <= i < b.len() implies (#[trigger] b[i]).dependents.no_duplicates() by {
        assert(a[i].dependents.no_duplicates());
    }
    assert forall|i: int, u: int| #[trigger] b[i].ups.contains(u) && 0 <= i < b.len() implies 0 <= u < b.len() by {
        assert(a[i].ups.contains(u));
    }
    assert forall|i: int, d: int| #[trigger] b[i].dependents.contains(d) && 0 <= i < b.len() implies 0 <= d
        < b.len() by {
        assert(a[i].dependents.contains(d));
    }
    assert forall|i: int, u: int|
        #![trigger b[i].ups.contains(u)]
        #![trigger b[u].dependents.contains(i)]
        0 <= i < b.len() && 0 <= u < b.len() implies (b[i].ups.contains(u) <==> b[u].dependents.contains(i)) by {
        assert(a[i].ups.contains(u) <==> a[u].dependents.contains(i));
    }
}

proof fn lemma_telling_step(c: Cascade, t: int, s: TerminalState, listeners: Seq<int>, k: int)
    requires
        0 <= k < listeners.len(),
        telling(c.nodes, t, s, listeners, k),
    ensures
        telling(c.tell(t, s, listeners[k]).nodes, t, s, listeners, k + 1),
{
    let d = listeners[k];
    let a = c.nodes;
    let b = c.tell(t, s, d).nodes;
    lemma_tell_frame(c, t, s, d);
    lemma_linked_frame(a, b);
    assert(a[t].dependents.contains(d));
    assert(0 <= d < a.len());
    assert(a[d].ups.contains(t));
    assert(!has_heard(a[d], t));
    assert forall|i: int| 0 <= i < b.len() implies #[trigger] truthful(b, i) by {
        assert(truthful(a, i));
        if i == d && a[d].decided is None {
            assert forall|m: int| 0 <= m < b[i].heard.len() implies {
                let (u, x) = #[trigger] b[i].heard[m];
                b[i].ups.contains(u) && b[u].decided == Some(x)
            } by {
                if m < a[i].heard.len() {
                    assert(b[i].heard[m] == a[i].heard[m]);
                    let u = a[i].heard[m].0;
                    assert(a[i].ups.contains(u));
                    assert(b[u].decided == a[u].decided);
                } else {
                    assert(b[t].decided == a[t].decided);
                }
            }
            assert forall|x: int, y: int| 0 <= x < y < b[i].heard.len() implies (#[trigger] b[i].heard[x]).0 != (
            #[trigger] b[i].heard[y]).0 by {
                assert(b[i].heard[x] == a[i].heard[x]);
                if y < a[i].heard.len() {
                    assert(b[i].heard[y] == a[i].heard[y]);
                } else {
                    assert(a[i].heard[x].0 != t);
                }
            }
        } else {
            assert(b[i] == a[i]);
            assert forall|m: int| 0 <= m < b[i].heard.len() implies {
                let (u, x) = #[trigger] b[i].heard[m];
                b[i].ups.contains(u) && b[u].decided == Some(x)
            } by {
                let u = a[i].heard[m].0;
                assert(a[i].ups.contains(u));
                assert(b[u].decided == a[u].decided);
            }
        }
    }
    assert forall|i: int, u: int| 0 <= i < b.len() && 0 <= u < b.len() && u != t implies #[trigger] informed(
        b,
        i,
        u,
    ) by {
        assert(informed(a, i, u));
        assert(b[u].decided == a[u].decided);
        assert(b[i].decided == a[i].decided);
        if has_heard(a[i], u) {
            lemma_heard_kept(a[i], b[i], u);
        }
    }
    assert forall|j: int| 0 <= j < k + 1 && j < listeners.len() implies #[trigger] informed(b, listeners[j], t) by {
        let i = listeners[j];
        assert(a[t].dependents.contains(i));
        if j < k {
            assert(informed(a, i, t));
            if has_heard(a[i], t) {
                lemma_heard_kept(a[i], b[i], t);
            }
        } else if a[d].decided is None {
            assert(b[d].heard[a[d].heard.len() as int] == (t, s));
        }
        assert(b[i].decided == a[i].decided);
    }
    assert forall|j: int| k + 1 <= j < listeners.len() implies !has_heard(b[#[trigger] listeners[j]], t) by {
        assert(listeners[j] != listeners[k]);
        assert(a[t].dependents.contains(listeners[j]));
        assert(b[listeners[j]] == a[listeners[j]]);
    }
}

proof fn lemma_heard_kept(a: WaitingView, b: WaitingView, u: int)
    requires
        has_heard(a, u),
        b.heard == a.heard || exists|x: (int, TerminalState)| b.heard == #[trigger] a.heard.push(x),
    ensures
        has_heard(b, u),
{
    let k = choose|k: int| 0 <= k < a.heard.len() && (#[trigger] a.heard[k]).0 == u;
    assert(b.heard[k].0 == u);
}

proof fn lemma_telling_all(c: Cascade, t: int, s: TerminalState, listeners: Seq<int>, k: int)
    requires
        0 <= k <= listeners.len(),
        telling(c.nodes, t, s, listeners, 0),
    ensures
        telling(c.tell_all(t, s, listeners, k).nodes, t, s, listeners, k),
    decreases k,
{
    if k > 0 {
        lemma_telling_all(c, t, s, listeners, k - 1);
        lemma_telling_step(c.tell_all(t, s, listeners, k - 1), t, s, listeners, k - 1);
    }
}

/// A node that ends in a sound tracker has not been heard of by any dependent.
proof fn lemma_begin_telling(c: Cascade, t: int, s: TerminalState)
    requires
        sound(c.nodes),
        0 <= t < c.nodes.len(),
        c.nodes[t].decided is None,
    ensures
        telling(
            c.nodes.update(t, WaitingView { decided: Some(s), ..c.nodes[t] }),
            t,
            s,
            c.nodes[t].dependents,
            0,
        ),
{
    let a = c.nodes;
    let listeners = a[t].dependents;
    let b = a.update(t, WaitingView { decided: Some(s), ..a[t] });
    lemma_linked_frame(a, b);
    assert forall|i: int| 0 <= i < b.len() implies #[trigger] truthful(b, i) by {
        assert(truthful(a, i));
        assert(b[i].heard == a[i].heard);
        assert forall|m: int| 0 <= m < b[i].heard.len() implies {
            let (u, x) = #[trigger] b[i].heard[m];
            b[i].ups.contains(u) && b[u].decided == Some(x)
        } by {
            let u = a[i].heard[m].0;
            assert(a[i].ups.contains(u));
            assert(a[u].decided is Some);
        }
    }
    assert forall|i: int, u: int| 0 <= i < b.len() && 0 <= u < b.len() && u != t implies #[trigger] informed(
        b,
        i,
        u,
    ) by {
        assert(informed(a, i, u));
        if has_heard(a[i], u) {
            lemma_heard_kept(a[i], b[i], u);
        }
    }
    assert forall|j: int| 0 <= j < listeners.len() implies !has_heard(b[#[trigger] listeners[j]], t) by {
        let i = listeners[j];
        assert(a[t].dependents.contains(i));
        assert(truthful(a, i));
        if has_heard(b[i], t) {
            let k = choose|k: int| 0 <= k < b[i].heard.len() && (#[trigger] b[i].heard[k]).0 == t;
            assert(a[i].heard[k].0 == t);
        }
    }
}

proof fn lemma_settle_sound(c: Cascade, t: int, s: TerminalState)
    requires
        sound(c.nodes),
        0 <= t < c.nodes.len(),
        c.nodes[t].decided is None,
    ensures
        sound(c.settle(t, s).nodes),
{
    let listeners = c.nodes[t].dependents;
    let ended = Cascade { nodes: c.nodes.update(t, WaitingView { decided: Some(s), ..c.nodes[t] }), ..c };
    lemma_begin_telling(c, t, s);
    lemma_telling_all(ended, t, s, listeners, listeners.len() as int);
    let e = c.settle(t, s).nodes;
    assert forall|i: int, u: int| 0 <= i < e.len() && 0 <= u < e.len() implies #[trigger] informed(e, i, u) by {
        if u == t && e[i].ups.contains(t) {
            assert(e[t].dependents.contains(i));
            let j = choose|j: int| 0 <= j < listeners.len() && listeners[j] == i;
            assert(informed(e, listeners[j], t));
        }
    }
}

proof fn lemma_run_sound(c: Cascade)
    requires
        sound(c.nodes),
    ensures
        sound(c.run().nodes),
    decreases tracker::undecided(c.nodes), c.stack.len(),
{
    if c.stack.len() > 0 {
        let (t, s) = c.stack.last();
        let rest = Cascade { stack: c.stack.drop_last(), ..c };
        if !(0 <= t < c.nodes.len()) || c.nodes[t].decided is Some {
            lemma_run_sound(rest);
        } else {
            tracker::lemma_settle_decides(rest, t, s);
            lemma_settle_sound(rest, t, s);
            lemma_run_sound(rest.settle(t, s));
        }
    }
}

/// Every notification leaves a sound tracker sound.
pub proof fn law_notification_keeps_sound(v: TrackerView, id: NodeId, state: TerminalState)
    requires
        sound(v.nodes),
    ensures
        sound(v.notified(id, state).nodes),
{
    if v.has(id) {
        lemma_run_sound(
            Cascade {
                nodes: v.nodes,
                stack: seq![(v.place(id), state)],
                out: Seq::new(v.nodes.len(), |i: int| None),
            },
        );
    }
}

/// How many of the places have not ended.
pub open spec fn pending_among(nodes: Seq<WaitingView>, places: Seq<int>) -> nat
    decreases places.len(),
{
    if places.len() == 0 {
        0
    } else {
        pending_among(nodes, places.drop_last()) + (if nodes[places.last()].decided is None {
            1nat
        } else {
            0nat
        })
    }
}

proof fn lemma_pending_split(nodes: Seq<WaitingView>, places: Seq<int>, heard: Seq<int>)
    requires
        places.no_duplicates(),
        heard.no_duplicates(),
        forall|u: int| #[trigger] heard.contains(u) <==> places.contains(u) && nodes[u].decided is Some,
    ensures
        places.len() == heard.len() + pending_among(nodes, places),
    decreases places.len(),
{
    if places.len() == 0 {
        if heard.len() > 0 {
            assert(heard.contains(heard[0]));
        }
    } else {
        let u = places.last();
        let front = places.drop_last();
        assert(places[places.len() - 1] == u);
        assert(!front.contains(u)) by {
            if front.contains(u) {
                let k = choose|k: int| 0 <= k < front.len() && front[k] == u;
                assert(places[k] == places[places.len() - 1]);
            }
        }
        assert forall|x: int| #[trigger] front.contains(x) <==> places.contains(x) && x != u by {
            if front.contains(x) {
                let k = choose|k: int| 0 <= k < front.len() && front[k] == x;
                assert(places[k] == x);
            }
            if places.contains(x) && x != u {
                let k = choose|k: int| 0 <= k < places.len() && places[k] == x;
                assert(front[k] == x);
            }
        }
        if nodes[u].decided is Some {
            assert(places.contains(u));
            assert(heard.contains(u));
            let k = choose|k: int| 0 <= k < heard.len() && heard[k] == u;
            let less = heard.remove(k);
            assert forall|x: int| #[trigger] less.contains(x) <==> heard.contains(x) && x != u by {
                if less.contains(x) {
                    let m = choose|m: int| 0 <= m < less.len() && less[m] == x;
                    let om = if m < k { m } else { m + 1 };
                    assert(heard[om] == x);
                    assert(heard[om] != heard[k]);
                }
                if heard.contains(x) && x != u {
                    let m = choose|m: int| 0 <= m < heard.len() && heard[m] == x;
                    let nm = if m < k { m } else { m - 1 };
                    assert(less[nm] == x);
                }
            }
            assert forall|x: int, y: int| 0 <= x < less.len() && 0 <= y < less.len() && x != y implies less[x]
                != less[y] by {
                let ox = if x < k { x } else { x + 1 };
                let oy = if y < k { y } else { y + 1 };
                assert(heard[ox] != heard[oy]);
            }
            lemma_pending_split(nodes, front, less);
        } else {
            lemma_pending_split(nodes, front, heard);
        }
    }
}

/// The countdown of a node that has not ended is exact: it is the number of its
/// upstreams that have not ended.
pub proof fn law_countdown_is_exact(nodes: Seq<WaitingView>, i: int)
    requires
        sound(nodes),
        0 <= i < nodes.len(),
        nodes[i].decided is None,
    ensures
        nodes[i].remaining() == pending_among(nodes, nodes[i].ups),
{
    let node = nodes[i];
    let heard = node.heard.map_values(|h: (int, TerminalState)| h.0);
    assert(truthful(nodes, i));
    assert forall|a: int, b: int| 0 <= a < heard.len() && 0 <= b < heard.len() && a != b implies heard[a] != heard[b] by {
        if a < b {
            assert(node.heard[a].0 != node.heard[b].0);
        } else {
            assert(node.heard[b].0 != node.heard[a].0);
        }
    }
    assert forall|u: int| #[trigger] heard.contains(u) <==> node.ups.contains(u) && nodes[u].decided is Some by {
        if heard.contains(u) {
            let k = choose|k: int| 0 <= k < heard.len() && heard[k] == u;
            assert(node.heard[k].0 == u);
        }
        if node.ups.contains(u) && nodes[u].decided is Some {
            assert(informed(nodes, i, u));
            let k = choose|k: int| 0 <= k < node.heard.len() && (#[trigger] node.heard[k]).0 == u;
            assert(heard[k] == u);
        }
    }
    lemma_pending_split(nodes, node.ups, heard);
}

proof fn lemma_none_pending(nodes: Seq<WaitingView>, places: Seq<int>, u: int)
    requires
        pending_among(nodes, places) == 0,
        places.contains(u),
    ensures
        nodes[u].decided is Some,
    decreases places.len(),
{
    let k = choose|k: int| 0 <= k < places.len() && places[k] == u;
    let front = places.drop_last();
    if k < front.len() {
        assert(front[k] == u);
        lemma_none_pending(nodes, front, u);
    }
}

proof fn lemma_some_pending(nodes: Seq<WaitingView>, places: Seq<int>) -> (u: int)
    requires
        pending_among(nodes, places) > 0,
    ensures
        places.contains(u),
        nodes[u].decided is None,
    decreases places.len(),
{
    if nodes[places.last()].decided is None {
        assert(places[places.len() - 1] == places.last());
        places.last()
    } else {
        let u = lemma_some_pending(nodes, places.drop_last());
        let k = choose|k: int| 0 <= k < places.drop_last().len() && places.drop_last()[k] == u;
        assert(places[k] == u);
        u
    }
}

/// Where dependencies have no cycle, a run never stalls: while some node has not
/// ended, some such node has heard of all its upstreams.
pub proof fn law_run_never_stalls(nodes: Seq<WaitingView>, rank: spec_fn(int) -> nat, i: int)
    requires
        sound(nodes),
        forall|i: int, u: int|
            0 <= i < nodes.len() && #[trigger] nodes[i].ups.contains(u) ==> rank(u) < rank(i),
        0 <= i < nodes.len(),
        nodes[i].decided is None,
    ensures
        exists|j: int| 0 <= j < nodes.len() && (#[trigger] nodes[j]).decided is None && nodes[j].remaining() == 0,
    decreases rank(i),
{
    law_countdown_is_exact(nodes, i);
    if nodes[i].remaining() > 0 {
        let u = lemma_some_pending(nodes, nodes[i].ups);
        law_run_never_stalls(nodes, rank, u);
    }
}

/// Where one list without repetitions holds only what another holds, it is no longer;
/// and where it is as long, it holds everything.
proof fn lemma_no_longer(a: Seq<int>, b: Seq<int>)
    requires
        a.no_duplicates(),
        b.no_duplicates(),
        forall|x: int| #[trigger] a.contains(x) ==> b.contains(x),
    ensures
        a.len() <= b.len(),
        a.len() == b.len() ==> forall|x: int| #[trigger] b.contains(x) ==> a.contains(x),
{
    a.unique_seq_to_set();
    b.unique_seq_to_set();
    assert(a.to_set().subset_of(b.to_set())) by {
        assert forall|x: int| a.to_set().contains(x) implies b.to_set().contains(x) by {
            assert(a.contains(x));
        }
    }
    vstd::set_lib::lemma_len_subset(a.to_set(), b.to_set());
    if a.len() == b.len() {
        vstd::set_lib::lemma_subset_equality(a.to_set(), b.to_set());
        assert forall|x: int| #[trigger] b.contains(x) implies a.contains(x) by {
            assert(b.to_set().contains(x));
            assert(a.to_set().contains(x));
        }
    }
}

proof fn lemma_heard_places(nodes: Seq<WaitingView>, i: int) -> (heard: Seq<int>)
    requires
        0 <= i < nodes.len(),
        truthful(nodes, i),
    ensures
        heard.len() == nodes[i].heard.len(),
        heard.no_duplicates(),
        forall|u: int| #[trigger] heard.contains(u) ==> nodes[i].ups.contains(u) && nodes[u].decided is Some && has_heard(
            nodes[i],
            u,
        ),
{
    let node = nodes[i];
    let heard = node.heard.map_values(|h: (int, TerminalState)| h.0);
    assert forall|a: int, b: int| 0 <= a < heard.len() && 0 <= b < heard.len() && a != b implies heard[a] != heard[b] by {
        if a < b {
            assert(node.heard[a].0 != node.heard[b].0);
        } else {
            assert(node.heard[b].0 != node.heard[a].0);
        }
    }
    assert forall|u: int| #[trigger] heard.contains(u) implies node.ups.contains(u) && nodes[u].decided is Some
        && has_heard(node, u) by {
        let k = choose|k: int| 0 <= k < heard.len() && heard[k] == u;
        assert(node.heard[k].0 == u);
    }
    heard
}

/// A node that has heard of as many upstreams as it has, has heard of all, and all
/// have ended.
proof fn lemma_heard_of_all(nodes: Seq<WaitingView>, i: int, u: int)
    requires
        linked(nodes),
        0 <= i < nodes.len(),
        truthful(nodes, i),
        nodes[i].remaining() == 0,
        nodes[i].ups.contains(u),
    ensures
        nodes[u].decided is Some,
        has_heard(nodes[i], u),
{
    let heard = lemma_heard_places(nodes, i);
    lemma_no_longer(heard, nodes[i].ups);
    assert(heard.contains(u));
}

/// A node that has not heard of one of its upstreams is still waiting.
proof fn lemma_still_waiting(nodes: Seq<WaitingView>, i: int, t: int)
    requires
        linked(nodes),
        0 <= i < nodes.len(),
        truthful(nodes, i),
        nodes[i].ups.contains(t),
        !has_heard(nodes[i], t),
    ensures
        nodes[i].remaining() > 0,
{
    let heard = lemma_heard_places(nodes, i);
    let more = heard.push(t);
    assert(!heard.contains(t));
    assert forall|x: int| #[trigger] more.contains(x) implies nodes[i].ups.contains(x) by {
        let k = choose|k: int| 0 <= k < more.len() && more[k] == x;
        if k < heard.len() {
            assert(heard.contains(heard[k]));
        }
    }
    assert forall|a: int, b: int| 0 <= a < more.len() && 0 <= b < more.len() && a != b implies more[a] != more[b] by {
        if a < heard.len() && b < heard.len() {
            assert(heard[a] != heard[b]);
        } else if a < heard.len() {
            assert(heard.contains(heard[a]));
        } else {
            assert(heard.contains(heard[b]));
        }
    }
    lemma_no_longer(more, nodes[i].ups);
}

/// Whether an end is still to be told.
spec fn to_be_told(c: Cascade, d: int, s: TerminalState) -> bool {
    exists|k: int| 0 <= k < c.stack.len() && #[trigger] c.stack[k] == (d, s)
}

/// How one node of a cascade stands to the state in which the cascade began. A node
/// that had ended is as it was. Of the others: one without a decision has not ended,
/// and has heard of all upstreams only if it had before; one that is ready has not
/// ended and has just heard of the last upstream; one that is to end has just heard of
/// the last upstream, and has ended so or is about to.
spec fn explained(begun: Seq<WaitingView>, c: Cascade, d: int) -> bool {
    let was = begun[d];
    let now = c.nodes[d];
    &&& now.id == was.id
    &&& now.ups == was.ups
    &&& now.rule == was.rule
    &&& if was.decided is Some {
        now == was && c.out[d] is None
    } else {
        match c.out[d] {
            None => now.decided is None && (now.remaining() == 0 ==> was.remaining() == 0) && now.heard.len()
                >= was.heard.len(),
            Some(Decision::Ready(id)) => id == was.id && now.decided is None && now.remaining() == 0
                && was.remaining() > 0 && readiness::outcome(now.rule, now.states()) == RuleOutcome::Fires,
            Some(Decision::PropagatedTerminal { node, state, origin }) => node == was.id && now.remaining() == 0
                && origin == begun[tracker::origin_place(now.heard, state)].id && readiness::outcome(now.rule, now.states()) == RuleOutcome::Propagate(state) && was.remaining() > 0 && (now.decided == Some(state) || (now.decided is None && to_be_told(
                c,
                d,
                state,
            ))),
        }
    }
}

spec fn ends_as(decision: Option<Decision>, s: TerminalState) -> bool {
    decision matches Some(Decision::PropagatedTerminal { state, .. }) && state == s
}

spec fn explains(begun: Seq<WaitingView>, c: Cascade) -> bool {
    &&& c.nodes.len() == begun.len()
    &&& c.out.len() == begun.len()
    &&& forall|d: int| 0 <= d < begun.len() ==> #[trigger] explained(begun, c, d)
    &&& forall|k: int|
        0 <= k < c.stack.len() ==> 0 <= (#[trigger] c.stack[k]).0 < begun.len() && ends_as(
            c.out[c.stack[k].0],
            c.stack[k].1,
        )
}

/// The upstream that a propagated state comes from is one of those heard of: the first of
/// the state's own kind, else the first that did not succeed, else the first.
proof fn lemma_origin(heard: Seq<(int, TerminalState)>, state: TerminalState) -> (k: int)
    requires
        heard.len() > 0,
    ensures
        0 <= k < heard.len(),
        tracker::origin_place(heard, state) == heard[k].0,
        (exists|j: int| 0 <= j < heard.len() && same_kind((#[trigger] heard[j]).1, state)) ==> same_kind(
            heard[k].1,
            state,
        ) && (forall|j: int| 0 <= j < k ==> !same_kind((#[trigger] heard[j]).1, state)),
        (forall|j: int| 0 <= j < heard.len() ==> !same_kind((#[trigger] heard[j]).1, state)) && (exists|j: int|
            0 <= j < heard.len() && !went_well((#[trigger] heard[j]).1)) ==> !went_well(heard[k].1) && (forall|j: int|
            0 <= j < k ==> went_well((#[trigger] heard[j]).1)),
{
    let c = readiness::class(state);
    if exists|j: int| 0 <= j < heard.len() && same_kind((#[trigger] heard[j]).1, state) {
        let j = choose|j: int| 0 <= j < heard.len() && same_kind((#[trigger] heard[j]).1, state);
        lemma_first_of_class(heard, c, j);
        choose|k: int| tracker::first_of_class(heard, c, k)
    } else {
        assert forall|k: int| !tracker::first_of_class(heard, c, k) by {
            if 0 <= k < heard.len() {
                assert(!same_kind(heard[k].1, state));
            }
        }
        if exists|j: int| 0 <= j < heard.len() && !went_well((#[trigger] heard[j]).1) {
            let j = choose|j: int| 0 <= j < heard.len() && !went_well((#[trigger] heard[j]).1);
            lemma_first_unsuccessful(heard, j);
            choose|k: int| tracker::first_unsuccessful(heard, k)
        } else {
            assert forall|k: int| !tracker::first_unsuccessful(heard, k) by {
                if 0 <= k < heard.len() {
                    assert(went_well(heard[k].1));
                }
            }
            0
        }
    }
}

/// Whether two states are of one kind: successes, skips, failures or cancellations.
pub open spec fn same_kind(a: TerminalState, b: TerminalState) -> bool {
    ||| went_well(a) && went_well(b)
    ||| was_skipped(a) && was_skipped(b)
    ||| went_wrong(a) && went_wrong(b)
    ||| a == TerminalState::Cancelled && b == TerminalState::Cancelled
}

proof fn lemma_first_of_class(heard: Seq<(int, TerminalState)>, c: StateClass, j: int)
    requires
        0 <= j < heard.len(),
        readiness::class(heard[j].1) == c,
    ensures
        exists|k: int| tracker::first_of_class(heard, c, k),
    decreases j,
{
    if exists|i: int| 0 <= i < j && readiness::class((#[trigger] heard[i]).1) == c {
        let i = choose|i: int| 0 <= i < j && readiness::class((#[trigger] heard[i]).1) == c;
        lemma_first_of_class(heard, c, i);
    } else {
        assert(tracker::first_of_class(heard, c, j));
    }
}

proof fn lemma_first_unsuccessful(heard: Seq<(int, TerminalState)>, j: int)
    requires
        0 <= j < heard.len(),
        readiness::class(heard[j].1) != StateClass::Success,
    ensures
        exists|k: int| tracker::first_unsuccessful(heard, k),
    decreases j,
{
    if exists|i: int| 0 <= i < j && readiness::class((#[trigger] heard[i]).1) != StateClass::Success {
        let i = choose|i: int| 0 <= i < j && readiness::class((#[trigger] heard[i]).1) != StateClass::Success;
        lemma_first_unsuccessful(heard, i);
    } else {
        assert(tracker::first_unsuccessful(heard, j));
    }
}

proof fn lemma_explains_tell(begun: Seq<WaitingView>, c: Cascade, t: int, s: TerminalState, listeners: Seq<int>, k: int)
    requires
        explains(begun, c),
        0 <= k < listeners.len(),
        telling(c.nodes, t, s, listeners, k),
    ensures
        explains(begun, c.tell(t, s, listeners[k])),
{
    let d = listeners[k];
    let e = c.tell(t, s, d);
    lemma_tell_frame(c, t, s, d);
    assert(c.nodes[t].dependents.contains(d));
    assert(c.nodes[d].ups.contains(t));
    assert(truthful(c.nodes, d));
    lemma_still_waiting(c.nodes, d, t);
    assert(explained(begun, c, d));
    if c.nodes[d].decided is None {
        assert(c.out[d] is None);
        assert(was_waiting(begun, c, d));
    }
    assert forall|i: int| 0 <= i < begun.len() implies #[trigger] explained(begun, e, i) by {
        assert(explained(begun, c, i));
        if i != d {
            assert(e.nodes[i] == c.nodes[i]);
            assert(e.out[i] == c.out[i]);
            match c.out[i] {
                Some(Decision::PropagatedTerminal { node, state, origin }) => {
                    if to_be_told(c, i, state) {
                        let m = choose|m: int| 0 <= m < c.stack.len() && #[trigger] c.stack[m] == (i, state);
                        assert(e.stack[m] == (i, state));
                    }
                },
                _ => {},
            }
        } else if c.nodes[d].decided is None {
            let node = c.nodes[d].hears(t, s);
            assert(e.nodes[d] == node);
            if node.remaining() == 0 {
                match readiness::outcome(node.rule, node.states()) {
                    RuleOutcome::Fires => {},
                    RuleOutcome::Propagate(state) => {
                        assert(e.stack[c.stack.len() as int] == (d, state));
                        assert(to_be_told(e, d, state));
                        lemma_telling_step(c, t, s, listeners, k);
                        assert(truthful(e.nodes, d));
                        let m = lemma_origin(node.heard, state);
                        let from = node.heard[m].0;
                        assert(e.nodes[d].heard[m] == node.heard[m]);
                        assert(e.nodes[d].ups.contains(from));
                        assert(explained(begun, c, from));
                    },
                }
            }
        } else {
            assert(e == c);
        }
    }
    assert forall|m: int| 0 <= m < e.stack.len() implies 0 <= (#[trigger] e.stack[m]).0 < begun.len() && ends_as(
        e.out[e.stack[m].0],
        e.stack[m].1,
    ) by {
        if m < c.stack.len() {
            assert(e.stack[m] == c.stack[m]);
            assert(ends_as(c.out[c.stack[m].0], c.stack[m].1));
        }
    }
}

spec fn was_waiting(begun: Seq<WaitingView>, c: Cascade, d: int) -> bool {
    begun[d].decided is None && begun[d].remaining() > 0
}

proof fn lemma_explains_all(begun: Seq<WaitingView>, c: Cascade, t: int, s: TerminalState, listeners: Seq<int>, k: int)
    requires
        explains(begun, c),
        0 <= k <= listeners.len(),
        telling(c.nodes, t, s, listeners, 0),
    ensures
        explains(begun, c.tell_all(t, s, listeners, k)),
    decreases k,
{
    if k > 0 {
        lemma_explains_all(begun, c, t, s, listeners, k - 1);
        lemma_telling_all(c, t, s, listeners, k - 1);
        lemma_explains_tell(begun, c.tell_all(t, s, listeners, k - 1), t, s, listeners, k - 1);
    }
}

proof fn lemma_explains_settle(begun: Seq<WaitingView>, c: Cascade, t: int, s: TerminalState)
    requires
        sound(c.nodes),
        0 <= t < c.nodes.len(),
        c.nodes[t].decided is None,
        explains(begun, Cascade { nodes: c.nodes.update(t, WaitingView { decided: Some(s), ..c.nodes[t] }), ..c }),
    ensures
        explains(begun, c.settle(t, s)),
{
    let listeners = c.nodes[t].dependents;
    let ended = Cascade { nodes: c.nodes.update(t, WaitingView { decided: Some(s), ..c.nodes[t] }), ..c };
    lemma_begin_telling(c, t, s);
    lemma_explains_all(begun, ended, t, s, listeners, listeners.len() as int);
}

proof fn lemma_explains_run(begun: Seq<WaitingView>, c: Cascade)
    requires
        sound(c.nodes),
        explains(begun, c),
    ensures
        explains(begun, c.run()),
        c.run().stack.len() == 0,
        sound(c.run().nodes),
    decreases tracker::undecided(c.nodes), c.stack.len(),
{
    if c.stack.len() > 0 {
        let (t, s) = c.stack.last();
        let last = c.stack.len() - 1;
        let rest = Cascade { stack: c.stack.drop_last(), ..c };
        assert(c.stack[last] == (t, s));
        assert(0 <= t < begun.len() && ends_as(c.out[t], s));
        assert(explained(begun, c, t));
        if c.nodes[t].decided is Some {
            assert forall|i: int| 0 <= i < begun.len() implies #[trigger] explained(begun, rest, i) by {
                assert(explained(begun, c, i));
                lemma_rest_told(c, t, s, i);
            }
            assert forall|m: int| 0 <= m < rest.stack.len() implies 0 <= (#[trigger] rest.stack[m]).0 < begun.len()
                && ends_as(rest.out[rest.stack[m].0], rest.stack[m].1) by {
                assert(rest.stack[m] == c.stack[m]);
            }
            lemma_explains_run(begun, rest);
        } else {
            let ended = Cascade {
                nodes: rest.nodes.update(t, WaitingView { decided: Some(s), ..rest.nodes[t] }),
                ..rest
            };
            assert forall|i: int| 0 <= i < begun.len() implies #[trigger] explained(begun, ended, i) by {
                assert(explained(begun, c, i));
                lemma_rest_told(c, t, s, i);
                if i != t {
                    assert(ended.nodes[i] == c.nodes[i]);
                    match c.out[i] {
                        Some(Decision::PropagatedTerminal { node, state, origin }) => {
                            if to_be_told(rest, i, state) {
                                let m = choose|m: int|
                                    0 <= m < rest.stack.len() && #[trigger] rest.stack[m] == (i, state);
                                assert(ended.stack[m] == (i, state));
                            }
                        },
                        _ => {},
                    }
                }
            }
            assert forall|m: int| 0 <= m < ended.stack.len() implies 0 <= (#[trigger] ended.stack[m]).0 < begun.len()
                && ends_as(ended.out[ended.stack[m].0], ended.stack[m].1) by {
                assert(ended.stack[m] == c.stack[m]);
            }
            tracker::lemma_settle_decides(rest, t, s);
            lemma_explains_settle(begun, rest, t, s);
            lemma_settle_sound(rest, t, s);
            lemma_explains_run(begun, rest.settle(t, s));
        }
    }
}

/// What is still to be told once the last entry is taken, but for that entry.
proof fn lemma_rest_told(c: Cascade, t: int, s: TerminalState, i: int)
    requires
        c.stack.len() > 0,
        c.stack.last() == (t, s),
    ensures
        forall|state: TerminalState|
            i != t && to_be_told(c, i, state) ==> #[trigger] to_be_told(
                Cascade { stack: c.stack.drop_last(), ..c },
                i,
                state,
            ),
{
    let rest = Cascade { stack: c.stack.drop_last(), ..c };
    assert forall|state: TerminalState| i != t && to_be_told(c, i, state) implies #[trigger] to_be_told(
        rest,
        i,
        state,
    ) by {
        let m = choose|m: int| 0 <= m < c.stack.len() && #[trigger] c.stack[m] == (i, state);
        assert(rest.stack[m] == (i, state));
    }
}

/// What a notification means for one node, given the decision it brought for that node.
pub open spec fn decision_fits(before: WaitingView, after: WaitingView, decision: Option<Decision>) -> bool {
    match decision {
        None => after.decided is None && (after.remaining() == 0 ==> before.remaining() == 0),
        Some(Decision::Ready(id)) => id == before.id && after.decided is None && after.remaining() == 0
            && before.remaining() > 0,
        Some(Decision::PropagatedTerminal { node, state, .. }) => node == before.id && after.decided == Some(state)
            && before.remaining() > 0,
    }
}

/// A notification decides each node at most once and leaves nothing out. A node that
/// had ended is untouched. The notified node ends as notified. Any other node either is
/// decided, just when it hears of its last upstream, or goes on as before: it has not
/// ended, and waits for something unless it did not before.
pub proof fn law_decisions_are_complete(v: TrackerView, id: NodeId, state: TerminalState, d: int)
    requires
        sound(v.nodes),
        v.has(id),
        v.node(id).decided is None,
        0 <= d < v.nodes.len(),
    ensures
        ({
            let after = v.notified(id, state).nodes[d];
            let decision = v.cascade(id, state).out[d];
            if v.nodes[d].decided is Some {
                after == v.nodes[d] && decision is None
            } else if d == v.place(id) {
                after.decided == Some(state) && decision is None
            } else {
                decision_fits(v.nodes[d], after, decision)
            }
        }),
{
    lemma_notification(v, id, state);
    let f = v.place(id);
    let begun = v.nodes.update(f, WaitingView { decided: Some(state), ..v.nodes[f] });
    let c = v.cascade(id, state);
    assert(explained(begun, c, d));
    match c.out[d] {
        Some(Decision::PropagatedTerminal { node, state, origin }) => {
            assert(!to_be_told(c, d, state));
        },
        _ => {},
    }
}

proof fn lemma_notification(v: TrackerView, id: NodeId, state: TerminalState)
    requires
        sound(v.nodes),
        v.has(id),
        v.node(id).decided is None,
    ensures
        ({
            let f = v.place(id);
            let begun = v.nodes.update(f, WaitingView { decided: Some(state), ..v.nodes[f] });
            let c = v.cascade(id, state);
            &&& 0 <= f < v.nodes.len()
            &&& explains(begun, c)
            &&& c.stack.len() == 0
            &&& sound(c.nodes)
        }),
{
    let f = v.place(id);
    assert(tracker::found_at(v.nodes, id, f));
    let begun = v.nodes.update(f, WaitingView { decided: Some(state), ..v.nodes[f] });
    let start = Cascade {
        nodes: v.nodes,
        stack: seq![(f, state)],
        out: Seq::new(v.nodes.len(), |i: int| None),
    };
    let rest = Cascade { stack: start.stack.drop_last(), ..start };
    assert(start.stack.last() == (f, state));
    assert(rest.stack =~= Seq::<(int, TerminalState)>::empty());
    let ended = Cascade { nodes: begun, ..rest };
    assert forall|i: int| 0 <= i < begun.len() implies #[trigger] explained(begun, ended, i) by {}
    assert(explains(begun, ended));
    tracker::lemma_settle_decides(rest, f, state);
    lemma_explains_settle(begun, rest, f, state);
    lemma_settle_sound(rest, f, state);
    lemma_explains_run(begun, rest.settle(f, state));
}

/// No node is decided on a partial picture: where a notification brings a decision for
/// a node, all upstreams of that node have ended.
pub proof fn law_no_decision_is_early(v: TrackerView, id: NodeId, state: TerminalState, d: int, u: int)
    requires
        sound(v.nodes),
        v.has(id),
        v.node(id).decided is None,
        0 <= d < v.nodes.len(),
        v.cascade(id, state).out[d] is Some,
        v.nodes[d].ups.contains(u),
    ensures
        v.notified(id, state).nodes[u].decided is Some,
{
    lemma_notification(v, id, state);
    let f = v.place(id);
    let begun = v.nodes.update(f, WaitingView { decided: Some(state), ..v.nodes[f] });
    let c = v.cascade(id, state);
    assert(explained(begun, c, d));
    assert(truthful(c.nodes, d));
    lemma_heard_of_all(c.nodes, d, u);
}

/// The states that the upstreams of node `i` ended in.
pub open spec fn upstream_ends(nodes: Seq<WaitingView>, i: int) -> Seq<TerminalState> {
    Seq::new(nodes[i].ups.len(), |k: int| nodes[nodes[i].ups[k]].decided->0)
}

/// Whether a decision on a node is what a rule's outcome asks for.
pub open spec fn carries_out(decision: Decision, id: NodeId, outcome: RuleOutcome) -> bool {
    match outcome {
        RuleOutcome::Fires => decision == Decision::Ready(id),
        RuleOutcome::Propagate(s) => decision matches Decision::PropagatedTerminal { node, state, .. } && node == id
            && state == s,
    }
}

proof fn lemma_heard_is_what_ended(nodes: Seq<WaitingView>, i: int, c: StateClass)
    requires
        linked(nodes),
        0 <= i < nodes.len(),
        truthful(nodes, i),
        nodes[i].remaining() == 0,
    ensures
        readiness::some_of(nodes[i].states(), c) == readiness::some_of(upstream_ends(nodes, i), c),
{
    let node = nodes[i];
    let heard = node.states();
    let ends = upstream_ends(nodes, i);
    if readiness::some_of(heard, c) {
        let k = choose|k: int| 0 <= k < heard.len() && readiness::class(#[trigger] heard[k]) == c;
        let (u, s) = node.heard[k];
        assert(node.ups.contains(u) && nodes[u].decided == Some(s));
        let m = choose|m: int| 0 <= m < node.ups.len() && node.ups[m] == u;
        assert(readiness::class(ends[m]) == c);
    }
    if readiness::some_of(ends, c) {
        let m = choose|m: int| 0 <= m < ends.len() && readiness::class(#[trigger] ends[m]) == c;
        let u = node.ups[m];
        assert(node.ups.contains(u));
        lemma_heard_of_all(nodes, i, u);
        let k = choose|k: int| 0 <= k < node.heard.len() && (#[trigger] node.heard[k]).0 == u;
        assert(nodes[u].decided == Some(node.heard[k].1));
        assert(readiness::class(heard[k]) == c);
    }
}

/// A decision is what the node's rule says of the states that its upstreams ended in:
/// the node is ready where the rule fires, and otherwise takes the state that the rule
/// propagates.
pub proof fn law_a_decision_is_what_the_rule_says(v: TrackerView, id: NodeId, state: TerminalState, d: int)
    requires
        sound(v.nodes),
        v.has(id),
        v.node(id).decided is None,
        0 <= d < v.nodes.len(),
        v.cascade(id, state).out[d] is Some,
    ensures
        carries_out(
            v.cascade(id, state).out[d]->0,
            v.nodes[d].id,
            readiness::outcome(v.nodes[d].rule, upstream_ends(v.notified(id, state).nodes, d)),
        ),
{
    lemma_notification(v, id, state);
    let f = v.place(id);
    let begun = v.nodes.update(f, WaitingView { decided: Some(state), ..v.nodes[f] });
    let c = v.cascade(id, state);
    assert(explained(begun, c, d));
    assert(truthful(c.nodes, d));
    assert forall|class: StateClass| #[trigger]
        readiness::some_of(c.nodes[d].states(), class) == readiness::some_of(upstream_ends(c.nodes, d), class) by {
        lemma_heard_is_what_ended(c.nodes, d, class);
    }
    readiness::law_outcome_depends_on_classes(v.nodes[d].rule, c.nodes[d].states(), upstream_ends(c.nodes, d));
}

/// A node that needs all its upstreams to succeed is declared ready only where every one
/// of them has: none of them ended in any other state, and none is still to end. Where one
/// of them failed, the node takes the state of a failure passed on.
pub proof fn law_a_ready_node_has_its_inputs(v: TrackerView, id: NodeId, state: TerminalState, d: int)
    requires
        sound(v.nodes),
        v.has(id),
        v.node(id).decided is None,
        0 <= d < v.nodes.len(),
        v.nodes[d].rule == TriggerRule::AllSucceeded,
        v.cascade(id, state).out[d] is Some,
    ensures
        ({
            let after = v.notified(id, state).nodes;
            let decision = v.cascade(id, state).out[d]->0;
            &&& decision == Decision::Ready(v.nodes[d].id) <==> (forall|u: int|
                #[trigger] v.nodes[d].ups.contains(u) ==> (after[u].decided matches Some(s) && went_well(s)))
            &&& (exists|u: int|
                #[trigger] v.nodes[d].ups.contains(u) && (after[u].decided matches Some(s) && went_wrong(s)))
                ==> after[d].decided == Some(TerminalState::UpstreamFailed)
        }),
{
    law_a_decision_is_what_the_rule_says(v, id, state, d);
    law_decisions_are_complete(v, id, state, d);
    let after = v.notified(id, state).nodes;
    assert(after[d].ups == v.nodes[d].ups && after[d].rule == v.nodes[d].rule && d != v.place(id)) by {
        lemma_notification(v, id, state);
        let f = v.place(id);
        let begun = v.nodes.update(f, WaitingView { decided: Some(state), ..v.nodes[f] });
        assert(explained(begun, v.cascade(id, state), d));
    }
    assert forall|u: int| #[trigger] v.nodes[d].ups.contains(u) implies after[u].decided is Some by {
        law_no_decision_is_early(v, id, state, d, u);
    }
    lemma_ends_say_it(after, d);
}

/// What the rule says of the ends is what it says of the upstreams.
proof fn lemma_ends_say_it(nodes: Seq<WaitingView>, d: int)
    requires
        forall|u: int| #[trigger] nodes[d].ups.contains(u) ==> nodes[u].decided is Some,
    ensures
        ({
            let says = readiness::outcome(TriggerRule::AllSucceeded, upstream_ends(nodes, d));
            &&& says == RuleOutcome::Fires <==> (forall|u: int|
                #[trigger] nodes[d].ups.contains(u) ==> (nodes[u].decided matches Some(s) && went_well(s)))
            &&& (exists|u: int|
                #[trigger] nodes[d].ups.contains(u) && (nodes[u].decided matches Some(s) && went_wrong(s))) ==> says
                == RuleOutcome::Propagate(TerminalState::UpstreamFailed)
        }),
{
    let ups = nodes[d].ups;
    let ends = upstream_ends(nodes, d);
    law_all_succeeded_needs_every_success(ends);
    if forall|k: int| 0 <= k < ends.len() ==> went_well(#[trigger] ends[k]) {
        assert forall|u: int| #[trigger] ups.contains(u) implies (nodes[u].decided matches Some(s) && went_well(s)) by {
            let k = choose|k: int| 0 <= k < ups.len() && ups[k] == u;
            assert(went_well(ends[k]));
        }
    }
    if forall|u: int| #[trigger] ups.contains(u) ==> (nodes[u].decided matches Some(s) && went_well(s)) {
        assert forall|k: int| 0 <= k < ends.len() implies went_well(#[trigger] ends[k]) by {
            assert(ups.contains(ups[k]));
        }
    }
    if exists|u: int| #[trigger] ups.contains(u) && (nodes[u].decided matches Some(s) && went_wrong(s)) {
        let u = choose|u: int| #[trigger] ups.contains(u) && (nodes[u].decided matches Some(s) && went_wrong(s));
        let k = choose|k: int| 0 <= k < ups.len() && ups[k] == u;
        assert(went_wrong(ends[k]));
    }
}

/// A state that a node takes without running is put down to the upstream that it comes
/// from: of those that ended in a state of its kind, the one that the node heard of first;
/// where there is none, the first that did not succeed.
pub proof fn law_a_passed_on_state_names_its_origin(v: TrackerView, id: NodeId, state: TerminalState, d: int)
    requires
        sound(v.nodes),
        v.has(id),
        v.node(id).decided is None,
        0 <= d < v.nodes.len(),
        v.cascade(id, state).out[d] is Some,
        v.cascade(id, state).out[d]->0 is PropagatedTerminal,
    ensures
        ({
            let after = v.notified(id, state).nodes;
            let heard = after[d].heard;
            let given = v.cascade(id, state).out[d]->0->state;
            exists|k: int|
                #![trigger heard[k]]
                {
                    &&& 0 <= k < heard.len()
                    &&& v.nodes[d].ups.contains(heard[k].0)
                    &&& after[heard[k].0].decided == Some(heard[k].1)
                    &&& v.cascade(id, state).out[d]->0->origin == v.nodes[heard[k].0].id
                    &&& (exists|j: int| 0 <= j < heard.len() && same_kind((#[trigger] heard[j]).1, given)) ==> same_kind(
                        heard[k].1,
                        given,
                    ) && (forall|j: int| 0 <= j < k ==> !same_kind((#[trigger] heard[j]).1, given))
                    &&& (forall|j: int| 0 <= j < heard.len() ==> !same_kind((#[trigger] heard[j]).1, given)) && (
                    exists|j: int| 0 <= j < heard.len() && !went_well((#[trigger] heard[j]).1)) ==> !went_well(heard[k].1)
                        && (forall|j: int| 0 <= j < k ==> went_well((#[trigger] heard[j]).1))
                }
        }),
{
    lemma_notification(v, id, state);
    let f = v.place(id);
    let begun = v.nodes.update(f, WaitingView { decided: Some(state), ..v.nodes[f] });
    let c = v.cascade(id, state);
    assert(explained(begun, c, d));
    assert(truthful(c.nodes, d));
    let given = c.out[d]->0->state;
    let heard = c.nodes[d].heard;
    let k = lemma_origin(heard, given);
    assert(c.nodes[d].ups.contains(heard[k].0));
    assert(begun[heard[k].0].id == v.nodes[heard[k].0].id);
}

/// Pending nodes are those that have not ended, each counted once.
pub proof fn law_pending_are_counted_once(nodes: Seq<WaitingView>)
    ensures
        ({
            let pending = Set::new(|i: int| 0 <= i < nodes.len() && nodes[i].decided is None);
            pending.finite() && pending.len() == tracker::undecided(nodes)
        }),
    decreases nodes.len(),
{
    let pending = Set::new(|i: int| 0 <= i < nodes.len() && nodes[i].decided is None);
    if nodes.len() == 0 {
        assert(pending =~= Set::<int>::empty());
    } else {
        let front = nodes.drop_last();
        let n = front.len() as int;
        law_pending_are_counted_once(front);
        let before = Set::new(|i: int| 0 <= i < front.len() && front[i].decided is None);
        if nodes.last().decided is None {
            assert(pending =~= before.insert(n));
        } else {
            assert(pending =~= before);
        }
    }
}

/// The notification that ends the last upstream of a node is the one that brings the
/// decision on it: a node that waits gets one exactly when none of its upstreams is left,
/// unless it is itself the notified node.
pub proof fn law_the_last_upstream_brings_the_decision(v: TrackerView, id: NodeId, state: TerminalState, d: int)
    requires
        sound(v.nodes),
        v.has(id),
        v.node(id).decided is None,
        0 <= d < v.nodes.len(),
        d != v.place(id),
        v.nodes[d].decided is None,
        v.nodes[d].remaining() > 0,
    ensures
        v.cascade(id, state).out[d] is Some <==> pending_among(v.notified(id, state).nodes, v.nodes[d].ups) == 0,
{
    lemma_notification(v, id, state);
    law_decisions_are_complete(v, id, state, d);
    let f = v.place(id);
    let begun = v.nodes.update(f, WaitingView { decided: Some(state), ..v.nodes[f] });
    let c = v.cascade(id, state);
    assert(explained(begun, c, d));
    if c.out[d] is Some {
        if pending_among(c.nodes, v.nodes[d].ups) > 0 {
            let u = lemma_some_pending(c.nodes, v.nodes[d].ups);
            law_no_decision_is_early(v, id, state, d, u);
        }
    } else {
        law_countdown_is_exact(c.nodes, d);
    }
}

/// The decisions that a notification returns are those it brought, and no others.
pub proof fn law_every_decision_is_returned(v: TrackerView, id: NodeId, state: TerminalState, decision: Decision)
    requires
        sound(v.nodes),
        v.has(id),
        v.node(id).decided is None,
    ensures
        v.unlocked(id, state).contains(decision) <==> exists|d: int|
            0 <= d < v.nodes.len() && #[trigger] v.cascade(id, state).out[d] == Some(decision),
{
    lemma_notification(v, id, state);
    lemma_listed(v.cascade(id, state).out, v.nodes.len() as int, decision);
}

proof fn lemma_listed(out: Seq<Option<Decision>>, k: int, decision: Decision)
    requires
        0 <= k <= out.len(),
    ensures
        tracker::listed(out, k).contains(decision) <==> exists|d: int| 0 <= d < k && #[trigger] out[d] == Some(decision),
    decreases k,
{
    if k > 0 {
        lemma_listed(out, k - 1, decision);
        let before = tracker::listed(out, k - 1);
        let all = tracker::listed(out, k);
        match out[k - 1] {
            Some(last) => {
                assert(all[before.len() as int] == last);
                if before.contains(decision) {
                    let j = choose|j: int| 0 <= j < before.len() && before[j] == decision;
                    assert(all[j] == decision);
                }
                if all.contains(decision) && last != decision {
                    let j = choose|j: int| 0 <= j < all.len() && all[j] == decision;
                    assert(before[j] == decision);
                }
            },
            None => {},
        }
    }
}

/// What a notification brings for node `d`.
pub open spec fn decision_for(v: TrackerView, id: NodeId, state: TerminalState, d: int) -> Option<Decision> {
    if v.has(id) {
        v.cascade(id, state).out[d]
    } else {
        None
    }
}

/// The tracker after notifications, one after the other.
pub open spec fn after_notices(v: TrackerView, notices: Seq<(NodeId, TerminalState)>) -> TrackerView
    decreases notices.len(),
{
    if notices.len() == 0 {
        v
    } else {
        after_notices(v, notices.drop_last()).notified(notices.last().0, notices.last().1)
    }
}

spec fn waits_no_more(node: WaitingView) -> bool {
    node.decided is Some || node.remaining() == 0
}

proof fn lemma_no_second_decision(v: TrackerView, id: NodeId, state: TerminalState, d: int)
    requires
        sound(v.nodes),
        0 <= d < v.nodes.len(),
    ensures
        v.notified(id, state).nodes.len() == v.nodes.len(),
        sound(v.notified(id, state).nodes),
        waits_no_more(v.nodes[d]) ==> decision_for(v, id, state, d) is None && waits_no_more(
            v.notified(id, state).nodes[d],
        ),
        decision_for(v, id, state, d) is Some ==> waits_no_more(v.notified(id, state).nodes[d]),
{
    law_notification_keeps_sound(v, id, state);
    if v.has(id) {
        if v.node(id).decided is Some {
            law_a_node_ends_once(v, id, state);
            lemma_ended_brings_nothing(v, id, state);
        } else {
            lemma_notification(v, id, state);
            law_decisions_are_complete(v, id, state, d);
            let f = v.place(id);
            let begun = v.nodes.update(f, WaitingView { decided: Some(state), ..v.nodes[f] });
            assert(explained(begun, v.cascade(id, state), d));
        }
    }
}

proof fn lemma_notices_keep(v: TrackerView, notices: Seq<(NodeId, TerminalState)>, a: int, b: int, d: int)
    requires
        sound(v.nodes),
        0 <= d < v.nodes.len(),
        0 <= a <= b <= notices.len(),
    ensures
        sound(after_notices(v, notices.take(b)).nodes),
        after_notices(v, notices.take(b)).nodes.len() == v.nodes.len(),
        waits_no_more(after_notices(v, notices.take(a)).nodes[d]) ==> waits_no_more(
            after_notices(v, notices.take(b)).nodes[d],
        ),
    decreases b,
{
    if b > 0 {
        let k = if a < b {
            a
        } else {
            b - 1
        };
        lemma_notices_keep(v, notices, k, b - 1, d);
        assert(notices.take(b).drop_last() =~= notices.take(b - 1));
        assert(notices.take(b).last() == notices[b - 1]);
        lemma_no_second_decision(after_notices(v, notices.take(b - 1)), notices[b - 1].0, notices[b - 1].1, d);
    } else {
        assert(notices.take(0) =~= Seq::<(NodeId, TerminalState)>::empty());
    }
}

/// Over a run a node is decided in one call only: where a notification brought a decision
/// on it, no later one does.
pub proof fn law_a_node_is_decided_in_one_call(
    v: TrackerView,
    notices: Seq<(NodeId, TerminalState)>,
    a: int,
    b: int,
    d: int,
)
    requires
        sound(v.nodes),
        0 <= d < v.nodes.len(),
        0 <= a < b < notices.len(),
        decision_for(after_notices(v, notices.take(a)), notices[a].0, notices[a].1, d) is Some,
    ensures
        decision_for(after_notices(v, notices.take(b)), notices[b].0, notices[b].1, d) is None,
{
    lemma_notices_keep(v, notices, a, a, d);
    lemma_no_second_decision(after_notices(v, notices.take(a)), notices[a].0, notices[a].1, d);
    assert(notices.take(a + 1).drop_last() =~= notices.take(a));
    assert(notices.take(a + 1).last() == notices[a]);
    lemma_notices_keep(v, notices, a + 1, b, d);
    lemma_no_second_decision(after_notices(v, notices.take(b)), notices[b].0, notices[b].1, d);
}

proof fn lemma_ended_brings_nothing(v: TrackerView, id: NodeId, state: TerminalState)
    requires
        v.has(id),
        v.node(id).decided is Some,
    ensures
        v.cascade(id, state).nodes == v.nodes,
        forall|d: int| 0 <= d < v.nodes.len() ==> #[trigger] v.cascade(id, state).out[d] is None,
{
    let start = Cascade {
        nodes: v.nodes,
        stack: seq![(v.place(id), state)],
        out: Seq::new(v.nodes.len(), |i: int| None),
    };
    let rest = Cascade { stack: start.stack.drop_last(), ..start };
    assert(start.stack.last() == (v.place(id), state));
    assert(rest.stack.len() == 0);
    assert(rest.run() == rest);
    assert(start.run() == rest);
}

/// A node ends once: notifying a node that has ended changes nothing and unlocks
/// nothing.
pub proof fn law_a_node_ends_once(v: TrackerView, id: NodeId, state: TerminalState)
    requires
        v.has(id) ==> v.node(id).decided is Some,
    ensures
        v.notified(id, state) == v,
        v.unlocked(id, state) == Seq::<Decision>::empty(),
{
    if v.has(id) {
        let f = v.place(id);
        let start = Cascade {
            nodes: v.nodes,
            stack: seq![(f, state)],
            out: Seq::new(v.nodes.len(), |i: int| None),
        };
        let rest = Cascade { stack: start.stack.drop_last(), ..start };
        assert(start.stack.last() == (f, state));
        assert(rest.stack.len() == 0);
        assert(rest.run() == rest);
        assert(start.run() == rest);
        lemma_nothing_listed(rest.out, v.nodes.len() as int);
    }
}

proof fn lemma_nothing_listed(out: Seq<Option<Decision>>, k: int)
    requires
        k <= out.len(),
        forall|i: int| 0 <= i < out.len() ==> #[trigger] out[i] is None,
    ensures
        tracker::listed(out, k) == Seq::<Decision>::empty(),
    decreases k,
{
    if k > 0 {
        lemma_nothing_listed(out, k - 1);
        assert(out[k - 1] is None);
    }
}

/// States are of four kinds: what succeeded, in this run or an earlier one; what was skipped
/// or passed on a skip; what failed, exceeded its time, was given up on or passed on a
/// failure; and what was cancelled.
pub proof fn law_states_are_of_four_kinds(state: TerminalState)
    ensures
        readiness::class(state) == StateClass::Success <==> state == TerminalState::Succeeded || state
            == TerminalState::SatisfiedFromPrior,
        readiness::class(state) == StateClass::Skip <==> state == TerminalState::Skipped || state
            == TerminalState::UpstreamSkipped,
        readiness::class(state) == StateClass::Failure <==> state == TerminalState::Failed || state
            == TerminalState::TimedOut || state == TerminalState::Abandoned || state == TerminalState::UpstreamFailed,
        readiness::class(state) == StateClass::Stop <==> state == TerminalState::Cancelled,
{
}

/// A node is found by its identity, at the first place that has it; what is not there is not
/// found, and to notify it changes and brings nothing.
pub proof fn law_a_node_is_found_by_its_identity(v: TrackerView, id: NodeId, state: TerminalState, i: int)
    ensures
        v.has(id) ==> {
            let k = v.place(id);
            &&& 0 <= k < v.nodes.len() && v.nodes[k].id == id && v.node(id) == v.nodes[k]
            &&& 0 <= i < k ==> v.nodes[i].id != id
        },
        0 <= i < v.nodes.len() && v.nodes[i].id == id ==> v.has(id) && v.place(id) <= i,
        !v.has(id) ==> v.notified(id, state) == v && v.unlocked(id, state).len() == 0,
    decreases i,
{
    if 0 <= i < v.nodes.len() && v.nodes[i].id == id {
        if exists|j: int| 0 <= j < i && (#[trigger] v.nodes[j]).id == id {
            let j = choose|j: int| 0 <= j < i && (#[trigger] v.nodes[j]).id == id;
            law_a_node_is_found_by_its_identity(v, id, state, j);
        } else {
            assert(tracker::found_at(v.nodes, id, i));
        }
    }
    if v.has(id) {
        let k = v.place(id);
        assert(tracker::found_at(v.nodes, id, k));
        if 0 <= i < k {
            assert(v.nodes[i].id != id);
        }
    }
}

/// The decisions that a notification brings are returned in the order of the nodes.
pub proof fn law_decisions_come_in_node_order(out: Seq<Option<Decision>>, k: int)
    requires
        0 <= k < out.len(),
    ensures
        tracker::listed(out, 0).len() == 0,
        out[k] is None ==> tracker::listed(out, k + 1) == tracker::listed(out, k),
        out[k] matches Some(d) ==> tracker::listed(out, k + 1) == tracker::listed(out, k) + seq![d],
{
    if out[k] is Some {
        assert(tracker::listed(out, k).push(out[k]->0) =~= tracker::listed(out, k) + seq![out[k]->0]);
    }
}

} // verus!
