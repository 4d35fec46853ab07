//! The readiness tracker.

use super::{class_of, evaluate_rule, RuleOutcome, StateClass};
use crate::assembly::artifact::{ArtifactView, AssemblyArtifact};
use crate::assembly::graph;
use crate::binding::TriggerRule;
use crate::context::TerminalState;
use crate::flow::{self, Pipeline, PipelineView};
use crate::handle::{self, NodeId};
use crate::names::NameMap;
use crate::readiness;
use vstd::prelude::*;

verus! {

/// What a terminal notification unlocked for one node.
#[derive(Debug, Clone, Copy, PartialEq, Eq, Structural)]
pub enum Decision {
    /// The node's rule fired: it is ready to run.
    Ready(NodeId),
    /// The node's rule can never fire: it has taken a terminal state without running.
    PropagatedTerminal {
        /// The node.
        node: NodeId,
        /// The state it has taken.
        state: TerminalState,
        /// The upstream that carried the deciding class into it.
        origin: NodeId,
    },
}

/// What the tracker keeps of one node: identity and rule, the places of its upstreams
/// and dependents in name order, the upstream states it has heard, in the order in
/// which it heard them, and the state it has ended in.
#[verifier::ext_equal]
pub struct WaitingView {
    pub id: NodeId,
    pub rule: TriggerRule,
    pub ups: Seq<int>,
    pub dependents: Seq<int>,
    pub heard: Seq<(int, TerminalState)>,
    pub decided: Option<TerminalState>,
}

impl WaitingView {
    /// How many upstreams the node has not heard of.
    pub open spec fn remaining(self) -> nat {
        if self.heard.len() <= self.ups.len() {
            (self.ups.len() - self.heard.len()) as nat
        } else {
            0
        }
    }

    /// The states it has heard.
    pub open spec fn states(self) -> Seq<TerminalState> {
        self.heard.map_values(|h: (int, TerminalState)| h.1)
    }

    /// The node after it has heard of one more upstream.
    pub open spec fn hears(self, place: int, state: TerminalState) -> Self {
        WaitingView { heard: self.heard.push((place, state)), ..self }
    }
}

/// Whether the first state of the class stands at `k`.
pub open spec fn first_of_class(heard: Seq<(int, TerminalState)>, c: StateClass, k: int) -> bool {
    &&& 0 <= k < heard.len()
    &&& readiness::class(heard[k].1) == c
    &&& forall|j: int| 0 <= j < k ==> readiness::class((#[trigger] heard[j]).1) != c
}

/// Whether the first state that is no success stands at `k`.
pub open spec fn first_unsuccessful(heard: Seq<(int, TerminalState)>, k: int) -> bool {
    &&& 0 <= k < heard.len()
    &&& readiness::class(heard[k].1) != StateClass::Success
    &&& forall|j: int| 0 <= j < k ==> readiness::class((#[trigger] heard[j]).1) == StateClass::Success
}

/// The upstream that a propagated state comes from: the first heard of the state's
/// own class, else the first heard that is no success, else the first heard.
pub open spec fn origin_place(heard: Seq<(int, TerminalState)>, state: TerminalState) -> int {
    if exists|k: int| first_of_class(heard, readiness::class(state), k) {
        heard[choose|k: int| first_of_class(heard, readiness::class(state), k)].0
    } else if exists|k: int| first_unsuccessful(heard, k) {
        heard[choose|k: int| first_unsuccessful(heard, k)].0
    } else {
        heard[0].0
    }
}

/// A cascade in progress: the nodes, the terminal states still to be told (the last
/// is told first), and what has been decided for each node.
#[verifier::ext_equal]
pub struct Cascade {
    pub nodes: Seq<WaitingView>,
    pub stack: Seq<(int, TerminalState)>,
    pub out: Seq<Option<Decision>>,
}

impl Cascade {
    /// Tells node `d` that its upstream at `t` ended in `s`. A node that has ended
    /// hears nothing more. A node that has now heard of every upstream is decided by
    /// its rule: ready, or ended itself, which is to be told in turn.
    pub open spec fn tell(self, t: int, s: TerminalState, d: int) -> Cascade {
        let node = self.nodes[d];
        if !(0 <= d < self.nodes.len()) || node.decided is Some {
            self
        } else {
            let node = node.hears(t, s);
            let nodes = self.nodes.update(d, node);
            if node.remaining() > 0 {
                Cascade { nodes, ..self }
            } else {
                match readiness::outcome(node.rule, node.states()) {
                    RuleOutcome::Fires => Cascade { nodes, out: self.out.update(d, Some(Decision::Ready(node.id))), ..self },
                    RuleOutcome::Propagate(state) => Cascade {
                        nodes,
                        out: self.out.update(
                            d,
                            Some(
                                Decision::PropagatedTerminal {
                                    node: node.id,
                                    state,
                                    origin: nodes[origin_place(node.heard, state)].id,
                                },
                            ),
                        ),
                        stack: self.stack.push((d, state)),
                    },
                }
            }
        }
    }

    /// Tells the first `k` of the nodes that the upstream at `t` ended in `s`.
    pub open spec fn tell_all(self, t: int, s: TerminalState, listeners: Seq<int>, k: int) -> Cascade
        decreases k,
    {
        if k <= 0 {
            self
        } else {
            self.tell_all(t, s, listeners, k - 1).tell(t, s, listeners[k - 1])
        }
    }

    /// Ends the node at `t` in `s` and tells its dependents.
    pub open spec fn settle(self, t: int, s: TerminalState) -> Cascade {
        let listeners = self.nodes[t].dependents;
        Cascade {
            nodes: self.nodes.update(t, WaitingView { decided: Some(s), ..self.nodes[t] }),
            ..self
        }.tell_all(t, s, listeners, listeners.len() as int)
    }

    /// Runs the cascade out. A node that has ended already is not ended again.
    pub open spec fn run(self) -> Cascade
        decreases undecided(self.nodes), self.stack.len(),
    {
        if self.stack.len() == 0 {
            self
        } else {
            let (t, s) = self.stack.last();
            let rest = Cascade { stack: self.stack.drop_last(), ..self };
            if !(0 <= t < self.nodes.len()) || self.nodes[t].decided is Some {
                rest.run()
            } else {
                proof {
                    lemma_settle_decides(rest, t, s);
                }
                rest.settle(t, s).run()
            }
        }
    }
}

/// How many nodes have not ended.
pub open spec fn undecided(nodes: Seq<WaitingView>) -> nat
    decreases nodes.len(),
{
    if nodes.len() == 0 {
        0
    } else {
        undecided(nodes.drop_last()) + (if nodes.last().decided is None {
            1nat
        } else {
            0nat
        })
    }
}

/// Whether two states of the tracker agree on which nodes have ended how.
pub open spec fn same_ends(a: Seq<WaitingView>, b: Seq<WaitingView>) -> bool {
    &&& a.len() == b.len()
    &&& forall|i: int| 0 <= i < a.len() ==> (#[trigger] a[i]).decided == b[i].decided
}

proof fn lemma_undecided_same(a: Seq<WaitingView>, b: Seq<WaitingView>)
    requires
        same_ends(a, b),
    ensures
        undecided(a) == undecided(b),
    decreases a.len(),
{
    if a.len() > 0 {
        let fa = a.drop_last();
        let fb = b.drop_last();
        assert forall|i: int| 0 <= i < fa.len() implies (#[trigger] fa[i]).decided == fb[i].decided by {
            assert(fa[i] == a[i]);
        }
        lemma_undecided_same(fa, fb);
        assert(a[a.len() - 1].decided == b[b.len() - 1].decided);
    }
}

proof fn lemma_undecided_update(nodes: Seq<WaitingView>, t: int, s: TerminalState)
    requires
        0 <= t < nodes.len(),
        nodes[t].decided is None,
    ensures
        undecided(nodes.update(t, WaitingView { decided: Some(s), ..nodes[t] })) == undecided(nodes) - 1,
        undecided(nodes) >= 1,
    decreases nodes.len(),
{
    let node = WaitingView { decided: Some(s), ..nodes[t] };
    let next = nodes.update(t, node);
    let front = nodes.drop_last();
    if t < nodes.len() - 1 {
        lemma_undecided_update(front, t, s);
        assert(next.drop_last() =~= front.update(t, node));
        assert(next.last() == nodes.last());
    } else {
        assert(next.drop_last() =~= front);
    }
}

proof fn lemma_tell_ends(c: Cascade, t: int, s: TerminalState, d: int)
    ensures
        same_ends(c.nodes, c.tell(t, s, d).nodes),
        c.out.len() == c.nodes.len() ==> c.tell(t, s, d).out.len() == c.out.len(),
{
}

proof fn lemma_tell_all_ends(c: Cascade, t: int, s: TerminalState, listeners: Seq<int>, k: int)
    ensures
        same_ends(c.nodes, c.tell_all(t, s, listeners, k).nodes),
        c.out.len() == c.nodes.len() ==> c.tell_all(t, s, listeners, k).out.len() == c.out.len(),
    decreases k,
{
    if k > 0 {
        lemma_tell_all_ends(c, t, s, listeners, k - 1);
        let b = c.tell_all(t, s, listeners, k - 1);
        lemma_tell_ends(b, t, s, listeners[k - 1]);
        assert forall|i: int| 0 <= i < c.nodes.len() implies (#[trigger] c.nodes[i]).decided == c.tell_all(
            t,
            s,
            listeners,
            k,
        ).nodes[i].decided by {
            assert(b.nodes[i].decided == c.nodes[i].decided);
        }
    }
}

/// Settling a node ends that node and no other.
pub proof fn lemma_settle_decides(c: Cascade, t: int, s: TerminalState)
    requires
        0 <= t < c.nodes.len(),
        c.nodes[t].decided is None,
    ensures
        undecided(c.settle(t, s).nodes) < undecided(c.nodes),
        undecided(c.settle(t, s).nodes) == undecided(c.nodes) - 1,
        c.settle(t, s).nodes.len() == c.nodes.len(),
        c.settle(t, s).nodes[t].decided == Some(s),
        forall|i: int|
            0 <= i < c.nodes.len() && i != t ==> (#[trigger] c.settle(t, s).nodes[i]).decided == c.nodes[i].decided,
        c.out.len() == c.nodes.len() ==> c.settle(t, s).out.len() == c.out.len(),
{
    let listeners = c.nodes[t].dependents;
    let ended = Cascade { nodes: c.nodes.update(t, WaitingView { decided: Some(s), ..c.nodes[t] }), ..c };
    lemma_tell_all_ends(ended, t, s, listeners, listeners.len() as int);
    lemma_undecided_update(c.nodes, t, s);
    lemma_undecided_same(ended.nodes, c.settle(t, s).nodes);
    assert forall|i: int| 0 <= i < c.nodes.len() && i != t implies (#[trigger] c.settle(t, s).nodes[i]).decided
        == c.nodes[i].decided by {
        assert(ended.nodes[i].decided == c.settle(t, s).nodes[i].decided);
    }
    assert(ended.nodes[t].decided == c.settle(t, s).nodes[t].decided);
}

/// The decisions of the first `k` nodes, in name order.
pub open spec fn listed(out: Seq<Option<Decision>>, k: int) -> Seq<Decision>
    decreases k,
{
    if k <= 0 {
        Seq::empty()
    } else {
        match out[k - 1] {
            Some(d) => listed(out, k - 1).push(d),
            None => listed(out, k - 1),
        }
    }
}

/// Whether the first node with the identity stands at `i`.
pub open spec fn found_at(nodes: Seq<WaitingView>, id: NodeId, i: int) -> bool {
    &&& 0 <= i < nodes.len()
    &&& nodes[i].id == id
    &&& forall|j: int| 0 <= j < i ==> (#[trigger] nodes[j]).id != id
}

/// The numbers below `n` that have the property, in increasing order.
pub open spec fn ascending(n: int, property: spec_fn(int) -> bool) -> Seq<int>
    decreases n,
{
    if n <= 0 {
        Seq::empty()
    } else if property(n - 1) {
        ascending(n - 1, property).push(n - 1)
    } else {
        ascending(n - 1, property)
    }
}

/// For each name, the names of the nodes that it must run after although it consumes
/// nothing of them.
pub open spec fn ordering_map(ordering: NameMap<Vec<String>>) -> Map<Seq<char>, Seq<Seq<char>>> {
    ordering@.map_values(|v: Vec<String>| v@.map_values(|s: String| s@))
}

/// Whether node `i` must run after node `u` by a run-level ordering.
pub open spec fn ordered_after(p: PipelineView, ordering: Map<Seq<char>, Seq<Seq<char>>>, i: int, u: int) -> bool {
    let name = p.nodes[i].name;
    ordering.dom().contains(name) && exists|k: int|
        0 <= k < ordering[name].len() && p.has_node(handle::node_id(#[trigger] ordering[name][k])) && p.index_of(
            handle::node_id(ordering[name][k]),
        ) == u
}

/// Whether node `i` waits for node `u`: it takes data from it, or is ordered after it.
pub open spec fn waits_for(p: PipelineView, ordering: Map<Seq<char>, Seq<Seq<char>>>, i: int, u: int) -> bool {
    graph::data_inputs(p, i).contains(u) || ordered_after(p, ordering, i, u)
}

/// The contents of a [`ReadinessTracker`].
#[verifier::ext_equal]
pub struct TrackerView {
    pub nodes: Seq<WaitingView>,
    pub initial_ready: Seq<NodeId>,
}

impl TrackerView {
    /// The tracker at the start of a run: nobody has ended, and the nodes that wait for
    /// nothing are ready.
    pub open spec fn of(p: PipelineView, ordering: Map<Seq<char>, Seq<Seq<char>>>) -> Self {
        let n = p.nodes.len() as int;
        let nodes = Seq::new(
            p.nodes.len(),
            |i: int|
                WaitingView {
                    id: p.nodes[i].id,
                    rule: p.nodes[i].declaration.trigger_rule,
                    ups: ascending(n, |u: int| waits_for(p, ordering, i, u)),
                    dependents: ascending(n, |d: int| waits_for(p, ordering, d, i)),
                    heard: Seq::empty(),
                    decided: None,
                },
        );
        TrackerView {
            nodes,
            initial_ready: ascending(n, |i: int| nodes[i].ups.len() == 0).map_values(|i: int| nodes[i].id),
        }
    }

    /// Whether some node has the identity.
    pub open spec fn has(self, id: NodeId) -> bool {
        exists|i: int| found_at(self.nodes, id, i)
    }

    /// The place of the first node with the identity.
    pub open spec fn place(self, id: NodeId) -> int {
        choose|i: int| found_at(self.nodes, id, i)
    }

    /// The node with the identity.
    pub open spec fn node(self, id: NodeId) -> WaitingView {
        self.nodes[self.place(id)]
    }

    /// The cascade that a notification sets off.
    pub open spec fn cascade(self, id: NodeId, state: TerminalState) -> Cascade {
        Cascade {
            nodes: self.nodes,
            stack: seq![(self.place(id), state)],
            out: Seq::new(self.nodes.len(), |i: int| None),
        }.run()
    }

    /// The tracker after a notification. Nothing changes where no node has the
    /// identity.
    pub open spec fn notified(self, id: NodeId, state: TerminalState) -> TrackerView {
        if self.has(id) {
            TrackerView { nodes: self.cascade(id, state).nodes, ..self }
        } else {
            self
        }
    }

    /// What a notification unlocks, in name order.
    pub open spec fn unlocked(self, id: NodeId, state: TerminalState) -> Seq<Decision> {
        if self.has(id) {
            listed(self.cascade(id, state).out, self.nodes.len() as int)
        } else {
            Seq::empty()
        }
    }
}

#[derive(Debug, Clone)]
struct Waiting {
    id: NodeId,
    rule: TriggerRule,
    ups: Vec<usize>,
    dependents: Vec<usize>,
    heard: Vec<(usize, TerminalState)>,
    decided: Option<TerminalState>,
}

spec fn heard_view(h: Seq<(usize, TerminalState)>) -> Seq<(int, TerminalState)> {
    h.map_values(|x: (usize, TerminalState)| (x.0 as int, x.1))
}

spec fn places(v: Seq<usize>) -> Seq<int> {
    v.map_values(|x: usize| x as int)
}

spec fn waiting_view(t: Waiting) -> WaitingView {
    WaitingView {
        id: t.id,
        rule: t.rule,
        ups: places(t.ups@),
        dependents: places(t.dependents@),
        heard: heard_view(t.heard@),
        decided: t.decided,
    }
}

spec fn nodes_view(nodes: Seq<Waiting>) -> Seq<WaitingView> {
    nodes.map_values(|t: Waiting| waiting_view(t))
}

/// Decides which nodes may run as other nodes reach terminal states.
#[derive(Debug, Clone)]
pub struct ReadinessTracker {
    nodes: Vec<Waiting>,
    initial_ready: Vec<NodeId>,
    pending: usize,
}

impl View for ReadinessTracker {
    type V = TrackerView;

    closed spec fn view(&self) -> TrackerView {
        TrackerView { nodes: nodes_view(self.nodes@), initial_ready: self.initial_ready@ }
    }
}

impl ReadinessTracker {
    /// The count of pending nodes is exact, and dependents are nodes.
    pub closed spec fn wf(self) -> bool {
        &&& self.pending == undecided(self@.nodes)
        &&& in_range(self.nodes@)
    }
}

spec fn in_range(nodes: Seq<Waiting>) -> bool {
    &&& forall|i: int, k: int|
        #![trigger nodes[i].dependents@[k]]
        0 <= i < nodes.len() && 0 <= k < nodes[i].dependents.len() ==> nodes[i].dependents@[k] < nodes.len()
    &&& forall|i: int, k: int|
        #![trigger nodes[i].heard@[k]]
        0 <= i < nodes.len() && 0 <= k < nodes[i].heard.len() ==> nodes[i].heard@[k].0 < nodes.len()
}

fn find_origin(heard: &Vec<(usize, TerminalState)>, state: TerminalState) -> (r: usize)
    requires
        heard.len() > 0,
    ensures
        r == origin_place(heard_view(heard@), state),
        exists|k: int| 0 <= k < heard.len() && (#[trigger] heard@[k]).0 == r,
{
    let ghost view = heard_view(heard@);
    let wanted = class_of(state);
    let mut i: usize = 0;
    while i < heard.len()
        invariant
            i <= heard.len(),
            view == heard_view(heard@),
            wanted == readiness::class(state),
            forall|j: int| 0 <= j < i ==> readiness::class((#[trigger] view[j]).1) != wanted,
        decreases heard.len() - i,
    {
        let (place, s) = heard[i];
        assert(view[i as int] == (place as int, s));
        if class_of(s) == wanted {
            proof {
                assert(first_of_class(view, wanted, i as int));
                let k = choose|k: int| first_of_class(view, wanted, k);
                if k < i {
                    assert(readiness::class(view[k].1) == wanted);
                }
                assert(heard@[i as int].0 == place);
            }
            return place;
        }
        i = i + 1;
    }
    assert(forall|k: int| !first_of_class(view, wanted, k));
    let mut i: usize = 0;
    while i < heard.len()
        invariant
            i <= heard.len(),
            view == heard_view(heard@),
            wanted == readiness::class(state),
            forall|k: int| !first_of_class(view, wanted, k),
            forall|j: int| 0 <= j < i ==> readiness::class((#[trigger] view[j]).1) == StateClass::Success,
        decreases heard.len() - i,
    {
        let (place, s) = heard[i];
        assert(view[i as int] == (place as int, s));
        if class_of(s) != StateClass::Success {
            proof {
                assert(first_unsuccessful(view, i as int));
                let k = choose|k: int| first_unsuccessful(view, k);
                if k < i {
                    assert(readiness::class(view[k].1) == StateClass::Success);
                }
                assert(heard@[i as int].0 == place);
            }
            return place;
        }
        i = i + 1;
    }
    assert(forall|k: int| !first_unsuccessful(view, k));
    assert(view[0] == (heard@[0].0 as int, heard@[0].1));
    heard[0].0
}

fn states_heard(heard: &Vec<(usize, TerminalState)>) -> (r: Vec<TerminalState>)
    ensures
        r@ == heard_view(heard@).map_values(|h: (int, TerminalState)| h.1),
{
    let mut out: Vec<TerminalState> = Vec::new();
    let mut i: usize = 0;
    while i < heard.len()
        invariant
            i <= heard.len(),
            out.len() == i,
            forall|k: int| 0 <= k < i ==> #[trigger] out@[k] == heard@[k].1,
        decreases heard.len() - i,
    {
        out.push(heard[i].1);
        i = i + 1;
    }
    assert(out@ =~= heard_view(heard@).map_values(|h: (int, TerminalState)| h.1));
    out
}

spec fn cascade_view(
    nodes: Seq<Waiting>,
    stack: Seq<(usize, TerminalState)>,
    out: Seq<Option<Decision>>,
) -> Cascade {
    Cascade { nodes: nodes_view(nodes), stack: heard_view(stack), out }
}

impl ReadinessTracker {
    /// The nodes that can run at once, in name order.
    #[must_use]
    pub fn initial_ready(&self) -> (r: &[NodeId])
        ensures
            r@ == self@.initial_ready,
    {
        self.initial_ready.as_slice()
    }

    fn find(&self, id: NodeId) -> (r: Option<usize>)
        ensures
            match r {
                Some(i) => self@.has(id) && self@.place(id) == i && found_at(self@.nodes, id, i as int),
                None => !self@.has(id),
            },
    {
        let mut i: usize = 0;
        while i < self.nodes.len()
            invariant
                i <= self.nodes.len(),
                forall|j: int| 0 <= j < i ==> (#[trigger] self@.nodes[j]).id != id,
            decreases self.nodes.len() - i,
        {
            assert(self@.nodes[i as int] == waiting_view(self.nodes@[i as int]));
            if self.nodes[i].id == id {
                proof {
                    assert(found_at(self@.nodes, id, i as int));
                    let k = self@.place(id);
                    assert(found_at(self@.nodes, id, k));
                    if k < i {
                        assert(self@.nodes[k].id == id);
                    }
                }
                return Some(i);
            }
            i = i + 1;
        }
        None
    }

    /// How many upstreams the node has not heard of, as far as 32 bits hold it.
    #[must_use]
    pub fn remaining_dependencies(&self, node: NodeId) -> (r: Option<u32>)
        ensures
            match r {
                Some(c) => self@.has(node) && c == (if self@.node(node).remaining() <= u32::MAX {
                    self@.node(node).remaining() as u32
                } else {
                    u32::MAX
                }),
                None => !self@.has(node),
            },
    {
        match self.find(node) {
            Some(i) => {
                assert(self@.nodes[i as int] == waiting_view(self.nodes@[i as int]));
                let total: usize = self.nodes[i].ups.len();
                let heard: usize = self.nodes[i].heard.len();
                let left: usize = if heard <= total { total - heard } else { 0 };
                if left as u64 <= u32::MAX as u64 {
                    Some(left as u32)
                } else {
                    Some(u32::MAX)
                }
            },
            None => None,
        }
    }

    /// Whether the node has ended.
    #[must_use]
    pub fn is_decided(&self, node: NodeId) -> (r: bool)
        ensures
            r == (self@.has(node) && self@.node(node).decided is Some),
    {
        match self.find(node) {
            Some(i) => {
                assert(self@.nodes[i as int] == waiting_view(self.nodes@[i as int]));
                self.nodes[i].decided.is_some()
            },
            None => false,
        }
    }

    /// The state the node has ended in.
    #[must_use]
    pub fn terminal_state(&self, node: NodeId) -> (r: Option<TerminalState>)
        ensures
            r == (if self@.has(node) {
                self@.node(node).decided
            } else {
                None
            }),
    {
        match self.find(node) {
            Some(i) => {
                assert(self@.nodes[i as int] == waiting_view(self.nodes@[i as int]));
                self.nodes[i].decided
            },
            None => None,
        }
    }

    /// How many nodes have not ended.
    #[must_use]
    pub fn pending_count(&self) -> (r: usize)
        requires
            self.wf(),
        ensures
            r == undecided(self@.nodes),
    {
        self.pending
    }

    /// Notes that a node has ended, and says what that unlocks, in name order: nodes
    /// that are ready, and nodes that end without running, whose dependents hear of
    /// it in the same call.
    pub fn notify_terminal(&mut self, node: NodeId, state: TerminalState) -> (r: Vec<Decision>)
        requires
            old(self).wf(),
        ensures
            final(self).wf(),
            final(self)@ == old(self)@.notified(node, state),
            r@ == old(self)@.unlocked(node, state),
    {
        let start: usize = match self.find(node) {
            Some(i) => i,
            None => {
                return Vec::new();
            },
        };
        let n: usize = self.nodes.len();
        let mut out: Vec<Option<Decision>> = Vec::new();
        while out.len() < n
            invariant
                out.len() <= n,
                forall|i: int| 0 <= i < out.len() ==> #[trigger] out@[i] is None,
            decreases n - out.len(),
        {
            out.push(None);
        }
        let mut stack: Vec<(usize, TerminalState)> = vec![(start, state)];
        let ghost goal = self@.cascade(node, state);
        proof {
            let c = cascade_view(self.nodes@, stack@, out@);
            assert(c.stack =~= seq![(self@.place(node), state)]);
            assert(c.out =~= Seq::new(self@.nodes.len(), |i: int| None));
        }
        while stack.len() > 0
            invariant
                self.nodes.len() == n,
                out.len() == n,
                self.initial_ready@ == old(self)@.initial_ready,
                self.pending == undecided(nodes_view(self.nodes@)),
                in_range(self.nodes@),
                forall|k: int| 0 <= k < stack.len() ==> (#[trigger] stack@[k]).0 < n,
                cascade_view(self.nodes@, stack@, out@).run() == goal,
            decreases undecided(nodes_view(self.nodes@)), stack.len(),
        {
            let ghost before = cascade_view(self.nodes@, stack@, out@);
            let (t, s) = stack.pop().unwrap();
            let ghost rest = cascade_view(self.nodes@, stack@, out@);
            proof {
                assert(before.stack.last() == (t as int, s));
                assert(rest.stack =~= before.stack.drop_last());
                assert(rest =~= Cascade { stack: before.stack.drop_last(), ..before });
                assert(rest.nodes[t as int] == waiting_view(self.nodes@[t as int]));
            }
            if self.nodes[t].decided.is_none() {
                proof {
                    lemma_settle_decides(rest, t as int, s);
                    lemma_undecided_update(rest.nodes, t as int, s);
                }
                self.settle(t, s, &mut stack, &mut out);
                self.pending = self.pending - 1;
            }
        }
        proof {
            let c = cascade_view(self.nodes@, stack@, out@);
            assert(c.stack.len() == 0);
            assert(c == goal);
        }
        list_decisions(&out)
    }

    fn settle(&mut self, t: usize, s: TerminalState, stack: &mut Vec<(usize, TerminalState)>, out: &mut Vec<Option<Decision>>)
        requires
            t < old(self).nodes.len(),
            old(out).len() == old(self).nodes.len(),
            in_range(old(self).nodes@),
            forall|k: int| 0 <= k < old(stack).len() ==> (#[trigger] old(stack)@[k]).0 < old(self).nodes.len(),
        ensures
            final(self).nodes.len() == old(self).nodes.len(),
            final(out).len() == old(out).len(),
            in_range(final(self).nodes@),
            forall|k: int| 0 <= k < final(stack).len() ==> (#[trigger] final(stack)@[k]).0 < old(self).nodes.len(),
            final(self).pending == old(self).pending,
            final(self).initial_ready == old(self).initial_ready,
            cascade_view(final(self).nodes@, final(stack)@, final(out)@) == cascade_view(
                old(self).nodes@,
                old(stack)@,
                old(out)@,
            ).settle(t as int, s),
    {
        let ghost first = cascade_view(self.nodes@, stack@, out@);
        let ghost listeners = first.nodes[t as int].dependents;
        let n: usize = self.nodes.len();
        let count: usize = self.nodes[t].dependents.len();
        let ghost was = self.nodes@[t as int];
        self.nodes[t].decided = Some(s);
        let ghost ended = cascade_view(self.nodes@, stack@, out@);
        proof {
            assert(ended.nodes =~= first.nodes.update(
                t as int,
                WaitingView { decided: Some(s), ..first.nodes[t as int] },
            ));
        }
        let mut k: usize = 0;
        while k < count
            invariant
                k <= count,
                t < n,
                self.nodes.len() == n,
                out.len() == n,
                in_range(self.nodes@),
                forall|j: int| 0 <= j < stack.len() ==> (#[trigger] stack@[j]).0 < n,
                self.pending == old(self).pending,
                self.initial_ready == old(self).initial_ready,
                places(self.nodes@[t as int].dependents@) == listeners,
                count == listeners.len(),
                cascade_view(self.nodes@, stack@, out@) == ended.tell_all(t as int, s, listeners, k as int),
            decreases count - k,
        {
            let d: usize = self.nodes[t].dependents[k];
            assert(listeners[k as int] == d);
            self.tell(t, s, d, stack, out);
            k = k + 1;
        }
    }

    fn tell(
        &mut self,
        t: usize,
        s: TerminalState,
        d: usize,
        stack: &mut Vec<(usize, TerminalState)>,
        out: &mut Vec<Option<Decision>>,
    )
        requires
            t < old(self).nodes.len(),
            d < old(self).nodes.len(),
            old(out).len() == old(self).nodes.len(),
            in_range(old(self).nodes@),
            forall|k: int| 0 <= k < old(stack).len() ==> (#[trigger] old(stack)@[k]).0 < old(self).nodes.len(),
        ensures
            final(self).nodes.len() == old(self).nodes.len(),
            final(out).len() == old(out).len(),
            in_range(final(self).nodes@),
            forall|k: int| 0 <= k < final(stack).len() ==> (#[trigger] final(stack)@[k]).0 < old(self).nodes.len(),
            final(self).pending == old(self).pending,
            final(self).initial_ready == old(self).initial_ready,
            forall|i: int|
                0 <= i < old(self).nodes.len() ==> (#[trigger] final(self).nodes@[i]).dependents
                    == old(self).nodes@[i].dependents,
            cascade_view(final(self).nodes@, final(stack)@, final(out)@) == cascade_view(
                old(self).nodes@,
                old(stack)@,
                old(out)@,
            ).tell(t as int, s, d as int),
    {
        let ghost first = cascade_view(self.nodes@, stack@, out@);
        let ghost before = self.nodes@;
        proof {
            assert(first.nodes[d as int] == waiting_view(before[d as int]));
        }
        if self.nodes[d].decided.is_some() {
            return;
        }
        self.nodes[d].heard.push((t, s));
        let ghost told = first.nodes[d as int].hears(t as int, s);
        proof {
            let after = self.nodes@[d as int];
            assert(heard_view(after.heard@) =~= heard_view(before[d as int].heard@).push((t as int, s)));
            assert(waiting_view(after) =~= told);
            assert(nodes_view(self.nodes@) =~= first.nodes.update(d as int, told));
        }
        if self.nodes[d].heard.len() < self.nodes[d].ups.len() {
            return;
        }
        let id = self.nodes[d].id;
        let states = states_heard(&self.nodes[d].heard);
        match evaluate_rule(self.nodes[d].rule, states.as_slice()) {
            RuleOutcome::Fires => {
                out.set(d, Some(Decision::Ready(id)));
            },
            RuleOutcome::Propagate(propagated) => {
                let place = find_origin(&self.nodes[d].heard, propagated);
                let origin = self.nodes[place].id;
                assert(nodes_view(self.nodes@)[place as int].id == origin);
                out.set(d, Some(Decision::PropagatedTerminal { node: id, state: propagated, origin }));
                let ghost stacked = stack@;
                stack.push((d, propagated));
                assert(heard_view(stack@) =~= heard_view(stacked).push((d as int, propagated)));
            },
        }
    }
}

/// Marks the nodes that node `i` waits for.
fn mark_upstreams(pipeline: &Pipeline, ordering: &NameMap<Vec<String>>, i: usize) -> (r: Vec<bool>)
    requires
        i < pipeline@.nodes.len(),
        ordering.wf(),
    ensures
        r.len() == pipeline@.nodes.len(),
        forall|u: int|
            0 <= u < r.len() ==> #[trigger] r@[u] == waits_for(pipeline@, ordering_map(*ordering), i as int, u),
{
    let ghost p = pipeline@;
    let ghost om = ordering_map(*ordering);
    let n: usize = pipeline.len();
    let mut marks: Vec<bool> = Vec::new();
    while marks.len() < n
        invariant
            marks.len() <= n,
            forall|u: int| 0 <= u < marks.len() ==> !#[trigger] marks@[u],
        decreases n - marks.len(),
    {
        marks.push(false);
    }
    let inputs = graph::find_data_inputs(pipeline, i);
    let ghost data = graph::data_inputs(p, i as int);
    let mut k: usize = 0;
    while k < inputs.len()
        invariant
            k <= inputs.len(),
            n == p.nodes.len(),
            marks.len() == n,
            graph::places(inputs@) == data,
            forall|j: int| 0 <= j < inputs.len() ==> #[trigger] inputs@[j] < n,
            forall|u: int|
                0 <= u < n ==> #[trigger] marks@[u] == exists|j: int| 0 <= j < k && #[trigger] data[j] == u,
        decreases inputs.len() - k,
    {
        let ghost before = marks@;
        marks.set(inputs[k], true);
        proof {
            assert(data[k as int] == inputs@[k as int]);
            assert forall|u: int| 0 <= u < n implies #[trigger] marks@[u] == exists|j: int|
                0 <= j < k + 1 && #[trigger] data[j] == u by {
                if u == inputs@[k as int] {
                    assert(data[k as int] == u);
                } else {
                    assert(marks@[u] == before[u]);
                }
            }
        }
        k = k + 1;
    }
    proof {
        assert(data.len() == inputs.len());
        assert forall|u: int| 0 <= u < n implies #[trigger] marks@[u] == data.contains(u) by {}
    }
    let name = pipeline.node_at(i).name();
    match ordering.get(name) {
        Some(after) => {
            let ghost list = om[name@];
            proof {
                assert(list =~= after@.map_values(|s: String| s@));
            }
            let mut k: usize = 0;
            while k < after.len()
                invariant
                    k <= after.len(),
                    p == pipeline@,
                    n == p.nodes.len(),
                    marks.len() == n,
                    list == after@.map_values(|s: String| s@),
                    forall|u: int|
                        0 <= u < n ==> #[trigger] marks@[u] == (data.contains(u) || exists|j: int|
                            0 <= j < k && p.has_node(handle::node_id(#[trigger] list[j])) && p.index_of(
                                handle::node_id(list[j]),
                            ) == u),
                decreases after.len() - k,
            {
                let ghost before = marks@;
                let id = NodeId::from_name(after[k].as_str());
                assert(id == handle::node_id(list[k as int]));
                match pipeline.index_of(id) {
                    Some(u) => {
                        marks.set(u, true);
                    },
                    None => {},
                }
                proof {
                    assert forall|u: int| 0 <= u < n implies #[trigger] marks@[u] == (data.contains(u) || exists|j: int|
                        0 <= j < k + 1 && p.has_node(handle::node_id(#[trigger] list[j])) && p.index_of(
                            handle::node_id(list[j]),
                        ) == u) by {
                        if p.has_node(id) && p.index_of(id) == u {
                            assert(p.has_node(handle::node_id(list[k as int])));
                        } else {
                            assert(marks@[u] == before[u]);
                        }
                    }
                }
                k = k + 1;
            }
        },
        None => {},
    }
    marks
}

/// Collects the marked places.
fn collect_marked(marks: &Vec<bool>, Ghost(property): Ghost<spec_fn(int) -> bool>) -> (r: Vec<usize>)
    requires
        forall|u: int| 0 <= u < marks.len() ==> #[trigger] marks@[u] == property(u),
    ensures
        places(r@) == ascending(marks.len() as int, property),
        forall|k: int| 0 <= k < r.len() ==> #[trigger] r@[k] < marks.len(),
{
    let mut out: Vec<usize> = Vec::new();
    let mut i: usize = 0;
    assert(places(out@) =~= ascending(0, property));
    while i < marks.len()
        invariant
            i <= marks.len(),
            forall|u: int| 0 <= u < marks.len() ==> #[trigger] marks@[u] == property(u),
            places(out@) == ascending(i as int, property),
            forall|k: int| 0 <= k < out.len() ==> #[trigger] out@[k] < i,
        decreases marks.len() - i,
    {
        let ghost before = out@;
        if marks[i] {
            out.push(i);
            assert(places(out@) =~= places(before).push(i as int));
        }
        i = i + 1;
    }
    out
}

/// Which numbers are listed in increasing order.
pub proof fn lemma_ascending(n: int, property: spec_fn(int) -> bool)
    ensures
        forall|u: int| #[trigger] ascending(n, property).contains(u) <==> 0 <= u < n && property(u),
        ascending(n, property).no_duplicates(),
        forall|k: int| 0 <= k < ascending(n, property).len() ==> 0 <= #[trigger] ascending(n, property)[k] < n,
        n >= 0 ==> ascending(n, property).len() <= n,
    decreases n,
{
    if n > 0 {
        lemma_ascending(n - 1, property);
        let rest = ascending(n - 1, property);
        let all = ascending(n, property);
        assert forall|u: int| #[trigger] all.contains(u) <==> 0 <= u < n && property(u) by {
            if all.contains(u) {
                let k = choose|k: int| 0 <= k < all.len() && all[k] == u;
                if k < rest.len() {
                    assert(rest.contains(rest[k]));
                }
            }
            if 0 <= u < n && property(u) {
                if u < n - 1 {
                    assert(rest.contains(u));
                    let k = choose|k: int| 0 <= k < rest.len() && rest[k] == u;
                    assert(all[k] == u);
                } else {
                    assert(all[rest.len() as int] == u);
                }
            }
        }
        assert forall|k: int| 0 <= k < all.len() implies 0 <= #[trigger] all[k] < n by {
            assert(all.contains(all[k]));
        }
        assert forall|a: int, b: int| 0 <= a < all.len() && 0 <= b < all.len() && a != b implies all[a] != all[b] by {
            if a < rest.len() && b < rest.len() {
                assert(rest[a] != rest[b]);
            } else if a < rest.len() {
                assert(0 <= rest[a] < n - 1);
            } else {
                assert(0 <= rest[b] < n - 1);
            }
        }
    } else {
        assert(ascending(n, property) =~= Seq::<int>::empty());
    }
}

impl ReadinessTracker {
    /// A tracker for a pipeline that has been assembled, given what assembly made of it.
    #[must_use]
    pub fn new(pipeline: &Pipeline, artifact: &AssemblyArtifact) -> (r: Self)
        requires
            artifact@ == ArtifactView::of(pipeline@),
        ensures
            r.wf(),
            r@ == TrackerView::of(pipeline@, Map::empty()),
    {
        let none: NameMap<Vec<String>> = NameMap::new();
        assert(ordering_map(none) =~= Map::empty());
        ReadinessTracker::new_with_ordering(pipeline, artifact, &none)
    }

    /// A tracker that also makes nodes wait for nodes of which they consume nothing.
    /// A node waits once for each distinct upstream, however it comes by it. Names that
    /// no node has are passed over.
    #[must_use]
    pub fn new_with_ordering(
        pipeline: &Pipeline,
        _artifact: &AssemblyArtifact,
        ordering: &NameMap<Vec<String>>,
    ) -> (r: Self)
        requires
            _artifact@ == ArtifactView::of(pipeline@),
            ordering.wf(),
        ensures
            r.wf(),
            r@ == TrackerView::of(pipeline@, ordering_map(*ordering)),
    {
        let ghost p = pipeline@;
        let ghost om = ordering_map(*ordering);
        let ghost goal = TrackerView::of(p, om);
        let n: usize = pipeline.len();
        let mut nodes: Vec<Waiting> = Vec::new();
        while nodes.len() < n
            invariant
                p == pipeline@,
                om == ordering_map(*ordering),
                ordering.wf(),
                n == p.nodes.len(),
                goal == TrackerView::of(p, om),
                nodes.len() <= n,
                forall|i: int|
                    0 <= i < nodes.len() ==> waiting_view(#[trigger] nodes@[i]) == (WaitingView {
                        dependents: Seq::empty(),
                        ..goal.nodes[i]
                    }),
                forall|i: int, k: int|
                    #![trigger nodes@[i].ups@[k]]
                    0 <= i < nodes.len() && 0 <= k < nodes@[i].ups.len() ==> nodes@[i].ups@[k] < n,
            decreases n - nodes.len(),
        {
            let i: usize = nodes.len();
            let marks = mark_upstreams(pipeline, ordering, i);
            let ups = collect_marked(&marks, Ghost(|u: int| waits_for(p, om, i as int, u)));
            let node = pipeline.node_at(i);
            let fresh = Waiting {
                id: node.id(),
                rule: node.trigger_rule(),
                ups,
                dependents: Vec::new(),
                heard: Vec::new(),
                decided: None,
            };
            proof {
                assert(waiting_view(fresh) =~= (WaitingView { dependents: Seq::empty(), ..goal.nodes[i as int] }));
            }
            nodes.push(fresh);
        }
        let mut d: usize = 0;
        while d < n
            invariant
                p == pipeline@,
                n == p.nodes.len(),
                goal == TrackerView::of(p, om),
                nodes.len() == n,
                d <= n,
                forall|u: int|
                    0 <= u < n ==> waiting_view(#[trigger] nodes@[u]) == (WaitingView {
                        dependents: ascending(d as int, |e: int| waits_for(p, om, e, u)),
                        ..goal.nodes[u]
                    }),
                forall|i: int, k: int|
                    #![trigger nodes@[i].ups@[k]]
                    0 <= i < n && 0 <= k < nodes@[i].ups.len() ==> nodes@[i].ups@[k] < n,
            decreases n - d,
        {
            wire(&mut nodes, d, Ghost(p), Ghost(om));
            d = d + 1;
        }
        let mut initial_ready: Vec<NodeId> = Vec::new();
        let ghost none_up = |i: int| goal.nodes[i].ups.len() == 0;
        let mut i: usize = 0;
        assert(initial_ready@ =~= ascending(0, none_up).map_values(|i: int| goal.nodes[i].id));
        while i < n
            invariant
                i <= n,
                n == p.nodes.len(),
                goal == TrackerView::of(p, om),
                nodes.len() == n,
                forall|u: int| 0 <= u < n ==> waiting_view(#[trigger] nodes@[u]) == goal.nodes[u],
                none_up == (|i: int| goal.nodes[i].ups.len() == 0),
                initial_ready@ == ascending(i as int, none_up).map_values(|i: int| goal.nodes[i].id),
            decreases n - i,
        {
            assert(waiting_view(nodes@[i as int]) == goal.nodes[i as int]);
            let ghost before = initial_ready@;
            if nodes[i].ups.len() == 0 {
                let id = nodes[i].id;
                initial_ready.push(id);
                assert(initial_ready@ =~= ascending(i as int + 1, none_up).map_values(|i: int| goal.nodes[i].id));
            }
            i = i + 1;
        }
        let r = ReadinessTracker { nodes, initial_ready, pending: n };
        proof {
            assert(nodes_view(r.nodes@) =~= goal.nodes);
            assert(none_up =~= (|i: int| goal.nodes[i].ups.len() == 0));
            assert(r@ =~= goal);
            lemma_all_undecided(goal.nodes);
            assert forall|i: int, k: int|
                #![trigger r.nodes@[i].dependents@[k]]
                0 <= i < n && 0 <= k < r.nodes@[i].dependents.len() implies r.nodes@[i].dependents@[k] < n by {
                lemma_ascending(n as int, |e: int| waits_for(p, om, e, i));
                assert(waiting_view(r.nodes@[i]) == goal.nodes[i]);
                assert(goal.nodes[i].dependents[k] == r.nodes@[i].dependents@[k]);
            }
            assert forall|i: int, k: int|
                #![trigger r.nodes@[i].heard@[k]]
                0 <= i < n && 0 <= k < r.nodes@[i].heard.len() implies r.nodes@[i].heard@[k].0 < n by {
                assert(waiting_view(r.nodes@[i]) == goal.nodes[i]);
                assert(goal.nodes[i].heard.len() == r.nodes@[i].heard.len());
            }
        }
        r
    }
}

proof fn lemma_all_undecided(nodes: Seq<WaitingView>)
    requires
        forall|i: int| 0 <= i < nodes.len() ==> (#[trigger] nodes[i]).decided is None,
    ensures
        undecided(nodes) == nodes.len(),
    decreases nodes.len(),
{
    if nodes.len() > 0 {
        let front = nodes.drop_last();
        assert forall|i: int| 0 <= i < front.len() implies (#[trigger] front[i]).decided is None by {
            assert(front[i] == nodes[i]);
        }
        lemma_all_undecided(front);
        assert(nodes[nodes.len() - 1].decided is None);
    }
}

/// Enters node `d` as a dependent of each of its upstreams.
fn wire(nodes: &mut Vec<Waiting>, d: usize, Ghost(p): Ghost<PipelineView>, Ghost(om): Ghost<Map<Seq<char>, Seq<Seq<char>>>>)
    requires
        d < old(nodes).len(),
        old(nodes).len() == p.nodes.len(),
        forall|u: int|
            0 <= u < old(nodes).len() ==> waiting_view(#[trigger] old(nodes)@[u]) == (WaitingView {
                dependents: ascending(d as int, |e: int| waits_for(p, om, e, u)),
                ..TrackerView::of(p, om).nodes[u]
            }),
        forall|i: int, k: int|
            #![trigger old(nodes)@[i].ups@[k]]
            0 <= i < old(nodes).len() && 0 <= k < old(nodes)@[i].ups.len() ==> old(nodes)@[i].ups@[k] < old(nodes).len(),
    ensures
        final(nodes).len() == old(nodes).len(),
        forall|u: int|
            0 <= u < final(nodes).len() ==> waiting_view(#[trigger] final(nodes)@[u]) == (WaitingView {
                dependents: ascending(d + 1, |e: int| waits_for(p, om, e, u)),
                ..TrackerView::of(p, om).nodes[u]
            }),
        forall|i: int, k: int|
            #![trigger final(nodes)@[i].ups@[k]]
            0 <= i < final(nodes).len() && 0 <= k < final(nodes)@[i].ups.len() ==> final(nodes)@[i].ups@[k]
                < final(nodes).len(),
{
    let ghost goal = TrackerView::of(p, om);
    let n: usize = nodes.len();
    let count: usize = nodes[d].ups.len();
    let ghost ups = goal.nodes[d as int].ups;
    proof {
        assert(waiting_view(nodes@[d as int]).ups == ups);
        lemma_ascending(n as int, |u: int| waits_for(p, om, d as int, u));
    }
    let mut k: usize = 0;
    while k < count
        invariant
            k <= count,
            d < n,
            n == p.nodes.len(),
            nodes.len() == n,
            goal == TrackerView::of(p, om),
            ups == goal.nodes[d as int].ups,
            ups.no_duplicates(),
            count == ups.len(),
            forall|u: int|
                0 <= u < n ==> waiting_view(#[trigger] nodes@[u]) == (WaitingView {
                    dependents: if ups.take(k as int).contains(u) {
                        ascending(d as int, |e: int| waits_for(p, om, e, u)).push(d as int)
                    } else {
                        ascending(d as int, |e: int| waits_for(p, om, e, u))
                    },
                    ..goal.nodes[u]
                }),
            forall|i: int, k: int|
                #![trigger nodes@[i].ups@[k]]
                0 <= i < n && 0 <= k < nodes@[i].ups.len() ==> nodes@[i].ups@[k] < n,
        decreases count - k,
    {
        assert(waiting_view(nodes@[d as int]).ups == ups);
        let u: usize = nodes[d].ups[k];
        let ghost before = nodes@;
        assert(ups[k as int] == u);
        proof {
            assert(!ups.take(k as int).contains(u as int)) by {
                if ups.take(k as int).contains(u as int) {
                    let j = choose|j: int| 0 <= j < k && ups.take(k as int)[j] == u;
                    assert(ups[j] == ups[k as int]);
                }
            }
        }
        nodes[u].dependents.push(d);
        proof {
            assert forall|v: int| 0 <= v < n implies waiting_view(#[trigger] nodes@[v]) == (WaitingView {
                dependents: if ups.take(k + 1).contains(v) {
                    ascending(d as int, |e: int| waits_for(p, om, e, v)).push(d as int)
                } else {
                    ascending(d as int, |e: int| waits_for(p, om, e, v))
                },
                ..goal.nodes[v]
            }) by {
                assert(waiting_view(before[v]).ups == goal.nodes[v].ups);
                if v == u {
                    assert(ups.take(k + 1)[k as int] == v);
                    assert(places(nodes@[v].dependents@) =~= places(before[v].dependents@).push(d as int));
                    assert(waiting_view(nodes@[v]) =~= (WaitingView {
                        dependents: ascending(d as int, |e: int| waits_for(p, om, e, v)).push(d as int),
                        ..goal.nodes[v]
                    }));
                } else {
                    assert(nodes@[v] == before[v]);
                    assert(ups.take(k + 1).contains(v) == ups.take(k as int).contains(v)) by {
                        let grown = ups.take(k + 1);
                        if grown.contains(v) {
                            let j = choose|j: int| 0 <= j < grown.len() && grown[j] == v;
                            assert(ups.take(k as int)[j] == v);
                        }
                        if ups.take(k as int).contains(v) {
                            let j = choose|j: int| 0 <= j < k && ups.take(k as int)[j] == v;
                            assert(ups.take(k + 1)[j] == v);
                        }
                    }
                }
            }
        }
        k = k + 1;
    }
    proof {
        assert(ups.take(k as int) =~= ups);
        assert forall|u: int| 0 <= u < n implies waiting_view(#[trigger] nodes@[u]) == (WaitingView {
            dependents: ascending(d + 1, |e: int| waits_for(p, om, e, u)),
            ..goal.nodes[u]
        }) by {
            assert(ups.contains(u) <==> waits_for(p, om, d as int, u));
        }
    }
}

fn list_decisions(out: &Vec<Option<Decision>>) -> (r: Vec<Decision>)
    ensures
        r@ == listed(out@, out.len() as int),
{
    let mut list: Vec<Decision> = Vec::new();
    let mut i: usize = 0;
    while i < out.len()
        invariant
            i <= out.len(),
            list@ == listed(out@, i as int),
        decreases out.len() - i,
    {
        match out[i] {
            Some(d) => {
                list.push(d);
            },
            None => {},
        }
        i = i + 1;
    }
    list
}

} // verus!
