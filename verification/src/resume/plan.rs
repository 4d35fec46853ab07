//! The resume plan and how it is computed.

use super::{PolicyDiff, PriorRun, PriorRunView, ReferenceExistence, RefusalView, ResumeRefusal};
use crate::assembly::encoding;
use crate::assembly::graph;
use crate::context::TerminalState;
use crate::flow::{self, Pipeline, PipelineView};
use crate::names::{self, NameMap};
use crate::text;
use vstd::prelude::*;

verus! {

/// Whether node `i` succeeded in the prior run.
pub open spec fn succeeded(p: PipelineView, prior: PriorRunView, i: int) -> bool {
    prior.nodes.dom().contains(p.nodes[i].name) && prior.nodes[p.nodes[i].name].terminal == TerminalState::Succeeded
}

/// The stored output of node `i`: the reference that its prior success recorded, where
/// the node is durable.
pub open spec fn reference(p: PipelineView, prior: PriorRunView, i: int) -> Option<Seq<char>> {
    if succeeded(p, prior, i) && p.nodes[i].policy().durable {
        prior.nodes[p.nodes[i].name].durable_reference
    } else {
        None
    }
}

/// Whether a node that ended in a state was executed in its run.
pub open spec fn executed_in(terminal: TerminalState) -> bool {
    match terminal {
        TerminalState::Succeeded => true,
        TerminalState::Failed => true,
        TerminalState::TimedOut => true,
        TerminalState::Skipped => true,
        TerminalState::Abandoned => true,
        TerminalState::UpstreamSkipped => false,
        TerminalState::UpstreamFailed => false,
        TerminalState::Cancelled => false,
        TerminalState::SatisfiedFromPrior => false,
    }
}

/// Whether node `i` was executed in the prior run.
pub open spec fn executed(p: PipelineView, prior: PriorRunView, i: int) -> bool {
    prior.nodes.dom().contains(p.nodes[i].name) && executed_in(prior.nodes[p.nodes[i].name].terminal)
}

/// Whether a teardown that was executed in the prior run covers node `i`.
pub open spec fn covered(p: PipelineView, prior: PriorRunView, i: int) -> bool {
    exists|t: int, k: int|
        #![trigger p.nodes[t].declaration.covers[k]]
        0 <= t < p.nodes.len() && executed(p, prior, t) && 0 <= k < p.nodes[t].declaration.covers.len() && p.has_node(
            p.nodes[t].declaration.covers[k],
        ) && p.index_of(p.nodes[t].declaration.covers[k]) == i
}

/// Whether node `i` must run again on its own account: it did not succeed, or a
/// teardown was executed that may have destroyed its output.
pub open spec fn in_seed(p: PipelineView, prior: PriorRunView, i: int) -> bool {
    !succeeded(p, prior, i) || covered(p, prior, i)
}

/// The nodes that must run again on their own account.
pub open spec fn seed_flags(p: PipelineView, prior: PriorRunView) -> Seq<bool> {
    Seq::new(p.nodes.len(), |i: int| in_seed(p, prior, i))
}

/// Whether some of the places is marked.
pub open spec fn any_marked(marks: Seq<bool>, places: Seq<int>) -> bool {
    exists|k: int| 0 <= k < places.len() && marks[#[trigger] places[k]]
}

/// The marks after a pass over the first `k` nodes in name order that marks each node
/// with a marked upstream.
pub open spec fn downward(p: PipelineView, marks: Seq<bool>, k: int) -> Seq<bool>
    decreases k,
{
    if k <= 0 {
        marks
    } else {
        let m = downward(p, marks, k - 1);
        if any_marked(m, graph::upstreams(p, k - 1)) {
            m.update(k - 1, true)
        } else {
            m
        }
    }
}

/// The state of the planning: the nodes that must run, and the producers whose stored
/// outputs have been asked for, in order.
#[verifier::ext_equal]
pub struct Round {
    pub must: Seq<bool>,
    pub probed: Seq<int>,
}

/// The value of producer `j` is needed: nothing is done where it runs anyway; its stored
/// output is asked for where it has one; and otherwise it must run.
pub open spec fn demand(p: PipelineView, prior: PriorRunView, st: Round, j: int) -> Round {
    if st.must[j] {
        st
    } else if reference(p, prior, j) is Some {
        Round { probed: st.probed.push(j), ..st }
    } else {
        Round { must: st.must.update(j, true), ..st }
    }
}

/// The values of the first `k` of the producers are needed.
pub open spec fn demand_inputs(p: PipelineView, prior: PriorRunView, st: Round, inputs: Seq<int>, k: int) -> Round
    decreases k,
{
    if k <= 0 {
        st
    } else {
        demand(p, prior, demand_inputs(p, prior, st, inputs, k - 1), inputs[k - 1])
    }
}

/// The data inputs of those of the first `k` nodes that are marked are needed.
pub open spec fn demand_all(p: PipelineView, prior: PriorRunView, st: Round, marked: Seq<bool>, k: int) -> Round
    decreases k,
{
    if k <= 0 {
        st
    } else {
        let before = demand_all(p, prior, st, marked, k - 1);
        if marked[k - 1] {
            let inputs = graph::data_inputs(p, k - 1);
            demand_inputs(p, prior, before, inputs, inputs.len() as int)
        } else {
            before
        }
    }
}

/// One round: mark downward, and then satisfy what the marked nodes need.
pub open spec fn round(p: PipelineView, prior: PriorRunView, st: Round) -> Round {
    let n = p.nodes.len() as int;
    let m = downward(p, st.must, n);
    demand_all(p, prior, Round { must: m, ..st }, m, n)
}

/// How many marks are missing.
pub open spec fn unmarked(marks: Seq<bool>) -> nat
    decreases marks.len(),
{
    if marks.len() == 0 {
        0
    } else {
        unmarked(marks.drop_last()) + (if marks.last() {
            0nat
        } else {
            1nat
        })
    }
}

/// Whether `b` has every mark of `a`.
pub open spec fn grown(a: Seq<bool>, b: Seq<bool>) -> bool {
    &&& a.len() == b.len()
    &&& forall|i: int| 0 <= i < a.len() && #[trigger] a[i] ==> b[i]
}

/// Rounds until one marks nothing new.
pub open spec fn rounds(p: PipelineView, prior: PriorRunView, st: Round) -> Round
    decreases unmarked(st.must),
{
    if st.must.len() != p.nodes.len() {
        st
    } else {
        let next = round(p, prior, st);
        if next.must == st.must {
            next
        } else {
            proof {
                lemma_round_grows(p, prior, st);
                lemma_fewer_unmarked(st.must, next.must);
            }
            rounds(p, prior, next)
        }
    }
}

/// The outcome of the planning.
pub open spec fn resolved(p: PipelineView, prior: PriorRunView) -> Round {
    rounds(p, prior, Round { must: seed_flags(p, prior), probed: Seq::empty() })
}

/// More marks, fewer missing.
pub proof fn lemma_fewer_unmarked(a: Seq<bool>, b: Seq<bool>)
    requires
        grown(a, b),
    ensures
        unmarked(b) <= unmarked(a),
        a != b ==> unmarked(b) < unmarked(a),
    decreases a.len(),
{
    if a.len() > 0 {
        let fa = a.drop_last();
        let fb = b.drop_last();
        assert forall|i: int| 0 <= i < fa.len() && #[trigger] fa[i] implies fb[i] by {
            assert(a[i]);
        }
        lemma_fewer_unmarked(fa, fb);
        assert(a[a.len() - 1] ==> b[b.len() - 1]);
        if a != b && fa == fb {
            assert(a =~= fa.push(a.last()));
            assert(b =~= fb.push(b.last()));
        }
    } else {
        assert(a =~= b);
    }
}

/// Whether one sequence begins with another.
pub open spec fn begins_with(whole: Seq<int>, start: Seq<int>) -> bool {
    &&& start.len() <= whole.len()
    &&& forall|k: int| 0 <= k < start.len() ==> #[trigger] whole[k] == start[k]
}

/// Whether a state comes later than another in the planning.
pub open spec fn follows(a: Round, b: Round) -> bool {
    grown(a.must, b.must) && begins_with(b.probed, a.probed)
}

proof fn lemma_follows_transitive(a: Round, b: Round, c: Round)
    requires
        follows(a, b),
        follows(b, c),
    ensures
        follows(a, c),
{
    assert forall|i: int| 0 <= i < a.must.len() && #[trigger] a.must[i] implies c.must[i] by {
        assert(b.must[i]);
    }
    assert forall|k: int| 0 <= k < a.probed.len() implies #[trigger] c.probed[k] == a.probed[k] by {
        assert(b.probed[k] == a.probed[k]);
    }
}

/// Marking what is downstream takes no mark away.
pub proof fn lemma_downward_grows(p: PipelineView, marks: Seq<bool>, k: int)
    requires
        k <= marks.len(),
    ensures
        grown(marks, downward(p, marks, k)),
    decreases k,
{
    if k > 0 {
        lemma_downward_grows(p, marks, k - 1);
    }
}

proof fn lemma_demand_follows(p: PipelineView, prior: PriorRunView, st: Round, j: int)
    requires
        0 <= j < st.must.len(),
    ensures
        follows(st, demand(p, prior, st, j)),
{
}

/// Each further input that is demanded only adds to the round.
pub proof fn lemma_inputs_follow(p: PipelineView, prior: PriorRunView, st: Round, inputs: Seq<int>, a: int, b: int)
    requires
        0 <= a <= b <= inputs.len(),
        forall|k: int| 0 <= k < inputs.len() ==> 0 <= #[trigger] inputs[k] < st.must.len(),
    ensures
        follows(demand_inputs(p, prior, st, inputs, a), demand_inputs(p, prior, st, inputs, b)),
        follows(st, demand_inputs(p, prior, st, inputs, b)),
    decreases b,
{
    if b > 0 {
        if a < b {
            lemma_inputs_follow(p, prior, st, inputs, a, b - 1);
        } else {
            lemma_inputs_follow(p, prior, st, inputs, b - 1, b - 1);
        }
        let before = demand_inputs(p, prior, st, inputs, b - 1);
        let after = demand_inputs(p, prior, st, inputs, b);
        assert(0 <= inputs[b - 1] < st.must.len());
        lemma_demand_follows(p, prior, before, inputs[b - 1]);
        lemma_follows_transitive(st, before, after);
        if a < b {
            lemma_follows_transitive(demand_inputs(p, prior, st, inputs, a), before, after);
        }
    }
}

/// Each further node whose inputs are demanded only adds to the round.
pub proof fn lemma_all_follow(p: PipelineView, prior: PriorRunView, st: Round, marked: Seq<bool>, a: int, b: int)
    requires
        0 <= a <= b <= p.nodes.len(),
        st.must.len() == p.nodes.len(),
    ensures
        follows(demand_all(p, prior, st, marked, a), demand_all(p, prior, st, marked, b)),
        follows(st, demand_all(p, prior, st, marked, b)),
    decreases b,
{
    if b > 0 {
        if a < b {
            lemma_all_follow(p, prior, st, marked, a, b - 1);
        } else {
            lemma_all_follow(p, prior, st, marked, b - 1, b - 1);
        }
        let before = demand_all(p, prior, st, marked, b - 1);
        let after = demand_all(p, prior, st, marked, b);
        let inputs = graph::data_inputs(p, b - 1);
        graph::lemma_upstreams_bounds(p, b - 1);
        if marked[b - 1] {
            lemma_inputs_follow(p, prior, before, inputs, 0, inputs.len() as int);
        }
        lemma_follows_transitive(st, before, after);
        if a < b {
            lemma_follows_transitive(demand_all(p, prior, st, marked, a), before, after);
        }
    }
}

/// A round only adds.
pub proof fn lemma_round_grows(p: PipelineView, prior: PriorRunView, st: Round)
    requires
        st.must.len() == p.nodes.len(),
    ensures
        follows(st, round(p, prior, st)),
        grown(st.must, round(p, prior, st).must),
{
    let n = p.nodes.len() as int;
    let m = downward(p, st.must, n);
    lemma_downward_grows(p, st.must, n);
    let mid = Round { must: m, ..st };
    lemma_all_follow(p, prior, mid, m, 0, n);
    lemma_follows_transitive(st, mid, round(p, prior, st));
}

proof fn lemma_rounds_follow(p: PipelineView, prior: PriorRunView, st: Round)
    requires
        st.must.len() == p.nodes.len(),
    ensures
        follows(round(p, prior, st), rounds(p, prior, st)),
        follows(st, rounds(p, prior, st)),
    decreases unmarked(st.must),
{
    lemma_round_grows(p, prior, st);
    let next = round(p, prior, st);
    if next.must != st.must {
        lemma_fewer_unmarked(st.must, next.must);
        lemma_rounds_follow(p, prior, next);
    }
    lemma_follows_transitive(st, next, rounds(p, prior, st));
}

/// What holds of a plan.
#[verifier::ext_equal]
pub struct PlanView {
    /// The nodes that must run again on their own account.
    pub seed: Set<Seq<char>>,
    /// The nodes that must run again.
    pub must_run: Set<Seq<char>>,
    /// The nodes whose prior success stands, with the run it originated in.
    pub satisfied_from_prior: Map<Seq<char>, Seq<char>>,
    /// The nodes whose stored output is needed, with the reference to it.
    pub rehydrate: Map<Seq<char>, Seq<char>>,
    /// The policy hashes, where they differ.
    pub policy_diff: Option<PolicyDiff>,
}

/// Whether a name is that of a marked node.
pub open spec fn names_marked(p: PipelineView, marks: Seq<bool>, name: Seq<char>) -> bool {
    exists|i: int| 0 <= i < p.nodes.len() && marks[i] && (#[trigger] p.nodes[i]).name == name
}

/// The names of marked nodes.
pub open spec fn marked_names(p: PipelineView, marks: Seq<bool>) -> Set<Seq<char>> {
    Set::new(|name: Seq<char>| names_marked(p, marks, name))
}

/// The nodes whose prior success stands.
pub open spec fn satisfied_flags(p: PipelineView, prior: PriorRunView, must: Seq<bool>) -> Seq<bool> {
    Seq::new(p.nodes.len(), |i: int| !must[i] && succeeded(p, prior, i))
}

/// The nodes whose stored output is needed: it was asked for, and they do not run.
pub open spec fn rehydrate_flags(p: PipelineView, done: Round) -> Seq<bool> {
    Seq::new(p.nodes.len(), |i: int| done.probed.contains(i) && !done.must[i])
}

/// The policy hashes, where they differ.
pub open spec fn policy_diff(p: PipelineView, prior: PriorRunView) -> Option<PolicyDiff> {
    let current = encoding::fingerprint(p).policy;
    if prior.policy_hash != current {
        Some(PolicyDiff { prior: prior.policy_hash, current })
    } else {
        None
    }
}

impl PlanView {
    /// The plan for a prior run that is not refused.
    pub open spec fn of(p: PipelineView, prior: PriorRunView) -> Self {
        let done = resolved(p, prior);
        PlanView {
            seed: marked_names(p, seed_flags(p, prior)),
            must_run: marked_names(p, done.must),
            satisfied_from_prior: Map::new(
                |name: Seq<char>| names_marked(p, satisfied_flags(p, prior, done.must), name),
                |name: Seq<char>| prior.nodes[name].originating_run,
            ),
            rehydrate: Map::new(
                |name: Seq<char>| names_marked(p, rehydrate_flags(p, done), name),
                |name: Seq<char>| prior.nodes[name].durable_reference->0,
            ),
            policy_diff: policy_diff(p, prior),
        }
    }
}

/// Why a prior run does not match a pipeline, if it does not: the algorithm version is
/// held against it first, then the tool version, then the structure.
pub open spec fn gate(p: PipelineView, prior: PriorRunView, tool: Seq<char>) -> Option<RefusalView> {
    let current = encoding::fingerprint(p);
    if prior.algorithm_version != current.algorithm_version {
        Some(
            RefusalView::AlgorithmVersionMismatch { prior: prior.algorithm_version, current: current.algorithm_version },
        )
    } else if prior.tool_version != tool {
        Some(RefusalView::ToolVersionMismatch { prior: prior.tool_version, current: tool })
    } else if prior.structural_fingerprint != current.structural {
        Some(RefusalView::StructuralMismatch { prior: prior.structural_fingerprint, current: current.structural })
    } else {
        None
    }
}

/// What storage says of a reference to a node's output.
pub type Answers = spec_fn(Seq<char>, Seq<char>) -> ReferenceExistence;

/// Whether storage says that the stored output of node `j` is gone.
pub open spec fn is_absent(p: PipelineView, prior: PriorRunView, answers: Answers, j: int) -> bool {
    answers(p.nodes[j].name, reference(p, prior, j)->0) == ReferenceExistence::Absent
}

/// Whether the first stored output that was asked for and is gone is the `k`th.
pub open spec fn first_absent(p: PipelineView, prior: PriorRunView, answers: Answers, probed: Seq<int>, k: int) -> bool {
    &&& 0 <= k < probed.len()
    &&& is_absent(p, prior, answers, probed[k])
    &&& forall|m: int| 0 <= m < k ==> !is_absent(p, prior, answers, #[trigger] probed[m])
}

/// The outcome of planning, given what storage says.
pub open spec fn planned(p: PipelineView, prior: PriorRunView, tool: Seq<char>, answers: Answers) -> Result<
    PlanView,
    RefusalView,
> {
    let probed = resolved(p, prior).probed;
    match gate(p, prior, tool) {
        Some(refusal) => Err(refusal),
        None => if exists|k: int| first_absent(p, prior, answers, probed, k) {
            let j = probed[choose|k: int| first_absent(p, prior, answers, probed, k)];
            Err(RefusalView::DanglingReference { node: p.nodes[j].name, reference: reference(p, prior, j)->0 })
        } else {
            Ok(PlanView::of(p, prior))
        },
    }
}

/// Whether a probe answers as storage does.
pub open spec fn answers_as<P: Fn(&str, &str) -> ReferenceExistence>(probe: P, answers: Answers) -> bool {
    forall|node: &str, reference: &str, found: ReferenceExistence|
        call_ensures(probe, (node, reference), found) ==> found == answers(node@, reference@)
}

/// Whether a probe can be asked about the stored outputs of the given producers.
pub open spec fn may_ask<P: Fn(&str, &str) -> ReferenceExistence>(
    p: PipelineView,
    prior: PriorRunView,
    probe: P,
    probed: Seq<int>,
) -> bool {
    forall|k: int, node: &str, stored: &str|
        #![trigger probed[k], call_requires(probe, (node, stored))]
        0 <= k < probed.len() && node@ == p.nodes[probed[k]].name && stored@ == reference(p, prior, probed[k])->0
            ==> call_requires(probe, (node, stored))
}

proof fn lemma_may_ask_fewer<P: Fn(&str, &str) -> ReferenceExistence>(
    p: PipelineView,
    prior: PriorRunView,
    probe: P,
    whole: Seq<int>,
    start: Seq<int>,
)
    requires
        may_ask(p, prior, probe, whole),
        begins_with(whole, start),
    ensures
        may_ask(p, prior, probe, start),
{
    assert forall|k: int, node: &str, stored: &str|
        #![trigger start[k], call_requires(probe, (node, stored))]
        0 <= k < start.len() && node@ == p.nodes[start[k]].name && stored@ == reference(
            p,
            prior,
            start[k],
        )->0 implies call_requires(probe, (node, stored)) by {
        assert(whole[k] == start[k]);
    }
}

/// A plan for resuming a run.
#[derive(Debug, Clone, PartialEq, Eq)]
pub struct ResumePlan {
    seed: NameMap<()>,
    must_run: NameMap<()>,
    satisfied_from_prior: NameMap<String>,
    rehydrate: NameMap<String>,
    policy_diff: Option<PolicyDiff>,
}

impl View for ResumePlan {
    type V = PlanView;

    closed spec fn view(&self) -> PlanView {
        PlanView {
            seed: self.seed@.dom(),
            must_run: self.must_run@.dom(),
            satisfied_from_prior: self.satisfied_from_prior@.map_values(|s: String| s@),
            rehydrate: self.rehydrate@.map_values(|s: String| s@),
            policy_diff: self.policy_diff,
        }
    }
}

impl ResumePlan {
    /// Names stand in name order.
    pub closed spec fn wf(self) -> bool {
        &&& self.seed.wf()
        &&& self.must_run.wf()
        &&& self.satisfied_from_prior.wf()
        &&& self.rehydrate.wf()
    }

    /// The nodes that must run again on their own account: those without a prior
    /// success, and those whose output a teardown may have destroyed.
    #[must_use]
    pub fn seed(&self) -> (r: &NameMap<()>)
        requires
            self.wf(),
        ensures
            r.wf(),
            r@.dom() == self@.seed,
    {
        &self.seed
    }

    /// The nodes that must run again.
    #[must_use]
    pub fn must_run(&self) -> (r: &NameMap<()>)
        requires
            self.wf(),
        ensures
            r.wf(),
            r@.dom() == self@.must_run,
    {
        &self.must_run
    }

    /// The nodes whose prior success stands, with the run it originated in.
    #[must_use]
    pub fn satisfied_from_prior(&self) -> (r: &NameMap<String>)
        requires
            self.wf(),
        ensures
            r.wf(),
            r@.map_values(|s: String| s@) == self@.satisfied_from_prior,
    {
        &self.satisfied_from_prior
    }

    /// The nodes whose stored output is needed, with the reference to it.
    #[must_use]
    pub fn rehydrate(&self) -> (r: &NameMap<String>)
        requires
            self.wf(),
        ensures
            r.wf(),
            r@.map_values(|s: String| s@) == self@.rehydrate,
    {
        &self.rehydrate
    }

    /// The policy hashes, where they differ.
    #[must_use]
    pub fn policy_diff(&self) -> (r: Option<&PolicyDiff>)
        ensures
            match r {
                Some(d) => self@.policy_diff == Some(*d),
                None => self@.policy_diff is None,
            },
    {
        match &self.policy_diff {
            Some(d) => Some(d),
            None => None,
        }
    }
}

/// Who depends on whom, as places in name order, and what is stored of each node.
struct Graph {
    data_inputs: Vec<Vec<usize>>,
    upstreams: Vec<Vec<usize>>,
    references: Vec<Option<String>>,
}

impl Graph {
    spec fn matches(self, p: PipelineView, prior: PriorRunView) -> bool {
        &&& self.data_inputs.len() == p.nodes.len()
        &&& self.upstreams.len() == p.nodes.len()
        &&& self.references.len() == p.nodes.len()
        &&& forall|i: int|
            0 <= i < p.nodes.len() ==> graph::places((#[trigger] self.data_inputs@[i])@) == graph::data_inputs(p, i)
        &&& forall|i: int|
            0 <= i < p.nodes.len() ==> graph::places((#[trigger] self.upstreams@[i])@) == graph::upstreams(p, i)
        &&& forall|i: int|
            0 <= i < p.nodes.len() ==> crate::assembly::text_of(#[trigger] self.references@[i]) == reference(p, prior, i)
        &&& forall|i: int, k: int|
            #![trigger self.data_inputs@[i]@[k]]
            0 <= i < p.nodes.len() && 0 <= k < self.data_inputs@[i].len() ==> self.data_inputs@[i]@[k] < p.nodes.len()
        &&& forall|i: int, k: int|
            #![trigger self.upstreams@[i]@[k]]
            0 <= i < p.nodes.len() && 0 <= k < self.upstreams@[i].len() ==> self.upstreams@[i]@[k] < p.nodes.len()
    }

    /// Reads the graph off a pipeline and a prior run.
    fn of(pipeline: &Pipeline, prior: &PriorRun) -> (r: Self)
        requires
            prior.nodes.wf(),
        ensures
            r.matches(pipeline@, prior@),
    {
        let ghost p = pipeline@;
        let mut data_inputs: Vec<Vec<usize>> = Vec::new();
        let mut upstreams: Vec<Vec<usize>> = Vec::new();
        let mut references: Vec<Option<String>> = Vec::new();
        let mut i: usize = 0;
        while i < pipeline.len()
            invariant
                p == pipeline@,
                prior.nodes.wf(),
                i <= p.nodes.len(),
                data_inputs.len() == i,
                upstreams.len() == i,
                references.len() == i,
                forall|a: int|
                    0 <= a < i ==> graph::places((#[trigger] data_inputs@[a])@) == graph::data_inputs(p, a),
                forall|a: int| 0 <= a < i ==> graph::places((#[trigger] upstreams@[a])@) == graph::upstreams(p, a),
                forall|a: int|
                    0 <= a < i ==> crate::assembly::text_of(#[trigger] references@[a]) == reference(p, prior@, a),
                forall|a: int, k: int|
                    #![trigger data_inputs@[a]@[k]]
                    0 <= a < i && 0 <= k < data_inputs@[a].len() ==> data_inputs@[a]@[k] < p.nodes.len(),
                forall|a: int, k: int|
                    #![trigger upstreams@[a]@[k]]
                    0 <= a < i && 0 <= k < upstreams@[a].len() ==> upstreams@[a]@[k] < p.nodes.len(),
            decreases p.nodes.len() - i,
        {
            data_inputs.push(graph::find_data_inputs(pipeline, i));
            upstreams.push(graph::find_upstreams(pipeline, i));
            references.push(find_reference(pipeline, prior, i));
            i = i + 1;
        }
        Graph { data_inputs, upstreams, references }
    }
}

fn find_succeeded(pipeline: &Pipeline, prior: &PriorRun, i: usize) -> (r: bool)
    requires
        i < pipeline@.nodes.len(),
        prior.nodes.wf(),
    ensures
        r == succeeded(pipeline@, prior@, i as int),
        r == (prior@.nodes.dom().contains(pipeline@.nodes[i as int].name)
            && prior@.nodes[pipeline@.nodes[i as int].name].terminal == TerminalState::Succeeded),
{
    match prior.nodes.get(pipeline.node_at(i).name()) {
        Some(n) => n.terminal == TerminalState::Succeeded,
        None => false,
    }
}

fn find_reference(pipeline: &Pipeline, prior: &PriorRun, i: usize) -> (r: Option<String>)
    requires
        i < pipeline@.nodes.len(),
        prior.nodes.wf(),
    ensures
        crate::assembly::text_of(r) == reference(pipeline@, prior@, i as int),
{
    if !pipeline.node_at(i).policy().is_durable() {
        return None;
    }
    match prior.nodes.get(pipeline.node_at(i).name()) {
        Some(n) => {
            if n.terminal == TerminalState::Succeeded {
                match &n.durable_reference {
                    Some(s) => Some(String::from_str(s.as_str())),
                    None => None,
                }
            } else {
                None
            }
        },
        None => None,
    }
}

/// Finds whether node `i` was executed in the prior run.
fn find_executed(pipeline: &Pipeline, prior: &PriorRun, i: usize) -> (r: bool)
    requires
        prior.nodes.wf(),
        i < pipeline@.nodes.len(),
    ensures
        r == executed(pipeline@, prior@, i as int),
{
    match prior.nodes.get(pipeline.node_at(i).name()) {
        Some(n) => match n.terminal {
            TerminalState::Succeeded => true,
            TerminalState::Failed => true,
            TerminalState::TimedOut => true,
            TerminalState::Skipped => true,
            TerminalState::Abandoned => true,
            TerminalState::UpstreamSkipped => false,
            TerminalState::UpstreamFailed => false,
            TerminalState::Cancelled => false,
            TerminalState::SatisfiedFromPrior => false,
        },
        None => false,
    }
}

/// Marks the nodes that some teardown covers that was executed in the prior run.
fn find_covered(pipeline: &Pipeline, prior: &PriorRun) -> (r: Vec<bool>)
    requires
        prior.nodes.wf(),
    ensures
        r.len() == pipeline@.nodes.len(),
        forall|i: int| 0 <= i < r.len() ==> #[trigger] r@[i] == covered(pipeline@, prior@, i),
{
    let ghost p = pipeline@;
    let n: usize = pipeline.len();
    let mut marks: Vec<bool> = Vec::new();
    while marks.len() < n
        invariant
            marks.len() <= n,
            forall|u: int| 0 <= u < marks.len() ==> !#[trigger] marks@[u],
        decreases n - marks.len(),
    {
        marks.push(false);
    }
    let mut t: usize = 0;
    while t < n
        invariant
            prior.nodes.wf(),
            p == pipeline@,
            n == p.nodes.len(),
            t <= n,
            marks.len() == n,
            forall|i: int|
                0 <= i < n ==> #[trigger] marks@[i] == exists|a: int, k: int|
                    #![trigger p.nodes[a].declaration.covers[k]]
                    0 <= a < t && executed(p, prior@, a) && 0 <= k < p.nodes[a].declaration.covers.len() && p.has_node(
                        p.nodes[a].declaration.covers[k],
                    ) && p.index_of(p.nodes[a].declaration.covers[k]) == i,
        decreases n - t,
    {
        let covers = pipeline.node_at(t).covers();
        let did: bool = find_executed(pipeline, prior, t);
        let mut j: usize = 0;
        while did && j < covers.len()
            invariant
                did == executed(p, prior@, t as int),
                p == pipeline@,
                n == p.nodes.len(),
                t < n,
                j <= covers.len(),
                covers@ == p.nodes[t as int].declaration.covers,
                marks.len() == n,
                forall|i: int|
                    0 <= i < n ==> #[trigger] marks@[i] == exists|a: int, k: int|
                        #![trigger p.nodes[a].declaration.covers[k]]
                        (0 <= a < t || (a == t && k < j)) && executed(p, prior@, a) && 0 <= k < p.nodes[a].declaration.covers.len() && p.has_node(
                            p.nodes[a].declaration.covers[k],
                        ) && p.index_of(p.nodes[a].declaration.covers[k]) == i,
            decreases covers.len() - j,
        {
            let id = covers[j];
            let ghost before = marks@;
            match pipeline.index_of(id) {
                Some(u) => {
                    marks.set(u, true);
                },
                None => {},
            }
            proof {
                assert(p.nodes[t as int].declaration.covers[j as int] == id);
                assert forall|i: int| 0 <= i < n implies #[trigger] marks@[i] == exists|a: int, k: int|
                    #![trigger p.nodes[a].declaration.covers[k]]
                    (0 <= a < t || (a == t && k < j + 1)) && executed(p, prior@, a) && 0 <= k < p.nodes[a].declaration.covers.len() && p.has_node(
                        p.nodes[a].declaration.covers[k],
                    ) && p.index_of(p.nodes[a].declaration.covers[k]) == i by {
                    if p.has_node(id) && p.index_of(id) == i {
                        assert(p.has_node(p.nodes[t as int].declaration.covers[j as int]));
                    } else {
                        assert(marks@[i] == before[i]);
                    }
                }
            }
            j = j + 1;
        }
        t = t + 1;
    }
    marks
}

/// Finds the nodes that must run again on their own account.
fn compute_seed(pipeline: &Pipeline, prior: &PriorRun) -> (r: Vec<bool>)
    requires
        prior.nodes.wf(),
    ensures
        r@ == seed_flags(pipeline@, prior@),
{
    let marks = find_covered(pipeline, prior);
    let mut out: Vec<bool> = Vec::new();
    let mut i: usize = 0;
    while i < pipeline.len()
        invariant
            prior.nodes.wf(),
            i <= pipeline@.nodes.len(),
            out.len() == i,
            marks.len() == pipeline@.nodes.len(),
            forall|k: int| 0 <= k < marks.len() ==> #[trigger] marks@[k] == covered(pipeline@, prior@, k),
            forall|k: int| 0 <= k < i ==> #[trigger] out@[k] == in_seed(pipeline@, prior@, k),
        decreases pipeline@.nodes.len() - i,
    {
        let fresh = !find_succeeded(pipeline, prior, i) || marks[i];
        out.push(fresh);
        i = i + 1;
    }
    assert(out@ =~= seed_flags(pipeline@, prior@));
    out
}

/// Counts the marks.
fn count_marked(marks: &Vec<bool>) -> (r: usize)
    ensures
        r == marks.len() - unmarked(marks@),
{
    let mut count: usize = 0;
    let mut i: usize = 0;
    assert(marks@.take(0) =~= Seq::<bool>::empty());
    while i < marks.len()
        invariant
            i <= marks.len(),
            count <= i,
            count == i - unmarked(marks@.take(i as int)),
        decreases marks.len() - i,
    {
        proof {
            assert(marks@.take(i + 1).drop_last() =~= marks@.take(i as int));
            assert(marks@.take(i + 1).last() == marks@[i as int]);
        }
        if marks[i] {
            count = count + 1;
        }
        i = i + 1;
    }
    assert(marks@.take(i as int) =~= marks@);
    count
}

/// Marks each node with a marked upstream, in one pass in name order.
fn close_downward(graph: &Graph, must: &mut Vec<bool>, Ghost(p): Ghost<PipelineView>, Ghost(prior): Ghost<PriorRunView>)
    requires
        graph.matches(p, prior),
        old(must).len() == p.nodes.len(),
    ensures
        final(must)@ == downward(p, old(must)@, p.nodes.len() as int),
        final(must).len() == old(must).len(),
{
    let ghost start = must@;
    let n: usize = must.len();
    let mut i: usize = 0;
    while i < n
        invariant
            i <= n,
            n == p.nodes.len(),
            must.len() == n,
            graph.matches(p, prior),
            must@ == downward(p, start, i as int),
        decreases n - i,
    {
        let ups: &Vec<usize> = &graph.upstreams[i];
        let ghost places = graph::upstreams(p, i as int);
        let mut hit = false;
        let mut k: usize = 0;
        assert(graph::places(ups@) == places);
        while k < ups.len()
            invariant
                k <= ups.len(),
                must.len() == n,
                graph::places(ups@) == places,
                forall|j: int| 0 <= j < ups.len() ==> #[trigger] ups@[j] < n,
                hit == exists|j: int| 0 <= j < k && must@[#[trigger] places[j]],
            decreases ups.len() - k,
        {
            assert(places[k as int] == ups@[k as int]);
            if must[ups[k]] {
                hit = true;
            }
            k = k + 1;
        }
        assert(places.len() == ups.len());
        if hit {
            must.set(i, true);
        }
        i = i + 1;
    }
}

/// Whether nothing that was asked for is gone, whatever storage the probe answers for.
spec fn all_there<P: Fn(&str, &str) -> ReferenceExistence>(
    p: PipelineView,
    prior: PriorRunView,
    probe: P,
    probed: Seq<int>,
) -> bool {
    forall|answers: Answers, k: int|
        #![trigger answers_as(probe, answers), probed[k]]
        answers_as(probe, answers) && 0 <= k < probed.len() ==> !is_absent(p, prior, answers, probed[k])
}

/// Whether the last that was asked for is gone, whatever storage the probe answers for.
spec fn last_gone<P: Fn(&str, &str) -> ReferenceExistence>(
    p: PipelineView,
    prior: PriorRunView,
    probe: P,
    probed: Seq<int>,
) -> bool {
    forall|answers: Answers| #[trigger] answers_as(probe, answers) ==> is_absent(p, prior, answers, probed.last())
}

/// Satisfies what one consumer needs. An error names the producer whose stored output is
/// gone.
fn demand_for<P: Fn(&str, &str) -> ReferenceExistence>(
    pipeline: &Pipeline,
    graph: &Graph,
    consumer: usize,
    probe: &P,
    must: &mut Vec<bool>,
    wanted: &mut Vec<bool>,
    Ghost(prior): Ghost<PriorRunView>,
    Ghost(probed): Ghost<Seq<int>>,
) -> (r: (Option<usize>, Ghost<Seq<int>>))
    requires
        graph.matches(pipeline@, prior),
        consumer < pipeline@.nodes.len(),
        old(must).len() == pipeline@.nodes.len(),
        old(wanted).len() == pipeline@.nodes.len(),
        forall|i: int| 0 <= i < old(wanted).len() ==> #[trigger] old(wanted)@[i] == probed.contains(i),
        may_ask(
            pipeline@,
            prior,
            *probe,
            demand_inputs(
                pipeline@,
                prior,
                Round { must: old(must)@, probed },
                graph::data_inputs(pipeline@, consumer as int),
                graph::data_inputs(pipeline@, consumer as int).len() as int,
            ).probed,
        ),
        all_there(pipeline@, prior, *probe, probed),
    ensures
        final(must).len() == old(must).len(),
        final(wanted).len() == old(wanted).len(),
        ({
            let p = pipeline@;
            let inputs = graph::data_inputs(p, consumer as int);
            let start = Round { must: old(must)@, probed };
            match r.0 {
                None => {
                    &&& (Round { must: final(must)@, probed: r.1@ }) == demand_inputs(
                        p,
                        prior,
                        start,
                        inputs,
                        inputs.len() as int,
                    )
                    &&& forall|i: int| 0 <= i < final(wanted).len() ==> #[trigger] final(wanted)@[i] == r.1@.contains(i)
                    &&& all_there(p, prior, *probe, r.1@)
                },
                Some(j) => {
                    &&& j < p.nodes.len()
                    &&& r.1@.len() > 0
                    &&& r.1@.last() == j
                    &&& reference(p, prior, j as int) is Some
                    &&& begins_with(demand_inputs(p, prior, start, inputs, inputs.len() as int).probed, r.1@)
                    &&& all_there(p, prior, *probe, r.1@.drop_last())
                    &&& last_gone(p, prior, *probe, r.1@)
                },
            }
        }),
{
    let ghost p = pipeline@;
    let ghost places = graph::data_inputs(p, consumer as int);
    let ghost start = Round { must: must@, probed };
    let n: usize = must.len();
    let inputs: &Vec<usize> = &graph.data_inputs[consumer];
    let ghost mut log = probed;
    let mut k: usize = 0;
    proof {
        assert(graph::places(inputs@) == places);
        graph::lemma_upstreams_bounds(p, consumer as int);
    }
    while k < inputs.len()
        invariant
            p == pipeline@,
            n == p.nodes.len(),
            k <= inputs.len(),
            graph.matches(p, prior),
            must.len() == n,
            wanted.len() == n,
            start == (Round { must: old(must)@, probed }),
            old(must).len() == n,
            old(wanted).len() == n,
            places == graph::data_inputs(p, consumer as int),
            places.len() == inputs.len(),
            graph::places(inputs@) == places,
            forall|j: int| 0 <= j < places.len() ==> 0 <= #[trigger] places[j] < n,
            (Round { must: must@, probed: log }) == demand_inputs(p, prior, start, places, k as int),
            forall|i: int| 0 <= i < n ==> #[trigger] wanted@[i] == log.contains(i),
            may_ask(p, prior, *probe, demand_inputs(p, prior, start, places, places.len() as int).probed),
            all_there(p, prior, *probe, log),
        decreases inputs.len() - k,
    {
        let j: usize = inputs[k];
        assert(places[k as int] == j);
        if !must[j] {
            match &graph.references[j] {
                Some(s) => {
                    let name = pipeline.node_at(j).name();
                    proof {
                        assert(crate::assembly::text_of(graph.references@[j as int]) == reference(p, prior, j as int));
                        let next = demand_inputs(p, prior, start, places, k + 1).probed;
                        assert(next == log.push(j as int));
                        lemma_inputs_follow(p, prior, start, places, k + 1, places.len() as int);
                        let whole = demand_inputs(p, prior, start, places, places.len() as int).probed;
                        lemma_may_ask_fewer(p, prior, *probe, whole, next);
                        assert(next[log.len() as int] == j);
                    }
                    let found = probe(name, s.as_str());
                    let ghost grown = log.push(j as int);
                    proof {
                        assert(crate::assembly::text_of(graph.references@[j as int]) == reference(p, prior, j as int));
                        assert forall|answers: Answers| #[trigger] answers_as(*probe, answers) implies found == answers(
                            p.nodes[j as int].name,
                            reference(p, prior, j as int)->0,
                        ) by {}
                    }
                    if found == ReferenceExistence::Absent {
                        proof {
                            assert(grown.drop_last() =~= log);
                            assert((Round { must: must@, probed: grown }) == demand_inputs(
                                p,
                                prior,
                                start,
                                places,
                                k + 1,
                            ));
                            lemma_inputs_follow(p, prior, start, places, k + 1, places.len() as int);
                        }
                        return (Some(j), Ghost(grown));
                    }
                    let ghost before = wanted@;
                    wanted.set(j, true);
                    proof {
                        assert forall|i: int| 0 <= i < n implies #[trigger] wanted@[i] == grown.contains(i) by {
                            if log.contains(i) {
                                let m = choose|m: int| 0 <= m < log.len() && log[m] == i;
                                assert(grown[m] == i);
                            }
                            if i == j {
                                assert(grown[log.len() as int] == i);
                            } else {
                                assert(wanted@[i] == before[i]);
                            }
                        }
                        assert forall|answers: Answers, m: int|
                            #![trigger answers_as(*probe, answers), grown[m]]
                            answers_as(*probe, answers) && 0 <= m < grown.len() implies !is_absent(
                            p,
                            prior,
                            answers,
                            grown[m],
                        ) by {
                            if m < log.len() {
                                assert(grown[m] == log[m]);
                            }
                        }
                        log = grown;
                    }
                },
                None => {
                    assert(crate::assembly::text_of(graph.references@[j as int]) == reference(p, prior, j as int));
                    must.set(j, true);
                },
            }
        }
        k = k + 1;
    }
    proof {
        assert(places.len() == inputs.len());
    }
    (None, Ghost(log))
}

/// Runs one demand pass over the marked nodes, in name order.
fn demand_pass<P: Fn(&str, &str) -> ReferenceExistence>(
    pipeline: &Pipeline,
    graph: &Graph,
    probe: &P,
    must: &mut Vec<bool>,
    wanted: &mut Vec<bool>,
    Ghost(prior): Ghost<PriorRunView>,
    Ghost(probed): Ghost<Seq<int>>,
) -> (r: (Option<usize>, Ghost<Seq<int>>))
    requires
        graph.matches(pipeline@, prior),
        old(must).len() == pipeline@.nodes.len(),
        old(wanted).len() == pipeline@.nodes.len(),
        forall|i: int| 0 <= i < old(wanted).len() ==> #[trigger] old(wanted)@[i] == probed.contains(i),
        may_ask(
            pipeline@,
            prior,
            *probe,
            demand_all(
                pipeline@,
                prior,
                Round { must: old(must)@, probed },
                old(must)@,
                pipeline@.nodes.len() as int,
            ).probed,
        ),
        all_there(pipeline@, prior, *probe, probed),
    ensures
        final(must).len() == old(must).len(),
        final(wanted).len() == old(wanted).len(),
        ({
            let p = pipeline@;
            let n = p.nodes.len() as int;
            let start = Round { must: old(must)@, probed };
            match r.0 {
                None => {
                    &&& (Round { must: final(must)@, probed: r.1@ }) == demand_all(p, prior, start, old(must)@, n)
                    &&& forall|i: int| 0 <= i < final(wanted).len() ==> #[trigger] final(wanted)@[i] == r.1@.contains(i)
                    &&& all_there(p, prior, *probe, r.1@)
                },
                Some(j) => {
                    &&& j < p.nodes.len()
                    &&& r.1@.len() > 0
                    &&& r.1@.last() == j
                    &&& reference(p, prior, j as int) is Some
                    &&& begins_with(demand_all(p, prior, start, old(must)@, n).probed, r.1@)
                    &&& all_there(p, prior, *probe, r.1@.drop_last())
                    &&& last_gone(p, prior, *probe, r.1@)
                },
            }
        }),
{
    let ghost p = pipeline@;
    let ghost marked = must@;
    let ghost start = Round { must: must@, probed };
    let n: usize = must.len();
    let mut snapshot: Vec<bool> = Vec::new();
    let mut c: usize = 0;
    while c < n
        invariant
            c <= n,
            n == must.len(),
            snapshot.len() == c,
            forall|i: int| 0 <= i < c ==> #[trigger] snapshot@[i] == must@[i],
        decreases n - c,
    {
        snapshot.push(must[c]);
        c = c + 1;
    }
    assert(snapshot@ =~= marked);
    let ghost mut log = probed;
    let mut i: usize = 0;
    while i < n
        invariant
            p == pipeline@,
            n == p.nodes.len(),
            i <= n,
            graph.matches(p, prior),
            must.len() == n,
            wanted.len() == n,
            snapshot@ == marked,
            snapshot.len() == n,
            marked == old(must)@,
            start == (Round { must: old(must)@, probed }),
            old(must).len() == n,
            old(wanted).len() == n,
            (Round { must: must@, probed: log }) == demand_all(p, prior, start, marked, i as int),
            forall|i: int| 0 <= i < n ==> #[trigger] wanted@[i] == log.contains(i),
            may_ask(p, prior, *probe, demand_all(p, prior, start, marked, n as int).probed),
            all_there(p, prior, *probe, log),
        decreases n - i,
    {
        if snapshot[i] {
            proof {
                lemma_all_follow(p, prior, start, marked, i + 1, n as int);
                let mid = demand_all(p, prior, start, marked, i + 1).probed;
                let whole = demand_all(p, prior, start, marked, n as int).probed;
                lemma_may_ask_fewer(p, prior, *probe, whole, mid);
            }
            let (gone, grown) = demand_for(pipeline, graph, i, probe, must, wanted, Ghost(prior), Ghost(log));
            match gone {
                Some(j) => {
                    proof {
                        lemma_all_follow(p, prior, start, marked, i + 1, n as int);
                        let mid = demand_all(p, prior, start, marked, i + 1).probed;
                        let whole = demand_all(p, prior, start, marked, n as int).probed;
                        assert(begins_with(mid, grown@));
                        assert(begins_with(whole, mid));
                        lemma_begins_transitive(whole, mid, grown@);
                    }
                    return (Some(j), grown);
                },
                None => {
                    proof {
                        log = grown@;
                    }
                },
            }
        }
        i = i + 1;
    }
    (None, Ghost(log))
}

proof fn lemma_begins_transitive(a: Seq<int>, b: Seq<int>, c: Seq<int>)
    requires
        begins_with(a, b),
        begins_with(b, c),
    ensures
        begins_with(a, c),
{
    assert forall|k: int| 0 <= k < c.len() implies #[trigger] a[k] == c[k] by {
        assert(b[k] == c[k]);
        assert(a[k] == b[k]);
    }
}

/// Runs rounds until one marks nothing new. An error names the producer whose stored
/// output is gone.
fn resolve_demand<P: Fn(&str, &str) -> ReferenceExistence>(
    pipeline: &Pipeline,
    graph: &Graph,
    probe: &P,
    seed: &Vec<bool>,
    Ghost(prior): Ghost<PriorRunView>,
) -> (r: Result<(Vec<bool>, Vec<bool>), usize>)
    requires
        graph.matches(pipeline@, prior),
        seed@ == seed_flags(pipeline@, prior),
        may_ask(pipeline@, prior, *probe, resolved(pipeline@, prior).probed),
    ensures
        ({
            let p = pipeline@;
            let done = resolved(p, prior);
            match r {
                Ok((must, wanted)) => {
                    &&& must@ == done.must
                    &&& wanted.len() == p.nodes.len()
                    &&& forall|i: int| 0 <= i < wanted.len() ==> #[trigger] wanted@[i] == done.probed.contains(i)
                    &&& all_there(p, prior, *probe, done.probed)
                },
                Err(j) => {
                    &&& j < p.nodes.len()
                    &&& reference(p, prior, j as int) is Some
                    &&& done.probed.contains(j as int)
                    &&& forall|answers: Answers| #[trigger]
                        answers_as(*probe, answers) ==> exists|k: int|
                            first_absent(p, prior, answers, done.probed, k) && done.probed[k] == j
                },
            }
        }),
{
    let ghost p = pipeline@;
    let n: usize = seed.len();
    let mut must: Vec<bool> = Vec::new();
    let mut wanted: Vec<bool> = Vec::new();
    let mut c: usize = 0;
    while c < n
        invariant
            c <= n,
            n == seed.len(),
            must.len() == c,
            wanted.len() == c,
            forall|i: int| 0 <= i < c ==> #[trigger] must@[i] == seed@[i],
            forall|i: int| 0 <= i < c ==> !#[trigger] wanted@[i],
        decreases n - c,
    {
        must.push(seed[c]);
        wanted.push(false);
        c = c + 1;
    }
    assert(must@ =~= seed@);
    let ghost mut log: Seq<int> = Seq::empty();
    loop
        invariant
            p == pipeline@,
            n == p.nodes.len(),
            graph.matches(p, prior),
            must.len() == n,
            wanted.len() == n,
            rounds(p, prior, Round { must: must@, probed: log }) == resolved(p, prior),
            forall|i: int| 0 <= i < n ==> #[trigger] wanted@[i] == log.contains(i),
            may_ask(p, prior, *probe, resolved(p, prior).probed),
            all_there(p, prior, *probe, log),
        decreases unmarked(must@),
    {
        let ghost begun = Round { must: must@, probed: log };
        let ghost next = round(p, prior, begun);
        proof {
            lemma_round_grows(p, prior, begun);
            lemma_rounds_follow(p, prior, begun);
            lemma_may_ask_fewer(p, prior, *probe, resolved(p, prior).probed, next.probed);
        }
        let before: usize = count_marked(&must);
        close_downward(graph, &mut must, Ghost(p), Ghost(prior));
        let (gone, grown) = demand_pass(pipeline, graph, probe, &mut must, &mut wanted, Ghost(prior), Ghost(log));
        match gone {
            Some(j) => {
                proof {
                    let whole = resolved(p, prior).probed;
                    lemma_begins_transitive(whole, next.probed, grown@);
                    let last = grown@.len() - 1;
                    assert(whole[last] == j);
                    assert forall|answers: Answers| #[trigger] answers_as(*probe, answers) implies exists|k: int|
                        first_absent(p, prior, answers, whole, k) && whole[k] == j by {
                        assert(is_absent(p, prior, answers, whole[last]));
                        assert forall|m: int| 0 <= m < last implies !is_absent(p, prior, answers, #[trigger] whole[m]) by {
                            assert(whole[m] == grown@[m]);
                            assert(grown@.drop_last()[m] == grown@[m]);
                        }
                        assert(first_absent(p, prior, answers, whole, last));
                    }
                }
                return Err(j);
            },
            None => {},
        }
        proof {
            assert((Round { must: must@, probed: grown@ }) == next);
            lemma_fewer_unmarked(begun.must, must@);
            log = grown@;
        }
        if count_marked(&must) == before {
            return Ok((must, wanted));
        }
    }
}

/// Names the marked nodes.
fn name_marked(pipeline: &Pipeline, marks: &Vec<bool>) -> (r: NameMap<()>)
    requires
        marks.len() == pipeline@.nodes.len(),
    ensures
        r.wf(),
        r@.dom() == marked_names(pipeline@, marks@),
{
    let ghost p = pipeline@;
    let mut out: NameMap<()> = NameMap::new();
    let mut i: usize = 0;
    while i < pipeline.len()
        invariant
            p == pipeline@,
            i <= p.nodes.len(),
            marks.len() == p.nodes.len(),
            out.wf(),
            forall|name: Seq<char>| #[trigger]
                out@.dom().contains(name) <==> exists|k: int|
                    0 <= k < i && marks@[k] && (#[trigger] p.nodes[k]).name == name,
        decreases p.nodes.len() - i,
    {
        let ghost before = out@;
        if marks[i] {
            let name = String::from_str(pipeline.node_at(i).name());
            out.insert(name, ());
        }
        proof {
            assert forall|name: Seq<char>| #[trigger] out@.dom().contains(name) <==> exists|k: int|
                0 <= k < i + 1 && marks@[k] && (#[trigger] p.nodes[k]).name == name by {
                if p.nodes[i as int].name == name && marks@[i as int] {
                    assert(p.nodes[i as int].name == name);
                } else {
                    assert(out@.dom().contains(name) == before.dom().contains(name));
                }
            }
        }
        i = i + 1;
    }
    assert(out@.dom() =~= marked_names(p, marks@));
    out
}

/// Lists the nodes whose prior success stands, with the run it originated in.
fn mark_satisfied_from_prior(pipeline: &Pipeline, prior: &PriorRun, must: &Vec<bool>) -> (r: NameMap<String>)
    requires
        prior.nodes.wf(),
        must.len() == pipeline@.nodes.len(),
    ensures
        r.wf(),
        r@.map_values(|s: String| s@) == Map::new(
            |name: Seq<char>| names_marked(pipeline@, satisfied_flags(pipeline@, prior@, must@), name),
            |name: Seq<char>| prior@.nodes[name].originating_run,
        ),
{
    let ghost p = pipeline@;
    let ghost flags = satisfied_flags(p, prior@, must@);
    let mut out: NameMap<String> = NameMap::new();
    let mut i: usize = 0;
    while i < pipeline.len()
        invariant
            p == pipeline@,
            flags == satisfied_flags(p, prior@, must@),
            prior.nodes.wf(),
            i <= p.nodes.len(),
            must.len() == p.nodes.len(),
            out.wf(),
            forall|name: Seq<char>| #[trigger]
                out@.dom().contains(name) <==> exists|k: int|
                    0 <= k < i && flags[k] && (#[trigger] p.nodes[k]).name == name,
            forall|name: Seq<char>| #[trigger]
                out@.dom().contains(name) ==> out@[name]@ == prior@.nodes[name].originating_run,
        decreases p.nodes.len() - i,
    {
        let ghost before = out@;
        if !must[i] && find_succeeded(pipeline, prior, i) {
            let name = pipeline.node_at(i).name();
            match prior.nodes.get(name) {
                Some(n) => {
                    out.insert(String::from_str(name), String::from_str(n.originating_run.as_str()));
                },
                None => {},
            }
        }
        proof {
            assert forall|name: Seq<char>| #[trigger] out@.dom().contains(name) <==> exists|k: int|
                0 <= k < i + 1 && flags[k] && (#[trigger] p.nodes[k]).name == name by {
                if p.nodes[i as int].name == name && flags[i as int] {
                    assert(p.nodes[i as int].name == name);
                } else {
                    assert(out@.dom().contains(name) == before.dom().contains(name));
                }
            }
        }
        i = i + 1;
    }
    assert(out@.map_values(|s: String| s@) =~= Map::new(
        |name: Seq<char>| names_marked(p, flags, name),
        |name: Seq<char>| prior@.nodes[name].originating_run,
    ));
    out
}

/// Lists the nodes whose stored output is needed, with the reference to it.
fn list_rehydrated(
    pipeline: &Pipeline,
    graph: &Graph,
    must: &Vec<bool>,
    wanted: &Vec<bool>,
    Ghost(prior): Ghost<PriorRunView>,
) -> (r: NameMap<String>)
    requires
        graph.matches(pipeline@, prior),
        must@ == resolved(pipeline@, prior).must,
        must.len() == pipeline@.nodes.len(),
        wanted.len() == pipeline@.nodes.len(),
        forall|i: int| 0 <= i < wanted.len() ==> #[trigger] wanted@[i] == resolved(pipeline@, prior).probed.contains(i),
        forall|i: int| #[trigger] resolved(pipeline@, prior).probed.contains(i) ==> reference(pipeline@, prior, i) is Some,
    ensures
        r.wf(),
        r@.map_values(|s: String| s@) == Map::new(
            |name: Seq<char>| names_marked(pipeline@, rehydrate_flags(pipeline@, resolved(pipeline@, prior)), name),
            |name: Seq<char>| prior.nodes[name].durable_reference->0,
        ),
{
    let ghost p = pipeline@;
    let ghost flags = rehydrate_flags(p, resolved(p, prior));
    let mut out: NameMap<String> = NameMap::new();
    let mut i: usize = 0;
    while i < pipeline.len()
        invariant
            p == pipeline@,
            flags == rehydrate_flags(p, resolved(p, prior)),
            graph.matches(p, prior),
            must@ == resolved(p, prior).must,
            i <= p.nodes.len(),
            must.len() == p.nodes.len(),
            wanted.len() == p.nodes.len(),
            forall|i: int| 0 <= i < wanted.len() ==> #[trigger] wanted@[i] == resolved(p, prior).probed.contains(i),
            forall|i: int| #[trigger] resolved(p, prior).probed.contains(i) ==> reference(p, prior, i) is Some,
            out.wf(),
            forall|name: Seq<char>| #[trigger]
                out@.dom().contains(name) <==> exists|k: int|
                    0 <= k < i && flags[k] && (#[trigger] p.nodes[k]).name == name,
            forall|name: Seq<char>| #[trigger]
                out@.dom().contains(name) ==> out@[name]@ == prior.nodes[name].durable_reference->0,
        decreases p.nodes.len() - i,
    {
        let ghost before = out@;
        assert(flags[i as int] == (wanted@[i as int] && !must@[i as int]));
        if wanted[i] && !must[i] {
            proof {
                assert(resolved(p, prior).probed.contains(i as int));
                assert(crate::assembly::text_of(graph.references@[i as int]) == reference(p, prior, i as int));
            }
            match &graph.references[i] {
                Some(s) => {
                    let name = pipeline.node_at(i).name();
                    out.insert(String::from_str(name), String::from_str(s.as_str()));
                },
                None => {},
            }
        }
        proof {
            assert forall|name: Seq<char>| #[trigger] out@.dom().contains(name) <==> exists|k: int|
                0 <= k < i + 1 && flags[k] && (#[trigger] p.nodes[k]).name == name by {
                if p.nodes[i as int].name == name && flags[i as int] {
                    assert(p.nodes[i as int].name == name);
                } else {
                    assert(out@.dom().contains(name) == before.dom().contains(name));
                }
            }
        }
        i = i + 1;
    }
    assert(out@.map_values(|s: String| s@) =~= Map::new(
        |name: Seq<char>| names_marked(p, flags, name),
        |name: Seq<char>| prior.nodes[name].durable_reference->0,
    ));
    out
}

/// Whether every producer that was asked for has a stored output.
pub open spec fn all_stored(p: PipelineView, prior: PriorRunView, probed: Seq<int>) -> bool {
    forall|k: int| 0 <= k < probed.len() ==> reference(p, prior, #[trigger] probed[k]) is Some
}

proof fn lemma_inputs_stored(p: PipelineView, prior: PriorRunView, st: Round, inputs: Seq<int>, k: int)
    requires
        all_stored(p, prior, st.probed),
    ensures
        all_stored(p, prior, demand_inputs(p, prior, st, inputs, k).probed),
    decreases k,
{
    if k > 0 {
        lemma_inputs_stored(p, prior, st, inputs, k - 1);
    }
}

proof fn lemma_all_stored(p: PipelineView, prior: PriorRunView, st: Round, marked: Seq<bool>, k: int)
    requires
        all_stored(p, prior, st.probed),
    ensures
        all_stored(p, prior, demand_all(p, prior, st, marked, k).probed),
    decreases k,
{
    if k > 0 {
        lemma_all_stored(p, prior, st, marked, k - 1);
        let inputs = graph::data_inputs(p, k - 1);
        lemma_inputs_stored(p, prior, demand_all(p, prior, st, marked, k - 1), inputs, inputs.len() as int);
    }
}

/// Only stored outputs are asked for.
pub proof fn lemma_rounds_stored(p: PipelineView, prior: PriorRunView, st: Round)
    requires
        all_stored(p, prior, st.probed),
    ensures
        all_stored(p, prior, rounds(p, prior, st).probed),
    decreases unmarked(st.must),
{
    if st.must.len() == p.nodes.len() {
        let n = p.nodes.len() as int;
        let m = downward(p, st.must, n);
        lemma_all_stored(p, prior, Round { must: m, ..st }, m, n);
        let next = round(p, prior, st);
        if next.must != st.must {
            lemma_round_grows(p, prior, st);
            lemma_fewer_unmarked(st.must, next.must);
            lemma_rounds_stored(p, prior, next);
        }
    }
}

/// The contents of an outcome.
pub open spec fn outcome_view(r: Result<ResumePlan, ResumeRefusal>) -> Result<PlanView, RefusalView> {
    match r {
        Ok(plan) => Ok(plan@),
        Err(refusal) => Err(refusal@),
    }
}

/// Plans a resumed run, or refuses it.
///
/// The probe is asked about the stored output of a producer when a node that runs again
/// needs its value, and about nothing else: it need not answer for any other output, and
/// for none at all where the prior run does not match. For a probe that answers the same
/// question the same way each time, the outcome is [`planned`]. Whatever the probe
/// answers, a plan is the one plan for this prior run, a mismatch is refused as [`gate`]
/// says, and any other refusal names a producer whose stored output is needed.
///
/// # Errors
///
/// The refusal, where the prior run does not match or a stored output that is needed is
/// gone.
pub fn plan_resume<P>(pipeline: &Pipeline, prior: &PriorRun, this_tool_version: &str, probe: P) -> (r: Result<
    ResumePlan,
    ResumeRefusal,
>) where P: Fn(&str, &str) -> ReferenceExistence
    requires
        prior.nodes.wf(),
        gate(pipeline@, prior@, this_tool_version@) is None ==> may_ask(
            pipeline@,
            prior@,
            probe,
            resolved(pipeline@, prior@).probed,
        ),
    ensures
        forall|answers: Answers| #[trigger]
            answers_as(probe, answers) ==> outcome_view(r) == planned(
                pipeline@,
                prior@,
                this_tool_version@,
                answers,
            ),
        match r {
            Ok(plan) => plan.wf() && gate(pipeline@, prior@, this_tool_version@) is None && plan@ == PlanView::of(
                pipeline@,
                prior@,
            ),
            Err(refusal) => match gate(pipeline@, prior@, this_tool_version@) {
                Some(mismatch) => refusal@ == mismatch,
                None => exists|j: int|
                    0 <= j < pipeline@.nodes.len() && resolved(pipeline@, prior@).probed.contains(j) && refusal@
                        == (RefusalView::DanglingReference {
                        node: (#[trigger] pipeline@.nodes[j]).name,
                        reference: reference(pipeline@, prior@, j)->0,
                    }),
            },
        },
        r matches Ok(plan) ==> forall|name: Seq<char>| #[trigger]
            plan@.satisfied_from_prior.dom().contains(name) ==> prior@.nodes.dom().contains(name)
                && prior@.nodes[name].terminal == TerminalState::Succeeded,
        r matches Ok(plan) ==> forall|i: int|
            0 <= i < pipeline@.nodes.len() && !(prior@.nodes.dom().contains((#[trigger] pipeline@.nodes[i]).name)
                && prior@.nodes[pipeline@.nodes[i].name].terminal == TerminalState::Succeeded)
                ==> plan@.seed.contains(pipeline@.nodes[i].name) && plan@.must_run.contains(pipeline@.nodes[i].name),
{
    let ghost p = pipeline@;
    let fingerprint = pipeline.fingerprint();
    if prior.algorithm_version != fingerprint.algorithm_version() {
        return Err(
            ResumeRefusal::AlgorithmVersionMismatch {
                prior: prior.algorithm_version,
                current: fingerprint.algorithm_version(),
            },
        );
    }
    if !text::same_text(prior.tool_version.as_str(), this_tool_version) {
        return Err(
            ResumeRefusal::ToolVersionMismatch {
                prior: String::from_str(prior.tool_version.as_str()),
                current: String::from_str(this_tool_version),
            },
        );
    }
    if prior.structural_fingerprint != fingerprint.structural() {
        return Err(
            ResumeRefusal::StructuralMismatch {
                prior: prior.structural_fingerprint,
                current: fingerprint.structural(),
            },
        );
    }
    let diff = if prior.policy_hash != fingerprint.policy() {
        Some(PolicyDiff { prior: prior.policy_hash, current: fingerprint.policy() })
    } else {
        None
    };
    let graph = Graph::of(pipeline, prior);
    let seed = compute_seed(pipeline, prior);
    let ghost probed = resolved(p, prior@).probed;
    match resolve_demand(pipeline, &graph, &probe, &seed, Ghost(prior@)) {
        Err(j) => {
            proof {
                assert(crate::assembly::text_of(graph.references@[j as int]) == reference(p, prior@, j as int));
            }
            let stored = match &graph.references[j] {
                Some(s) => String::from_str(s.as_str()),
                None => String::new(),
            };
            let node = String::from_str(pipeline.node_at(j).name());
            proof {
                assert forall|answers: Answers| #[trigger] answers_as(probe, answers) implies planned(
                    p,
                    prior@,
                    this_tool_version@,
                    answers,
                ) == Err::<PlanView, RefusalView>(
                    RefusalView::DanglingReference { node: node@, reference: stored@ },
                ) by {
                    let k = choose|k: int| first_absent(p, prior@, answers, probed, k) && probed[k] == j;
                    let m = choose|m: int| first_absent(p, prior@, answers, probed, m);
                    if m < k {
                        assert(is_absent(p, prior@, answers, probed[m]));
                    } else if k < m {
                        assert(is_absent(p, prior@, answers, probed[k]));
                    }
                }
                assert(p.nodes[j as int].name == node@);
            }
            Err(ResumeRefusal::DanglingReference { node, reference: stored })
        },
        Ok((must, wanted)) => {
            proof {
                lemma_rounds_stored(p, prior@, Round { must: seed_flags(p, prior@), probed: Seq::empty() });
                assert forall|i: int| #[trigger] probed.contains(i) implies reference(p, prior@, i) is Some by {
                    let k = choose|k: int| 0 <= k < probed.len() && probed[k] == i;
                    assert(reference(p, prior@, probed[k]) is Some);
                }
                lemma_rounds_follow(p, prior@, Round { must: seed_flags(p, prior@), probed: Seq::empty() });
                assert forall|answers: Answers, k: int| answers_as(probe, answers) implies !first_absent(
                    p,
                    prior@,
                    answers,
                    probed,
                    k,
                ) by {
                    if 0 <= k < probed.len() {
                        assert(!is_absent(p, prior@, answers, probed[k]));
                    }
                }
            }
            let plan = ResumePlan {
                seed: name_marked(pipeline, &seed),
                must_run: name_marked(pipeline, &must),
                satisfied_from_prior: mark_satisfied_from_prior(pipeline, prior, &must),
                rehydrate: list_rehydrated(pipeline, &graph, &must, &wanted, Ghost(prior@)),
                policy_diff: diff,
            };
            assert(plan@ =~= PlanView::of(p, prior@));
            proof {
                super::laws::law_must_run_is_closed(p, prior@);
                assert forall|i: int|
                    0 <= i < p.nodes.len() && !succeeded(p, prior@, i) implies plan@.seed.contains(
                    (#[trigger] p.nodes[i]).name,
                ) && plan@.must_run.contains(p.nodes[i].name) by {
                    assert(in_seed(p, prior@, i));
                    assert(seed_flags(p, prior@)[i]);
                    assert(names_marked(p, seed_flags(p, prior@), p.nodes[i].name));
                    assert(names_marked(p, resolved(p, prior@).must, p.nodes[i].name));
                }
            }
            Ok(plan)
        },
    }
}

} // verus!
