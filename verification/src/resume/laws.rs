//! What holds of every resume plan.

use super::plan::{self, Answers, PlanView, Round};
use super::{PolicyDiff, PriorRunView, ReferenceExistence, RefusalView};
use crate::assembly::graph;
use crate::context::TerminalState;
use crate::flow::{self, PipelineView};
use crate::handle::NodeId;
use crate::text;
use vstd::prelude::*;

verus! {

/// Whether marks hold every node that must run on its own account, every node below a
/// marked one, and every producer that a marked node needs and that has no stored
/// output.
pub open spec fn closed(p: PipelineView, prior: PriorRunView, marks: Seq<bool>) -> bool {
    &&& marks.len() == p.nodes.len()
    &&& forall|i: int| 0 <= i < p.nodes.len() && plan::in_seed(p, prior, i) ==> #[trigger] marks[i]
    &&& forall|i: int|
        0 <= i < p.nodes.len() && plan::any_marked(marks, #[trigger] graph::upstreams(p, i)) ==> marks[i]
    &&& forall|i: int, k: int|
        #![trigger graph::data_inputs(p, i)[k]]
        0 <= i < p.nodes.len() && marks[i] && 0 <= k < graph::data_inputs(p, i).len() && plan::reference(
            p,
            prior,
            graph::data_inputs(p, i)[k],
        ) is None ==> marks[graph::data_inputs(p, i)[k]]
}

/// Whether each input of each marked node is marked or was asked for.
pub open spec fn supplied(p: PipelineView, done: Round) -> bool {
    forall|i: int, k: int|
        #![trigger graph::data_inputs(p, i)[k]]
        0 <= i < p.nodes.len() && done.must[i] && 0 <= k < graph::data_inputs(p, i).len()
            ==> done.must[graph::data_inputs(p, i)[k]] || done.probed.contains(graph::data_inputs(p, i)[k])
}

proof fn lemma_contained(a: Seq<int>, b: Seq<int>, x: int)
    requires
        plan::begins_with(b, a),
        a.contains(x),
    ensures
        b.contains(x),
{
    let k = choose|k: int| 0 <= k < a.len() && a[k] == x;
    assert(b[k] == x);
}

proof fn lemma_inputs_supplied(p: PipelineView, prior: PriorRunView, st: Round, inputs: Seq<int>, k: int, m: int)
    requires
        0 <= m < k <= inputs.len(),
        forall|j: int| 0 <= j < inputs.len() ==> 0 <= #[trigger] inputs[j] < st.must.len(),
    ensures
        ({
            let after = plan::demand_inputs(p, prior, st, inputs, k);
            after.must[inputs[m]] || (after.probed.contains(inputs[m]) && plan::reference(p, prior, inputs[m]) is Some)
        }),
    decreases k,
{
    let before = plan::demand_inputs(p, prior, st, inputs, k - 1);
    let after = plan::demand_inputs(p, prior, st, inputs, k);
    plan::lemma_inputs_follow(p, prior, st, inputs, k - 1, k);
    assert(0 <= inputs[m] < st.must.len());
    assert(0 <= inputs[k - 1] < st.must.len());
    if m < k - 1 {
        lemma_inputs_supplied(p, prior, st, inputs, k - 1, m);
        if before.probed.contains(inputs[m]) {
            lemma_contained(before.probed, after.probed, inputs[m]);
        }
        assert(before.must[inputs[m]] ==> after.must[inputs[m]]);
    } else if !before.must[inputs[m]] && plan::reference(p, prior, inputs[m]) is Some {
        assert(after.probed.last() == inputs[m]);
    }
}

proof fn lemma_all_supplied(
    p: PipelineView,
    prior: PriorRunView,
    st: Round,
    marked: Seq<bool>,
    n: int,
    i: int,
    m: int,
)
    requires
        st.must.len() == p.nodes.len(),
        0 <= i < n <= p.nodes.len(),
        marked[i],
        0 <= m < graph::data_inputs(p, i).len(),
    ensures
        ({
            let after = plan::demand_all(p, prior, st, marked, n);
            let j = graph::data_inputs(p, i)[m];
            after.must[j] || (after.probed.contains(j) && plan::reference(p, prior, j) is Some)
        }),
    decreases n,
{
    let before = plan::demand_all(p, prior, st, marked, n - 1);
    let after = plan::demand_all(p, prior, st, marked, n);
    let j = graph::data_inputs(p, i)[m];
    plan::lemma_all_follow(p, prior, st, marked, n - 1, n);
    graph::lemma_upstreams_bounds(p, i);
    assert(0 <= j < st.must.len());
    if i < n - 1 {
        lemma_all_supplied(p, prior, st, marked, n - 1, i, m);
        if before.probed.contains(j) {
            lemma_contained(before.probed, after.probed, j);
        }
        assert(before.must[j] ==> after.must[j]);
    } else {
        let inputs = graph::data_inputs(p, i);
        lemma_inputs_supplied(p, prior, before, inputs, inputs.len() as int, m);
    }
}

proof fn lemma_downward_still(p: PipelineView, marks: Seq<bool>, k: int)
    requires
        0 <= k <= p.nodes.len(),
        marks.len() == p.nodes.len(),
        plan::downward(p, marks, k) == marks,
    ensures
        forall|i: int| 0 <= i < k && plan::any_marked(marks, #[trigger] graph::upstreams(p, i)) ==> marks[i],
    decreases k,
{
    if k > 0 {
        let before = plan::downward(p, marks, k - 1);
        plan::lemma_downward_grows(p, marks, k - 1);
        assert(before =~= marks) by {
            assert forall|i: int| 0 <= i < marks.len() implies before[i] == marks[i] by {
                if before[i] {
                    assert(plan::downward(p, marks, k)[i]);
                }
                if marks[i] {
                    assert(before[i]);
                }
            }
        }
        lemma_downward_still(p, marks, k - 1);
    }
}

/// Marks that one round leaves as they are are closed, and their inputs are supplied.
proof fn lemma_still_round(p: PipelineView, prior: PriorRunView, st: Round)
    requires
        st.must.len() == p.nodes.len(),
        plan::grown(plan::seed_flags(p, prior), st.must),
        plan::round(p, prior, st).must == st.must,
    ensures
        closed(p, prior, st.must),
        supplied(p, plan::round(p, prior, st)),
{
    let n = p.nodes.len() as int;
    let m = plan::downward(p, st.must, n);
    let next = plan::round(p, prior, st);
    let mid = Round { must: m, ..st };
    plan::lemma_downward_grows(p, st.must, n);
    plan::lemma_all_follow(p, prior, mid, m, 0, n);
    assert(m =~= st.must) by {
        assert forall|i: int| 0 <= i < n implies m[i] == st.must[i] by {
            if m[i] {
                assert(next.must[i]);
            }
            if st.must[i] {
                assert(m[i]);
            }
        }
    }
    lemma_downward_still(p, st.must, n);
    assert forall|i: int| 0 <= i < n && plan::in_seed(p, prior, i) implies #[trigger] st.must[i] by {
        assert(plan::seed_flags(p, prior)[i]);
    }
    assert forall|i: int, k: int|
        #![trigger graph::data_inputs(p, i)[k]]
        0 <= i < n && st.must[i] && 0 <= k < graph::data_inputs(p, i).len() implies (st.must[graph::data_inputs(
        p,
        i,
    )[k]] || (next.probed.contains(graph::data_inputs(p, i)[k]) && plan::reference(
        p,
        prior,
        graph::data_inputs(p, i)[k],
    ) is Some)) by {
        lemma_all_supplied(p, prior, mid, m, n, i, k);
    }
}

proof fn lemma_rounds_closed(p: PipelineView, prior: PriorRunView, st: Round)
    requires
        st.must.len() == p.nodes.len(),
        plan::grown(plan::seed_flags(p, prior), st.must),
    ensures
        closed(p, prior, plan::rounds(p, prior, st).must),
        supplied(p, plan::rounds(p, prior, st)),
    decreases plan::unmarked(st.must),
{
    let next = plan::round(p, prior, st);
    plan::lemma_round_grows(p, prior, st);
    if next.must == st.must {
        lemma_still_round(p, prior, st);
    } else {
        plan::lemma_fewer_unmarked(st.must, next.must);
        assert forall|i: int| 0 <= i < p.nodes.len() && #[trigger] plan::seed_flags(p, prior)[i] implies next.must[i] by {
            assert(st.must[i]);
        }
        lemma_rounds_closed(p, prior, next);
    }
}

/// The nodes that run again hold every node without a standing success, everything
/// reachable from them, and every producer whose value is needed and not stored.
pub proof fn law_must_run_is_closed(p: PipelineView, prior: PriorRunView)
    ensures
        closed(p, prior, plan::resolved(p, prior).must),
        supplied(p, plan::resolved(p, prior)),
{
    lemma_rounds_closed(p, prior, Round { must: plan::seed_flags(p, prior), probed: Seq::empty() });
}

proof fn lemma_downward_within(p: PipelineView, prior: PriorRunView, marks: Seq<bool>, all: Seq<bool>, k: int)
    requires
        closed(p, prior, all),
        plan::grown(marks, all),
        0 <= k <= p.nodes.len(),
    ensures
        plan::grown(plan::downward(p, marks, k), all),
    decreases k,
{
    if k > 0 {
        lemma_downward_within(p, prior, marks, all, k - 1);
        let before = plan::downward(p, marks, k - 1);
        let ups = graph::upstreams(p, k - 1);
        if plan::any_marked(before, ups) {
            let j = choose|j: int| 0 <= j < ups.len() && before[#[trigger] ups[j]];
            graph::lemma_upstreams_bounds(p, k - 1);
            assert(all[ups[j]]);
            assert(plan::any_marked(all, ups));
        }
    }
}

proof fn lemma_inputs_within(
    p: PipelineView,
    prior: PriorRunView,
    st: Round,
    all: Seq<bool>,
    i: int,
    k: int,
)
    requires
        closed(p, prior, all),
        plan::grown(st.must, all),
        0 <= i < p.nodes.len(),
        all[i],
        0 <= k <= graph::data_inputs(p, i).len(),
    ensures
        plan::grown(plan::demand_inputs(p, prior, st, graph::data_inputs(p, i), k).must, all),
    decreases k,
{
    if k > 0 {
        lemma_inputs_within(p, prior, st, all, i, k - 1);
        graph::lemma_upstreams_bounds(p, i);
        let j = graph::data_inputs(p, i)[k - 1];
        assert(plan::reference(p, prior, j) is None ==> all[j]);
    }
}

proof fn lemma_all_within(
    p: PipelineView,
    prior: PriorRunView,
    st: Round,
    marked: Seq<bool>,
    all: Seq<bool>,
    k: int,
)
    requires
        closed(p, prior, all),
        plan::grown(st.must, all),
        plan::grown(marked, all),
        0 <= k <= p.nodes.len(),
    ensures
        plan::grown(plan::demand_all(p, prior, st, marked, k).must, all),
    decreases k,
{
    if k > 0 {
        lemma_all_within(p, prior, st, marked, all, k - 1);
        if marked[k - 1] {
            assert(all[k - 1]);
            let before = plan::demand_all(p, prior, st, marked, k - 1);
            lemma_inputs_within(p, prior, before, all, k - 1, graph::data_inputs(p, k - 1).len() as int);
        }
    }
}

proof fn lemma_rounds_within(p: PipelineView, prior: PriorRunView, st: Round, all: Seq<bool>)
    requires
        closed(p, prior, all),
        plan::grown(st.must, all),
    ensures
        plan::grown(plan::rounds(p, prior, st).must, all),
    decreases plan::unmarked(st.must),
{
    let n = p.nodes.len() as int;
    let m = plan::downward(p, st.must, n);
    lemma_downward_within(p, prior, st.must, all, n);
    lemma_all_within(p, prior, Round { must: m, ..st }, m, all, n);
    plan::lemma_round_grows(p, prior, st);
    let next = plan::round(p, prior, st);
    if next.must != st.must {
        plan::lemma_fewer_unmarked(st.must, next.must);
        lemma_rounds_within(p, prior, next, all);
    }
}

/// Nothing runs again without need: any closed set of nodes holds all that run again.
pub proof fn law_must_run_is_least(p: PipelineView, prior: PriorRunView, all: Seq<bool>)
    requires
        closed(p, prior, all),
    ensures
        plan::grown(plan::resolved(p, prior).must, all),
{
    assert forall|i: int| 0 <= i < p.nodes.len() && #[trigger] plan::seed_flags(p, prior)[i] implies all[i] by {
        assert(plan::in_seed(p, prior, i));
    }
    lemma_rounds_within(p, prior, Round { must: plan::seed_flags(p, prior), probed: Seq::empty() }, all);
}

/// A name is that of one node.
proof fn lemma_one_node(p: PipelineView, i: int, j: int)
    requires
        p.wf(),
        0 <= i < p.nodes.len(),
        0 <= j < p.nodes.len(),
        p.nodes[i].name == p.nodes[j].name,
    ensures
        i == j,
{
    if i < j {
        text::lemma_name_lt_asymmetric(p.nodes[i].name, p.nodes[j].name);
    } else if j < i {
        text::lemma_name_lt_asymmetric(p.nodes[j].name, p.nodes[i].name);
    }
}

/// Every node either runs again or stands as a prior success, and none does both.
pub proof fn law_every_node_runs_or_stands(p: PipelineView, prior: PriorRunView, i: int)
    requires
        p.wf(),
        0 <= i < p.nodes.len(),
    ensures
        ({
            let plan = PlanView::of(p, prior);
            plan.must_run.contains(p.nodes[i].name) != plan.satisfied_from_prior.dom().contains(p.nodes[i].name)
        }),
{
    let done = plan::resolved(p, prior);
    let name = p.nodes[i].name;
    law_must_run_is_closed(p, prior);
    let satisfied = plan::satisfied_flags(p, prior, done.must);
    if done.must[i] {
        assert(plan::names_marked(p, done.must, name));
        if plan::names_marked(p, satisfied, name) {
            let j = choose|j: int| 0 <= j < p.nodes.len() && satisfied[j] && (#[trigger] p.nodes[j]).name == name;
            lemma_one_node(p, i, j);
        }
    } else {
        assert(!plan::in_seed(p, prior, i));
        assert(satisfied[i]);
        assert(plan::names_marked(p, satisfied, name));
        if plan::names_marked(p, done.must, name) {
            let j = choose|j: int| 0 <= j < p.nodes.len() && done.must[j] && (#[trigger] p.nodes[j]).name == name;
            lemma_one_node(p, i, j);
        }
    }
}

/// A node that runs again finds each of its inputs: the producer runs again too, or its
/// stored output is rehydrated.
pub proof fn law_inputs_are_supplied(p: PipelineView, prior: PriorRunView, i: int, k: int)
    requires
        p.wf(),
        0 <= i < p.nodes.len(),
        PlanView::of(p, prior).must_run.contains(p.nodes[i].name),
        0 <= k < graph::data_inputs(p, i).len(),
    ensures
        ({
            let plan = PlanView::of(p, prior);
            let j = graph::data_inputs(p, i)[k];
            let name = p.nodes[j].name;
            plan.must_run.contains(name) || (plan.rehydrate.dom().contains(name) && plan::reference(p, prior, j)
                == Some(plan.rehydrate[name]))
        }),
{
    let done = plan::resolved(p, prior);
    let j = graph::data_inputs(p, i)[k];
    law_must_run_is_closed(p, prior);
    graph::lemma_upstreams_bounds(p, i);
    let m = choose|m: int|
        0 <= m < p.nodes.len() && done.must[m] && (#[trigger] p.nodes[m]).name == p.nodes[i].name;
    lemma_one_node(p, i, m);
    assert(done.must[i]);
    assert(0 <= j < p.nodes.len());
    assert(p.nodes[j].name == p.nodes[j].name);
    if done.must[j] {
        assert(plan::names_marked(p, done.must, p.nodes[j].name));
    } else {
        assert(plan::rehydrate_flags(p, done)[j]);
        assert(plan::names_marked(p, plan::rehydrate_flags(p, done), p.nodes[j].name));
        plan::lemma_rounds_stored(p, prior, Round { must: plan::seed_flags(p, prior), probed: Seq::empty() });
        let q = choose|q: int| 0 <= q < done.probed.len() && done.probed[q] == j;
        assert(plan::reference(p, prior, done.probed[q]) is Some);
    }
}

/// Only outputs of durable nodes that succeeded are rehydrated, each from the reference
/// that its success recorded, and never one of a node that runs again.
pub proof fn law_rehydrated_are_stored(p: PipelineView, prior: PriorRunView, i: int)
    requires
        p.wf(),
        0 <= i < p.nodes.len(),
        PlanView::of(p, prior).rehydrate.dom().contains(p.nodes[i].name),
    ensures
        plan::reference(p, prior, i) == Some(PlanView::of(p, prior).rehydrate[p.nodes[i].name]),
        !PlanView::of(p, prior).must_run.contains(p.nodes[i].name),
        plan::resolved(p, prior).probed.contains(i),
{
    let done = plan::resolved(p, prior);
    let name = p.nodes[i].name;
    let flags = plan::rehydrate_flags(p, done);
    let j = choose|j: int| 0 <= j < p.nodes.len() && flags[j] && (#[trigger] p.nodes[j]).name == name;
    lemma_one_node(p, i, j);
    plan::lemma_rounds_stored(p, prior, Round { must: plan::seed_flags(p, prior), probed: Seq::empty() });
    let q = choose|q: int| 0 <= q < done.probed.len() && done.probed[q] == i;
    assert(plan::reference(p, prior, done.probed[q]) is Some);
    if plan::names_marked(p, done.must, name) {
        let m = choose|m: int| 0 <= m < p.nodes.len() && done.must[m] && (#[trigger] p.nodes[m]).name == name;
        lemma_one_node(p, i, m);
    }
}

/// A plan rehydrates nothing that storage says is gone.
pub proof fn law_nothing_gone_is_rehydrated(
    p: PipelineView,
    prior: PriorRunView,
    tool: Seq<char>,
    answers: Answers,
    i: int,
)
    requires
        p.wf(),
        plan::planned(p, prior, tool, answers) is Ok,
        0 <= i < p.nodes.len(),
        plan::planned(p, prior, tool, answers)->Ok_0.rehydrate.dom().contains(p.nodes[i].name),
    ensures
        !plan::is_absent(p, prior, answers, i),
{
    let probed = plan::resolved(p, prior).probed;
    law_rehydrated_are_stored(p, prior, i);
    let k = choose|k: int| 0 <= k < probed.len() && probed[k] == i;
    if plan::is_absent(p, prior, answers, i) {
        lemma_first_absent(p, prior, answers, probed, k);
    }
}

proof fn lemma_first_absent(p: PipelineView, prior: PriorRunView, answers: Answers, probed: Seq<int>, k: int)
    requires
        0 <= k < probed.len(),
        plan::is_absent(p, prior, answers, probed[k]),
    ensures
        exists|m: int| plan::first_absent(p, prior, answers, probed, m),
    decreases k,
{
    if exists|m: int| 0 <= m < k && plan::is_absent(p, prior, answers, #[trigger] probed[m]) {
        let m = choose|m: int| 0 <= m < k && plan::is_absent(p, prior, answers, #[trigger] probed[m]);
        lemma_first_absent(p, prior, answers, probed, m);
    } else {
        assert(plan::first_absent(p, prior, answers, probed, k));
    }
}

/// Whether every stored output that was asked for is needed by a node that runs.
spec fn all_needed(p: PipelineView, must: Seq<bool>, probed: Seq<int>) -> bool {
    forall|k: int| 0 <= k < probed.len() ==> needed(p, must, #[trigger] probed[k])
}

/// Whether a node that runs needs the value of node `j`.
pub open spec fn needed(p: PipelineView, must: Seq<bool>, j: int) -> bool {
    exists|c: int| 0 <= c < must.len() && must[c] && #[trigger] graph::data_inputs(p, c).contains(j)
}

proof fn lemma_needed_grows(p: PipelineView, a: Seq<bool>, b: Seq<bool>, probed: Seq<int>)
    requires
        plan::grown(a, b),
        all_needed(p, a, probed),
    ensures
        all_needed(p, b, probed),
{
    assert forall|k: int| 0 <= k < probed.len() implies needed(p, b, #[trigger] probed[k]) by {
        assert(needed(p, a, probed[k]));
        let c = choose|c: int| 0 <= c < a.len() && a[c] && #[trigger] graph::data_inputs(p, c).contains(probed[k]);
        assert(b[c]);
    }
}

proof fn lemma_needed_inputs(p: PipelineView, prior: PriorRunView, st: Round, c: int, k: int)
    requires
        0 <= c < st.must.len(),
        st.must[c],
        st.must.len() == p.nodes.len(),
        0 <= k <= graph::data_inputs(p, c).len(),
        all_needed(p, st.must, st.probed),
    ensures
        ({
            let after = plan::demand_inputs(p, prior, st, graph::data_inputs(p, c), k);
            plan::grown(st.must, after.must) && all_needed(p, after.must, after.probed)
        }),
    decreases k,
{
    if k > 0 {
        let inputs = graph::data_inputs(p, c);
        lemma_needed_inputs(p, prior, st, c, k - 1);
        let before = plan::demand_inputs(p, prior, st, inputs, k - 1);
        let after = plan::demand_inputs(p, prior, st, inputs, k);
        assert(st.must[c] && before.must[c]);
        assert(inputs.contains(inputs[k - 1]));
        graph::lemma_upstreams_bounds(p, c);
        assert(0 <= inputs[k - 1] < p.nodes.len());
        assert(plan::grown(before.must, after.must));
        lemma_needed_grows(p, before.must, after.must, before.probed);
        assert forall|m: int| 0 <= m < after.probed.len() implies needed(p, after.must, #[trigger] after.probed[m]) by {
            if m < before.probed.len() {
                assert(after.probed[m] == before.probed[m]);
            } else {
                assert(after.must[c]);
            }
        }
        assert forall|i: int| 0 <= i < st.must.len() && #[trigger] st.must[i] implies after.must[i] by {
            assert(before.must[i]);
        }
    }
}

proof fn lemma_needed_all(p: PipelineView, prior: PriorRunView, st: Round, k: int)
    requires
        st.must.len() == p.nodes.len(),
        0 <= k <= p.nodes.len(),
        all_needed(p, st.must, st.probed),
    ensures
        ({
            let after = plan::demand_all(p, prior, st, st.must, k);
            plan::grown(st.must, after.must) && all_needed(p, after.must, after.probed)
        }),
    decreases k,
{
    if k > 0 {
        lemma_needed_all(p, prior, st, k - 1);
        let before = plan::demand_all(p, prior, st, st.must, k - 1);
        if st.must[k - 1] {
            assert(before.must[k - 1]);
            lemma_needed_inputs(p, prior, before, k - 1, graph::data_inputs(p, k - 1).len() as int);
            let after = plan::demand_all(p, prior, st, st.must, k);
            assert forall|i: int| 0 <= i < st.must.len() && #[trigger] st.must[i] implies after.must[i] by {
                assert(before.must[i]);
            }
        }
    }
}

proof fn lemma_needed_rounds(p: PipelineView, prior: PriorRunView, st: Round)
    requires
        st.must.len() == p.nodes.len(),
        all_needed(p, st.must, st.probed),
    ensures
        ({
            let done = plan::rounds(p, prior, st);
            all_needed(p, done.must, done.probed)
        }),
    decreases plan::unmarked(st.must),
{
    let n = p.nodes.len() as int;
    let m = plan::downward(p, st.must, n);
    plan::lemma_downward_grows(p, st.must, n);
    lemma_needed_grows(p, st.must, m, st.probed);
    lemma_needed_all(p, prior, Round { must: m, ..st }, n);
    let next = plan::round(p, prior, st);
    if next.must != st.must {
        plan::lemma_round_grows(p, prior, st);
        plan::lemma_fewer_unmarked(st.must, next.must);
        lemma_needed_rounds(p, prior, next);
    }
}

/// Storage is asked only for what is needed: a producer is asked about only where it is
/// durable, its prior success recorded a reference, and a node that runs takes its value.
pub proof fn law_only_needed_outputs_are_asked_for(p: PipelineView, prior: PriorRunView, k: int)
    requires
        0 <= k < plan::resolved(p, prior).probed.len(),
    ensures
        ({
            let done = plan::resolved(p, prior);
            plan::reference(p, prior, done.probed[k]) is Some && needed(p, done.must, done.probed[k])
        }),
{
    let st = Round { must: plan::seed_flags(p, prior), probed: Seq::empty() };
    plan::lemma_rounds_stored(p, prior, st);
    lemma_needed_rounds(p, prior, st);
}

/// Resuming a run in which every node succeeded, and none was covered by a teardown that
/// was executed, runs nothing and asks storage for nothing.
pub proof fn law_complete_run_is_no_op(p: PipelineView, prior: PriorRunView)
    requires
        forall|i: int| 0 <= i < p.nodes.len() ==> !#[trigger] plan::in_seed(p, prior, i),
    ensures
        PlanView::of(p, prior).seed == Set::<Seq<char>>::empty(),
        PlanView::of(p, prior).must_run == Set::<Seq<char>>::empty(),
        PlanView::of(p, prior).rehydrate.dom() == Set::<Seq<char>>::empty(),
        plan::resolved(p, prior).probed == Seq::<int>::empty(),
{
    let n = p.nodes.len() as int;
    let none = Seq::new(p.nodes.len(), |i: int| false);
    let seed = plan::seed_flags(p, prior);
    let st = Round { must: seed, probed: Seq::empty() };
    assert forall|i: int| 0 <= i < n implies !seed[i] by {
        assert(!plan::in_seed(p, prior, i));
    }
    assert(seed =~= none);
    lemma_downward_none(p, seed, n);
    lemma_all_none(p, prior, st, seed, n);
    let done = plan::resolved(p, prior);
    assert(done == st);
    assert(plan::marked_names(p, seed) =~= Set::<Seq<char>>::empty());
    assert(plan::marked_names(p, done.must) =~= Set::<Seq<char>>::empty());
    assert(PlanView::of(p, prior).rehydrate.dom() =~= Set::<Seq<char>>::empty());
}

proof fn lemma_downward_none(p: PipelineView, marks: Seq<bool>, k: int)
    requires
        marks.len() == p.nodes.len(),
        0 <= k <= p.nodes.len(),
        forall|i: int| 0 <= i < marks.len() ==> !#[trigger] marks[i],
    ensures
        plan::downward(p, marks, k) == marks,
    decreases k,
{
    if k > 0 {
        lemma_downward_none(p, marks, k - 1);
        graph::lemma_upstreams_bounds(p, k - 1);
    }
}

proof fn lemma_all_none(p: PipelineView, prior: PriorRunView, st: Round, marked: Seq<bool>, k: int)
    requires
        marked.len() == p.nodes.len(),
        0 <= k <= p.nodes.len(),
        forall|i: int| 0 <= i < marked.len() ==> !#[trigger] marked[i],
    ensures
        plan::demand_all(p, prior, st, marked, k) == st,
    decreases k,
{
    if k > 0 {
        lemma_all_none(p, prior, st, marked, k - 1);
    }
}

/// Whether two prior runs differ at most in the policy hash.
pub open spec fn same_but_policy(a: PriorRunView, b: PriorRunView) -> bool {
    a == (PriorRunView { policy_hash: a.policy_hash, ..b })
}

proof fn lemma_policy_flags(p: PipelineView, a: PriorRunView, b: PriorRunView)
    requires
        same_but_policy(a, b),
    ensures
        plan::seed_flags(p, a) == plan::seed_flags(p, b),
        forall|i: int| #[trigger] plan::reference(p, a, i) == plan::reference(p, b, i),
        forall|i: int| #[trigger] plan::succeeded(p, a, i) == plan::succeeded(p, b, i),
{
    assert(plan::seed_flags(p, a) =~= plan::seed_flags(p, b));
}

proof fn lemma_policy_inputs(p: PipelineView, a: PriorRunView, b: PriorRunView, st: Round, inputs: Seq<int>, k: int)
    requires
        same_but_policy(a, b),
    ensures
        plan::demand_inputs(p, a, st, inputs, k) == plan::demand_inputs(p, b, st, inputs, k),
    decreases k,
{
    lemma_policy_flags(p, a, b);
    if k > 0 {
        lemma_policy_inputs(p, a, b, st, inputs, k - 1);
    }
}

proof fn lemma_policy_all(p: PipelineView, a: PriorRunView, b: PriorRunView, st: Round, marked: Seq<bool>, k: int)
    requires
        same_but_policy(a, b),
    ensures
        plan::demand_all(p, a, st, marked, k) == plan::demand_all(p, b, st, marked, k),
    decreases k,
{
    if k > 0 {
        lemma_policy_all(p, a, b, st, marked, k - 1);
        let inputs = graph::data_inputs(p, k - 1);
        lemma_policy_inputs(
            p,
            a,
            b,
            plan::demand_all(p, a, st, marked, k - 1),
            inputs,
            inputs.len() as int,
        );
    }
}

proof fn lemma_policy_rounds(p: PipelineView, a: PriorRunView, b: PriorRunView, st: Round)
    requires
        same_but_policy(a, b),
    ensures
        plan::rounds(p, a, st) == plan::rounds(p, b, st),
    decreases plan::unmarked(st.must),
{
    if st.must.len() == p.nodes.len() {
        let n = p.nodes.len() as int;
        let m = plan::downward(p, st.must, n);
        lemma_policy_all(p, a, b, Round { must: m, ..st }, m, n);
        let next = plan::round(p, a, st);
        if next.must != st.must {
            plan::lemma_round_grows(p, a, st);
            plan::lemma_fewer_unmarked(st.must, next.must);
            lemma_policy_rounds(p, a, b, next);
        }
    }
}

/// A divergent policy never refuses a resume and changes nothing of the plan but the
/// reported difference.
pub proof fn law_policy_never_refuses(p: PipelineView, a: PriorRunView, b: PriorRunView, tool: Seq<char>, answers: Answers)
    requires
        same_but_policy(a, b),
    ensures
        match plan::planned(p, a, tool, answers) {
            Ok(plan) => plan::planned(p, b, tool, answers) == Ok::<PlanView, RefusalView>(
                PlanView { policy_diff: plan::policy_diff(p, b), ..plan },
            ),
            Err(refusal) => plan::planned(p, b, tool, answers) == Err::<PlanView, RefusalView>(refusal),
        },
{
    lemma_policy_flags(p, a, b);
    lemma_policy_rounds(p, a, b, Round { must: plan::seed_flags(p, a), probed: Seq::empty() });
    let probed = plan::resolved(p, a).probed;
    assert(plan::resolved(p, a) == plan::resolved(p, b));
    assert forall|k: int| plan::first_absent(p, a, answers, probed, k) == plan::first_absent(p, b, answers, probed, k) by {
        if 0 <= k < probed.len() {
            assert forall|m: int| 0 <= m <= k implies plan::is_absent(p, a, answers, #[trigger] probed[m])
                == plan::is_absent(p, b, answers, probed[m]) by {
                assert(plan::reference(p, a, probed[m]) == plan::reference(p, b, probed[m]));
            }
        }
    }
    let pa = PlanView::of(p, a);
    let pb = PlanView::of(p, b);
    let must = plan::resolved(p, a).must;
    assert(plan::satisfied_flags(p, a, must) =~= plan::satisfied_flags(p, b, must));
    assert(pa.satisfied_from_prior =~= pb.satisfied_from_prior);
    assert(pa.rehydrate =~= pb.rehydrate);
    if exists|k: int| plan::first_absent(p, a, answers, probed, k) {
        let ka = choose|k: int| plan::first_absent(p, a, answers, probed, k);
        let kb = choose|k: int| plan::first_absent(p, b, answers, probed, k);
        assert(plan::first_absent(p, b, answers, probed, ka));
        if ka < kb {
            assert(plan::is_absent(p, b, answers, probed[ka]));
        } else if kb < ka {
            assert(plan::first_absent(p, a, answers, probed, kb));
            assert(plan::is_absent(p, a, answers, probed[kb]));
        }
        let j = probed[ka];
        assert(plan::reference(p, a, j) == plan::reference(p, b, j));
    }
}

/// Whether the prior run recorded that the node so named succeeded.
pub open spec fn recorded_success(prior: PriorRunView, name: Seq<char>) -> bool {
    prior.nodes.dom().contains(name) && prior.nodes[name].terminal == TerminalState::Succeeded
}

/// Whether the prior run recorded of the node so named an end that a node comes to by
/// being executed.
pub open spec fn recorded_execution(prior: PriorRunView, name: Seq<char>) -> bool {
    prior.nodes.dom().contains(name) && {
        let end = prior.nodes[name].terminal;
        end == TerminalState::Succeeded || end == TerminalState::Failed || end == TerminalState::TimedOut || end
            == TerminalState::Skipped || end == TerminalState::Abandoned
    }
}

/// Whether node `i` is covered by a teardown that the prior run executed.
pub open spec fn torn_down(p: PipelineView, prior: PriorRunView, i: int) -> bool {
    exists|t: int, k: int|
        #![trigger p.nodes[t].declaration.covers[k]]
        0 <= t < p.nodes.len() && recorded_execution(prior, p.nodes[t].name) && 0 <= k
            < p.nodes[t].declaration.covers.len() && p.resolves_to(p.nodes[t].declaration.covers[k], i)
}

proof fn lemma_torn_down(p: PipelineView, prior: PriorRunView, i: int)
    requires
        0 <= i < p.nodes.len(),
    ensures
        plan::covered(p, prior, i) == torn_down(p, prior, i),
{
    if plan::covered(p, prior, i) {
        let (t, k) = choose|t: int, k: int|
            #![trigger p.nodes[t].declaration.covers[k]]
            0 <= t < p.nodes.len() && plan::executed(p, prior, t) && 0 <= k < p.nodes[t].declaration.covers.len()
                && p.has_node(p.nodes[t].declaration.covers[k]) && p.index_of(p.nodes[t].declaration.covers[k]) == i;
        flow::lemma_resolves(p, p.nodes[t].declaration.covers[k]);
        assert(recorded_execution(prior, p.nodes[t].name));
    }
    if torn_down(p, prior, i) {
        let (t, k) = choose|t: int, k: int|
            #![trigger p.nodes[t].declaration.covers[k]]
            0 <= t < p.nodes.len() && recorded_execution(prior, p.nodes[t].name) && 0 <= k
                < p.nodes[t].declaration.covers.len() && p.resolves_to(p.nodes[t].declaration.covers[k], i);
        flow::lemma_resolves_unique(p, p.nodes[t].declaration.covers[k], i);
        assert(plan::executed(p, prior, t));
    }
}

/// Whether a name is marked, of a node that is known.
proof fn lemma_mark_of(p: PipelineView, marks: Seq<bool>, i: int)
    requires
        p.wf(),
        0 <= i < p.nodes.len(),
    ensures
        plan::names_marked(p, marks, p.nodes[i].name) == marks[i],
{
    if plan::names_marked(p, marks, p.nodes[i].name) {
        let j = choose|j: int| 0 <= j < p.nodes.len() && marks[j] && (#[trigger] p.nodes[j]).name == p.nodes[i].name;
        lemma_one_node(p, i, j);
    }
}

/// The seed is exactly the nodes of which the prior run recorded anything but a success,
/// or nothing at all, and those that a teardown it executed may have undone. They run
/// again; and a prior success stands only where the prior run recorded one, under the run
/// that it originated in.
pub proof fn law_only_a_recorded_success_stands(p: PipelineView, prior: PriorRunView, i: int)
    requires
        p.wf(),
        0 <= i < p.nodes.len(),
    ensures
        ({
            let plan = PlanView::of(p, prior);
            let name = p.nodes[i].name;
            &&& plan.seed.contains(name) <==> !recorded_success(prior, name) || torn_down(p, prior, i)
            &&& plan.seed.contains(name) ==> plan.must_run.contains(name)
            &&& !recorded_success(prior, name) ==> plan.must_run.contains(name)
                && !plan.satisfied_from_prior.dom().contains(name)
            &&& plan.satisfied_from_prior.dom().contains(name) <==> recorded_success(prior, name)
                && !plan.must_run.contains(name)
            &&& plan.satisfied_from_prior.dom().contains(name) ==> plan.satisfied_from_prior[name]
                == prior.nodes[name].originating_run
        }),
{
    let done = plan::resolved(p, prior);
    lemma_torn_down(p, prior, i);
    law_must_run_is_closed(p, prior);
    lemma_mark_of(p, plan::seed_flags(p, prior), i);
    lemma_mark_of(p, done.must, i);
    lemma_mark_of(p, plan::satisfied_flags(p, prior, done.must), i);
    if plan::in_seed(p, prior, i) {
        assert(done.must[i]);
    }
}

/// A plan speaks of the pipeline's nodes only.
pub proof fn law_a_plan_names_nodes_only(p: PipelineView, prior: PriorRunView, name: Seq<char>)
    requires
        forall|i: int| 0 <= i < p.nodes.len() ==> (#[trigger] p.nodes[i]).name != name,
    ensures
        ({
            let plan = PlanView::of(p, prior);
            !plan.seed.contains(name) && !plan.must_run.contains(name) && !plan.satisfied_from_prior.dom().contains(name)
                && !plan.rehydrate.dom().contains(name)
        }),
{
}

/// Whether node `i` takes data from node `u`.
pub open spec fn takes_from(p: PipelineView, i: int, u: int) -> bool {
    exists|e: int| 0 <= e < p.nodes[i].edges.len() && p.resolves_to((#[trigger] p.nodes[i].edges[e]).upstream, u)
}

/// Whether node `i` is ordered after node `u`.
pub open spec fn ordered_after(p: PipelineView, i: int, u: int) -> bool {
    exists|e: int|
        0 <= e < p.nodes[i].declaration.ordering.len() && p.resolves_to(
            (#[trigger] p.nodes[i].declaration.ordering[e]).upstream,
            u,
        )
}

proof fn lemma_resolution(p: PipelineView, id: NodeId, u: int)
    ensures
        (p.has_node(id) && p.index_of(id) == u) == p.resolves_to(id, u),
{
    if p.has_node(id) {
        flow::lemma_resolves(p, id);
    }
    if p.resolves_to(id, u) {
        flow::lemma_resolves_unique(p, id, u);
    }
}

proof fn lemma_takes_from(p: PipelineView, i: int, u: int)
    ensures
        graph::data_inputs(p, i).contains(u) == takes_from(p, i, u),
        graph::upstreams(p, i).contains(u) == (takes_from(p, i, u) || ordered_after(p, i, u)),
{
    let edges = p.nodes[i].edges;
    let ordering = p.nodes[i].declaration.ordering;
    let a = graph::upstream_ids(edges);
    let b = graph::ordering_ids(ordering);
    graph::lemma_resolved_contains(p, a, u);
    graph::lemma_resolved_contains(p, b, u);
    let x = graph::resolved(p, a);
    let y = graph::resolved(p, b);
    if x.contains(u) {
        let k = choose|k: int| 0 <= k < a.len() && p.has_node(#[trigger] a[k]) && p.index_of(a[k]) == u;
        lemma_resolution(p, a[k], u);
        assert(p.resolves_to(p.nodes[i].edges[k].upstream, u));
        let m = choose|m: int| 0 <= m < x.len() && x[m] == u;
        assert((x + y)[m] == u);
    }
    if takes_from(p, i, u) {
        let e = choose|e: int| 0 <= e < edges.len() && p.resolves_to((#[trigger] edges[e]).upstream, u);
        lemma_resolution(p, edges[e].upstream, u);
        assert(a[e] == edges[e].upstream);
    }
    if y.contains(u) {
        let k = choose|k: int| 0 <= k < b.len() && p.has_node(#[trigger] b[k]) && p.index_of(b[k]) == u;
        lemma_resolution(p, b[k], u);
        assert(p.resolves_to(p.nodes[i].declaration.ordering[k].upstream, u));
        let m = choose|m: int| 0 <= m < y.len() && y[m] == u;
        assert((x + y)[x.len() + m] == u);
    }
    if ordered_after(p, i, u) {
        let e = choose|e: int| 0 <= e < ordering.len() && p.resolves_to((#[trigger] ordering[e]).upstream, u);
        lemma_resolution(p, ordering[e].upstream, u);
        assert(b[e] == ordering[e].upstream);
    }
    if (x + y).contains(u) {
        let m = choose|m: int| 0 <= m < (x + y).len() && (x + y)[m] == u;
        if m < x.len() {
            assert(x[m] == u);
        } else {
            assert(y[m - x.len()] == u);
        }
    }
}

/// Whether the prior run left a stored output of node `j`: the node is durable, it
/// succeeded, and its success recorded a reference.
pub open spec fn has_stored(p: PipelineView, prior: PriorRunView, j: int) -> bool {
    p.nodes[j].policy().durable && recorded_success(prior, p.nodes[j].name)
        && prior.nodes[p.nodes[j].name].durable_reference is Some
}

/// Running again reaches downward: what takes data from a node that runs again, or is
/// ordered after it, runs again. And it reaches upward: what a node that runs again takes
/// data from runs again too, or left a stored output, which is then taken up.
pub proof fn law_running_again_spreads(p: PipelineView, prior: PriorRunView, i: int, u: int)
    requires
        p.wf(),
        0 <= i < p.nodes.len(),
        0 <= u < p.nodes.len(),
    ensures
        ({
            let plan = PlanView::of(p, prior);
            let below = p.nodes[i].name;
            let above = p.nodes[u].name;
            &&& (takes_from(p, i, u) || ordered_after(p, i, u)) && plan.must_run.contains(above)
                ==> plan.must_run.contains(below)
            &&& takes_from(p, i, u) && plan.must_run.contains(below) && !plan.must_run.contains(above)
                ==> has_stored(p, prior, u) && plan.rehydrate.dom().contains(above) && plan.rehydrate[above]
                == prior.nodes[above].durable_reference->0
        }),
{
    let done = plan::resolved(p, prior);
    law_must_run_is_closed(p, prior);
    lemma_mark_of(p, done.must, i);
    lemma_mark_of(p, done.must, u);
    lemma_takes_from(p, i, u);
    if (takes_from(p, i, u) || ordered_after(p, i, u)) && done.must[u] {
        let ups = graph::upstreams(p, i);
        let k = choose|k: int| 0 <= k < ups.len() && ups[k] == u;
        assert(done.must[ups[k]]);
        assert(plan::any_marked(done.must, ups));
    }
    if takes_from(p, i, u) && done.must[i] && !done.must[u] {
        let inputs = graph::data_inputs(p, i);
        let k = choose|k: int| 0 <= k < inputs.len() && inputs[k] == u;
        law_inputs_are_supplied(p, prior, i, k);
    }
}

/// Only what a node that runs again needs is taken up from storage, and only where the
/// node that stored it is durable, succeeded and does not run again; it is taken up under
/// the reference that the success recorded.
pub proof fn law_only_what_is_needed_is_taken_up(p: PipelineView, prior: PriorRunView, u: int)
    requires
        p.wf(),
        0 <= u < p.nodes.len(),
        PlanView::of(p, prior).rehydrate.dom().contains(p.nodes[u].name),
    ensures
        ({
            let plan = PlanView::of(p, prior);
            let name = p.nodes[u].name;
            &&& has_stored(p, prior, u)
            &&& plan.rehydrate[name] == prior.nodes[name].durable_reference->0
            &&& !plan.must_run.contains(name)
            &&& plan.satisfied_from_prior.dom().contains(name)
            &&& exists|i: int|
                0 <= i < p.nodes.len() && plan.must_run.contains((#[trigger] p.nodes[i]).name) && takes_from(p, i, u)
        }),
{
    let done = plan::resolved(p, prior);
    law_rehydrated_are_stored(p, prior, u);
    law_only_a_recorded_success_stands(p, prior, u);
    let k = choose|k: int| 0 <= k < done.probed.len() && done.probed[k] == u;
    law_only_needed_outputs_are_asked_for(p, prior, k);
    law_must_run_is_closed(p, prior);
    let c = choose|c: int| 0 <= c < done.must.len() && done.must[c] && #[trigger] graph::data_inputs(p, c).contains(u);
    lemma_takes_from(p, c, u);
    lemma_mark_of(p, done.must, c);
    assert(takes_from(p, c, u) && PlanView::of(p, prior).must_run.contains(p.nodes[c].name));
}

/// Whether a set of nodes holds the seed and everything that running again spreads to.
pub open spec fn spread_over(p: PipelineView, prior: PriorRunView, all: Set<int>) -> bool {
    &&& forall|i: int|
        0 <= i < p.nodes.len() && (!recorded_success(prior, p.nodes[i].name) || torn_down(p, prior, i))
            ==> #[trigger] all.contains(i)
    &&& forall|i: int, u: int|
        #![trigger all.contains(i), all.contains(u)]
        0 <= i < p.nodes.len() && 0 <= u < p.nodes.len() && (takes_from(p, i, u) || ordered_after(p, i, u))
            && all.contains(u) ==> all.contains(i)
    &&& forall|i: int, u: int|
        #![trigger all.contains(i), all.contains(u)]
        0 <= i < p.nodes.len() && 0 <= u < p.nodes.len() && takes_from(p, i, u) && all.contains(i) && !has_stored(
            p,
            prior,
            u,
        ) ==> all.contains(u)
}

/// Nothing runs again that need not: every set of nodes that holds the seed and what it
/// spreads to holds all that run again.
pub proof fn law_nothing_runs_without_need(p: PipelineView, prior: PriorRunView, all: Set<int>, i: int)
    requires
        p.wf(),
        spread_over(p, prior, all),
        0 <= i < p.nodes.len(),
        PlanView::of(p, prior).must_run.contains(p.nodes[i].name),
    ensures
        all.contains(i),
{
    let n = p.nodes.len();
    let marks = Seq::new(n, |k: int| all.contains(k));
    assert forall|k: int| 0 <= k < n && plan::in_seed(p, prior, k) implies #[trigger] marks[k] by {
        lemma_torn_down(p, prior, k);
        assert(all.contains(k));
    }
    assert forall|k: int| 0 <= k < n && plan::any_marked(marks, #[trigger] graph::upstreams(p, k)) implies marks[k] by {
        let ups = graph::upstreams(p, k);
        graph::lemma_upstreams_bounds(p, k);
        let m = choose|m: int| 0 <= m < ups.len() && marks[#[trigger] ups[m]];
        let u = ups[m];
        assert(ups.contains(u));
        lemma_takes_from(p, k, u);
        assert(all.contains(u) && (all.contains(k) || !all.contains(k)));
    }
    assert forall|k: int, m: int|
        #![trigger graph::data_inputs(p, k)[m]]
        0 <= k < n && marks[k] && 0 <= m < graph::data_inputs(p, k).len() && plan::reference(
            p,
            prior,
            graph::data_inputs(p, k)[m],
        ) is None implies marks[graph::data_inputs(p, k)[m]] by {
        let inputs = graph::data_inputs(p, k);
        let u = inputs[m];
        graph::lemma_upstreams_bounds(p, k);
        assert(inputs.contains(u));
        lemma_takes_from(p, k, u);
        assert(all.contains(k) && (all.contains(u) || !all.contains(u)));
    }
    law_must_run_is_least(p, prior, marks);
    let done = plan::resolved(p, prior);
    lemma_mark_of(p, done.must, i);
    law_must_run_is_closed(p, prior);
    assert(marks[i]);
}

/// A run is resumed only by the version of the tool that recorded it, over the same
/// structure, by the same algorithm; each mismatch is refused as what it is, in that order
/// of precedence: algorithm, tool, structure.
pub proof fn law_only_a_match_is_resumed(p: PipelineView, prior: PriorRunView, tool: Seq<char>, answers: Answers)
    ensures
        ({
            let structure = crate::assembly::encoding::fingerprint(p).structural;
            let outcome = plan::planned(p, prior, tool, answers);
            &&& outcome is Ok ==> prior.algorithm_version == 1 && prior.tool_version == tool
                && prior.structural_fingerprint == structure
            &&& prior.algorithm_version != 1 ==> outcome == Err::<PlanView, RefusalView>(
                RefusalView::AlgorithmVersionMismatch { prior: prior.algorithm_version, current: 1 },
            )
            &&& prior.algorithm_version == 1 && prior.tool_version != tool ==> outcome == Err::<PlanView, RefusalView>(
                RefusalView::ToolVersionMismatch { prior: prior.tool_version, current: tool },
            )
            &&& prior.algorithm_version == 1 && prior.tool_version == tool && prior.structural_fingerprint != structure
                ==> outcome == Err::<PlanView, RefusalView>(
                RefusalView::StructuralMismatch { prior: prior.structural_fingerprint, current: structure },
            )
        }),
{
}

/// A plan that is made takes nothing up that storage says is gone, and carries what
/// differs in policy, if anything does. One that is refused for a stored output names a
/// durable node whose success recorded the reference, and of which storage says that it is
/// gone.
pub proof fn law_a_gone_output_refuses_the_plan(
    p: PipelineView,
    prior: PriorRunView,
    tool: Seq<char>,
    answers: Answers,
    u: int,
)
    requires
        p.wf(),
        0 <= u < p.nodes.len(),
    ensures
        ({
            let name = p.nodes[u].name;
            let policy = crate::assembly::encoding::fingerprint(p).policy;
            match plan::planned(p, prior, tool, answers) {
                Ok(plan) => {
                    &&& plan.rehydrate.dom().contains(name) ==> answers(name, prior.nodes[name].durable_reference->0)
                        != ReferenceExistence::Absent
                    &&& prior.policy_hash == policy ==> plan.policy_diff is None
                    &&& prior.policy_hash != policy ==> plan.policy_diff == Some(
                        PolicyDiff { prior: prior.policy_hash, current: policy },
                    )
                },
                Err(RefusalView::DanglingReference { node, reference }) => exists|j: int|
                    {
                        &&& 0 <= j < p.nodes.len()
                        &&& (#[trigger] p.nodes[j]).name == node
                        &&& has_stored(p, prior, j)
                        &&& prior.nodes[node].durable_reference == Some(reference)
                        &&& answers(node, reference) == ReferenceExistence::Absent
                    },
                Err(_) => true,
            }
        }),
{
    let probed = plan::resolved(p, prior).probed;
    match plan::planned(p, prior, tool, answers) {
        Ok(plan) => {
            if plan.rehydrate.dom().contains(p.nodes[u].name) {
                law_only_what_is_needed_is_taken_up(p, prior, u);
                law_nothing_gone_is_rehydrated(p, prior, tool, answers, u);
            }
        },
        Err(RefusalView::DanglingReference { node, reference }) => {
            let k = choose|k: int| plan::first_absent(p, prior, answers, probed, k);
            law_only_needed_outputs_are_asked_for(p, prior, k);
            let j = probed[k];
            let done = plan::resolved(p, prior);
            let c = choose|c: int|
                0 <= c < done.must.len() && done.must[c] && #[trigger] graph::data_inputs(p, c).contains(j);
            law_must_run_is_closed(p, prior);
            graph::lemma_upstreams_bounds(p, c);
            let inputs = graph::data_inputs(p, c);
            let m = choose|m: int| 0 <= m < inputs.len() && inputs[m] == j;
            assert(0 <= inputs[m] < p.nodes.len());
            assert(p.nodes[j].name == node);
        },
        _ => {},
    }
}

/// Where the prior run matches, the plan is refused just where some stored output that is
/// asked for is gone; so storage that has everything is never a reason to refuse.
pub proof fn law_nothing_but_a_gone_output_refuses(
    p: PipelineView,
    prior: PriorRunView,
    tool: Seq<char>,
    answers: Answers,
)
    requires
        prior.algorithm_version == 1,
        prior.tool_version == tool,
        prior.structural_fingerprint == crate::assembly::encoding::fingerprint(p).structural,
        forall|node: Seq<char>, reference: Seq<char>| #[trigger]
            answers(node, reference) != ReferenceExistence::Absent,
    ensures
        plan::planned(p, prior, tool, answers) == Ok::<PlanView, RefusalView>(PlanView::of(p, prior)),
{
}

} // verus!
