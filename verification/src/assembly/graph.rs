//! What assembly precomputes from the shape of a pipeline: who depends on whom,
//! how many consumers and dependencies each node has, and an execution order.

use crate::binding::{DataEdge, OrderingEdge};
use crate::flow::{self, Pipeline, PipelineView};
use crate::handle::NodeId;
use vstd::prelude::*;

verus! {

/// The places of the nodes that the identities resolve to, in order; identities
/// that no node has are passed over.
pub open spec fn resolved(p: PipelineView, ids: Seq<NodeId>) -> Seq<int>
    decreases ids.len(),
{
    if ids.len() == 0 {
        Seq::empty()
    } else {
        let rest = resolved(p, ids.drop_last());
        if p.has_node(ids.last()) {
            rest.push(p.index_of(ids.last()))
        } else {
            rest
        }
    }
}

/// The upstream identities of data edges.
pub open spec fn upstream_ids(edges: Seq<DataEdge>) -> Seq<NodeId> {
    edges.map_values(|e: DataEdge| e.upstream)
}

/// The upstream identities of ordering edges.
pub open spec fn ordering_ids(edges: Seq<OrderingEdge>) -> Seq<NodeId> {
    edges.map_values(|e: OrderingEdge| e.upstream)
}

/// The producers of node `i`'s data inputs, in input order.
pub open spec fn data_inputs(p: PipelineView, i: int) -> Seq<int> {
    resolved(p, upstream_ids(p.nodes[i].edges))
}

/// The nodes that node `i` runs after: the producers of its data inputs, and those
/// it is ordered after.
pub open spec fn upstreams(p: PipelineView, i: int) -> Seq<int> {
    data_inputs(p, i) + resolved(p, ordering_ids(p.nodes[i].declaration.ordering))
}

/// Resolved places are places of nodes.
pub proof fn lemma_resolved_bounds(p: PipelineView, ids: Seq<NodeId>)
    ensures
        forall|k: int|
            0 <= k < resolved(p, ids).len() ==> 0 <= #[trigger] resolved(p, ids)[k] < p.nodes.len(),
    decreases ids.len(),
{
    if ids.len() > 0 {
        lemma_resolved_bounds(p, ids.drop_last());
        if p.has_node(ids.last()) {
            flow::lemma_resolves(p, ids.last());
        }
        let rest = resolved(p, ids.drop_last());
        assert forall|k: int| 0 <= k < resolved(p, ids).len() implies 0 <= #[trigger] resolved(p, ids)[k]
            < p.nodes.len() by {
            if k < rest.len() {
                assert(resolved(p, ids)[k] == rest[k]);
            }
        }
    }
}

/// Which places identities resolve to.
pub proof fn lemma_resolved_contains(p: PipelineView, ids: Seq<NodeId>, u: int)
    ensures
        resolved(p, ids).contains(u) <==> exists|k: int|
            0 <= k < ids.len() && p.has_node(#[trigger] ids[k]) && p.index_of(ids[k]) == u,
    decreases ids.len(),
{
    if ids.len() > 0 {
        let front = ids.drop_last();
        let rest = resolved(p, front);
        lemma_resolved_contains(p, front, u);
        if p.has_node(ids.last()) {
            assert(resolved(p, ids) =~= rest.push(p.index_of(ids.last())));
            if rest.contains(u) {
                let k = choose|k: int| 0 <= k < rest.len() && rest[k] == u;
                assert(resolved(p, ids)[k] == u);
            }
            if p.index_of(ids.last()) == u {
                assert(resolved(p, ids)[rest.len() as int] == u);
                assert(ids[ids.len() - 1] == ids.last());
            }
        }
        if resolved(p, ids).contains(u) && !rest.contains(u) {
            assert(ids[ids.len() - 1] == ids.last());
        }
        if exists|k: int| 0 <= k < front.len() && p.has_node(#[trigger] front[k]) && p.index_of(front[k]) == u {
            let k = choose|k: int|
                0 <= k < front.len() && p.has_node(#[trigger] front[k]) && p.index_of(front[k]) == u;
            assert(ids[k] == front[k]);
        }
        if exists|k: int| 0 <= k < ids.len() && p.has_node(#[trigger] ids[k]) && p.index_of(ids[k]) == u {
            let k = choose|k: int| 0 <= k < ids.len() && p.has_node(#[trigger] ids[k]) && p.index_of(ids[k]) == u;
            if k < front.len() {
                assert(front[k] == ids[k]);
            }
        }
    }
}

/// Upstream places are places of nodes.
pub proof fn lemma_upstreams_bounds(p: PipelineView, i: int)
    ensures
        forall|k: int| 0 <= k < upstreams(p, i).len() ==> 0 <= #[trigger] upstreams(p, i)[k] < p.nodes.len(),
        forall|k: int| 0 <= k < data_inputs(p, i).len() ==> 0 <= #[trigger] data_inputs(p, i)[k] < p.nodes.len(),
{
    lemma_resolved_bounds(p, upstream_ids(p.nodes[i].edges));
    lemma_resolved_bounds(p, ordering_ids(p.nodes[i].declaration.ordering));
}

/// Places as numbers of the machine.
pub open spec fn places(v: Seq<usize>) -> Seq<int> {
    v.map_values(|x: usize| x as int)
}

/// Finds the producers of node `i`'s data inputs.
pub fn find_data_inputs(pipeline: &Pipeline, i: usize) -> (r: Vec<usize>)
    requires
        i < pipeline@.nodes.len(),
    ensures
        places(r@) == data_inputs(pipeline@, i as int),
        forall|k: int| 0 <= k < r.len() ==> #[trigger] r@[k] < pipeline@.nodes.len(),
{
    let edges = pipeline.node_at(i).data_edges();
    let ghost ids = upstream_ids(edges@);
    let mut out: Vec<usize> = Vec::new();
    let mut k: usize = 0;
    assert(places(out@) =~= resolved(pipeline@, ids.take(0)));
    while k < edges.len()
        invariant
            k <= edges.len(),
            ids == upstream_ids(edges@),
            places(out@) == resolved(pipeline@, ids.take(k as int)),
        decreases edges.len() - k,
    {
        proof {
            assert(ids.take(k + 1).drop_last() =~= ids.take(k as int));
            assert(ids.take(k + 1).last() == edges@[k as int].upstream);
        }
        let ghost before = out@;
        match pipeline.index_of(edges[k].upstream()) {
            Some(u) => {
                out.push(u);
                assert(places(out@) =~= places(before).push(u as int));
            },
            None => {},
        }
        k = k + 1;
    }
    proof {
        assert(ids.take(k as int) =~= ids);
        lemma_resolved_bounds(pipeline@, ids);
        assert forall|j: int| 0 <= j < out.len() implies #[trigger] out@[j] < pipeline@.nodes.len() by {
            assert(places(out@)[j] == out@[j]);
        }
    }
    out
}

/// Finds the nodes that node `i` runs after.
pub fn find_upstreams(pipeline: &Pipeline, i: usize) -> (r: Vec<usize>)
    requires
        i < pipeline@.nodes.len(),
    ensures
        places(r@) == upstreams(pipeline@, i as int),
        forall|k: int| 0 <= k < r.len() ==> #[trigger] r@[k] < pipeline@.nodes.len(),
{
    let mut out = find_data_inputs(pipeline, i);
    let edges = pipeline.node_at(i).ordering_edges();
    let ghost data = data_inputs(pipeline@, i as int);
    let ghost ids = ordering_ids(edges@);
    let mut k: usize = 0;
    assert(places(out@) =~= data + resolved(pipeline@, ids.take(0)));
    while k < edges.len()
        invariant
            k <= edges.len(),
            ids == ordering_ids(edges@),
            places(out@) == data + resolved(pipeline@, ids.take(k as int)),
        decreases edges.len() - k,
    {
        proof {
            assert(ids.take(k + 1).drop_last() =~= ids.take(k as int));
            assert(ids.take(k + 1).last() == edges@[k as int].upstream);
        }
        let ghost before = out@;
        match pipeline.index_of(edges[k].upstream()) {
            Some(u) => {
                out.push(u);
                assert(places(out@) =~= places(before).push(u as int));
                assert(places(out@) =~= data + resolved(pipeline@, ids.take(k + 1)));
            },
            None => {},
        }
        k = k + 1;
    }
    proof {
        assert(ids.take(k as int) =~= ids);
        lemma_upstreams_bounds(pipeline@, i as int);
        assert forall|j: int| 0 <= j < out.len() implies #[trigger] out@[j] < pipeline@.nodes.len() by {
            assert(upstreams(pipeline@, i as int)[j] == out@[j]);
        }
    }
    out
}

/// How many of the edges have node `i` as their producer.
pub open spec fn edges_from(p: PipelineView, edges: Seq<DataEdge>, i: int) -> nat
    decreases edges.len(),
{
    if edges.len() == 0 {
        0
    } else {
        edges_from(p, edges.drop_last(), i) + (if p.has_node(edges.last().upstream) && p.index_of(
            edges.last().upstream,
        ) == i {
            1nat
        } else {
            0nat
        })
    }
}

/// How many data edges of the first `k` nodes have node `i` as their producer.
pub open spec fn consumers_among(p: PipelineView, k: int, i: int) -> nat
    decreases k,
{
    if k <= 0 {
        0
    } else {
        consumers_among(p, k - 1, i) + edges_from(p, p.nodes[k - 1].edges, i)
    }
}

/// How many data edges have node `i` as their producer.
pub open spec fn consumer_count(p: PipelineView, i: int) -> nat {
    consumers_among(p, p.nodes.len() as int, i)
}

/// A count as far as 32 bits hold it.
pub open spec fn capped(n: nat) -> u32 {
    if n <= u32::MAX {
        n as u32
    } else {
        u32::MAX
    }
}

/// Counts the consumers of every node: the data edges that have it as their
/// producer.
pub fn precompute_consumer_counts(pipeline: &Pipeline) -> (r: Vec<u32>)
    ensures
        r.len() == pipeline@.nodes.len(),
        forall|i: int| 0 <= i < r.len() ==> #[trigger] r@[i] == capped(consumer_count(pipeline@, i)),
{
    let n: usize = pipeline.len();
    let mut counts: Vec<u32> = Vec::new();
    while counts.len() < n
        invariant
            counts.len() <= n,
            n == pipeline@.nodes.len(),
            forall|i: int| 0 <= i < counts.len() ==> #[trigger] counts@[i] == 0,
        decreases n - counts.len(),
    {
        counts.push(0);
    }
    let mut k: usize = 0;
    while k < n
        invariant
            k <= n,
            n == pipeline@.nodes.len(),
            counts.len() == n,
            forall|i: int|
                0 <= i < n ==> #[trigger] counts@[i] == capped(consumers_among(pipeline@, k as int, i)),
        decreases n - k,
    {
        let edges = pipeline.node_at(k).data_edges();
        let mut j: usize = 0;
        proof {
            assert(edges@.take(0) =~= Seq::<DataEdge>::empty());
        }
        while j < edges.len()
            invariant
                j <= edges.len(),
                k < n,
                n == pipeline@.nodes.len(),
                counts.len() == n,
                edges@ == pipeline@.nodes[k as int].edges,
                forall|i: int|
                    0 <= i < n ==> #[trigger] counts@[i] == capped(
                        consumers_among(pipeline@, k as int, i) + edges_from(pipeline@, edges@.take(j as int), i),
                    ),
            decreases edges.len() - j,
        {
            proof {
                assert(edges@.take(j + 1).drop_last() =~= edges@.take(j as int));
                assert(edges@.take(j + 1).last() == edges@[j as int]);
            }
            match pipeline.index_of(edges[j].upstream()) {
                Some(u) => {
                    let c: u32 = counts[u];
                    if c < u32::MAX {
                        counts.set(u, c + 1);
                    }
                },
                None => {},
            }
            j = j + 1;
        }
        proof {
            assert(edges@.take(j as int) =~= edges@);
        }
        k = k + 1;
    }
    counts
}

/// The distinct upstream identities of data edges that some node has.
pub open spec fn present_upstreams(p: PipelineView, edges: Seq<DataEdge>) -> Set<NodeId>
    decreases edges.len(),
{
    if edges.len() == 0 {
        Set::empty()
    } else {
        let rest = present_upstreams(p, edges.drop_last());
        if p.has_node(edges.last().upstream) {
            rest.insert(edges.last().upstream)
        } else {
            rest
        }
    }
}

/// Which identities are present upstreams.
pub proof fn lemma_present_upstreams(p: PipelineView, edges: Seq<DataEdge>, id: NodeId)
    ensures
        present_upstreams(p, edges).finite(),
        present_upstreams(p, edges).len() <= edges.len(),
        present_upstreams(p, edges).contains(id) <==> p.has_node(id) && exists|k: int|
            0 <= k < edges.len() && (#[trigger] edges[k]).upstream == id,
    decreases edges.len(),
{
    if edges.len() > 0 {
        let front = edges.drop_last();
        lemma_present_upstreams(p, front, id);
        if exists|k: int| 0 <= k < front.len() && (#[trigger] front[k]).upstream == id {
            let k = choose|k: int| 0 <= k < front.len() && (#[trigger] front[k]).upstream == id;
            assert(edges[k].upstream == id);
        }
        if exists|k: int| 0 <= k < edges.len() && (#[trigger] edges[k]).upstream == id {
            let k = choose|k: int| 0 <= k < edges.len() && (#[trigger] edges[k]).upstream == id;
            if k < front.len() {
                assert(front[k].upstream == id);
            }
        }
        if edges.last().upstream == id {
            assert(edges[edges.len() - 1].upstream == id);
        }
    }
}

/// How many distinct nodes node `i` takes data from.
pub open spec fn remaining_deps(p: PipelineView, i: int) -> nat {
    present_upstreams(p, p.nodes[i].edges).len()
}

/// Counts, for every node, the distinct nodes that it takes data from.
pub fn precompute_remaining_deps(pipeline: &Pipeline) -> (r: Vec<u32>)
    ensures
        r.len() == pipeline@.nodes.len(),
        forall|i: int| 0 <= i < r.len() ==> #[trigger] r@[i] == capped(remaining_deps(pipeline@, i)),
{
    let mut out: Vec<u32> = Vec::new();
    let n: usize = pipeline.len();
    let mut i: usize = 0;
    while i < n
        invariant
            i <= n,
            n == pipeline@.nodes.len(),
            out.len() == i,
            forall|k: int| 0 <= k < i ==> #[trigger] out@[k] == capped(remaining_deps(pipeline@, k)),
        decreases n - i,
    {
        let edges = pipeline.node_at(i).data_edges();
        let mut count: u32 = 0;
        let mut k: usize = 0;
        proof {
            assert(edges@.take(0) =~= Seq::<DataEdge>::empty());
        }
        while k < edges.len()
            invariant
                k <= edges.len(),
                count == capped(present_upstreams(pipeline@, edges@.take(k as int)).len()),
            decreases edges.len() - k,
        {
            let ghost front = edges@.take(k as int);
            let id = edges[k].upstream();
            let mut seen = false;
            let mut j: usize = 0;
            while j < k
                invariant
                    j <= k,
                    k < edges.len(),
                    seen == exists|m: int| 0 <= m < j && (#[trigger] edges@[m]).upstream == id,
                decreases k - j,
            {
                if edges[j].upstream() == id {
                    seen = true;
                    assert(edges@[j as int].upstream == id);
                }
                j = j + 1;
            }
            proof {
                assert(edges@.take(k + 1).drop_last() =~= front);
                assert(edges@.take(k + 1).last() == edges@[k as int]);
                lemma_present_upstreams(pipeline@, front, id);
                if seen {
                    let m = choose|m: int| 0 <= m < k && (#[trigger] edges@[m]).upstream == id;
                    assert(front[m].upstream == id);
                }
                if exists|m: int| 0 <= m < front.len() && (#[trigger] front[m]).upstream == id {
                    let m = choose|m: int| 0 <= m < front.len() && (#[trigger] front[m]).upstream == id;
                    assert(edges@[m].upstream == id);
                }
            }
            if !seen && pipeline.node(id).is_some() {
                if count < u32::MAX {
                    count = count + 1;
                }
            } else {
                proof {
                    if pipeline@.has_node(id) {
                        assert(present_upstreams(pipeline@, front).insert(id) =~= present_upstreams(
                            pipeline@,
                            front,
                        ));
                    }
                }
            }
            k = k + 1;
        }
        proof {
            assert(edges@.take(k as int) =~= edges@);
        }
        out.push(count);
        i = i + 1;
    }
    out
}

/// Whether node `i` can run next: it has not run, and everything it runs after has.
pub open spec fn can_follow(p: PipelineView, done: Seq<int>, i: int) -> bool {
    &&& 0 <= i < p.nodes.len()
    &&& !done.contains(i)
    &&& forall|k: int| 0 <= k < upstreams(p, i).len() ==> done.contains(#[trigger] upstreams(p, i)[k])
}

/// Whether node `i` is the first in name order that can run next.
pub open spec fn comes_next(p: PipelineView, done: Seq<int>, i: int) -> bool {
    &&& can_follow(p, done, i)
    &&& forall|j: int| 0 <= j < i ==> !#[trigger] can_follow(p, done, j)
}

/// The order in which the remaining nodes run once `done` have: again and again the
/// first in name order that can, until none can.
pub open spec fn order_from(p: PipelineView, done: Seq<int>) -> Seq<int>
    decreases p.nodes.len() - done.len(),
{
    if done.len() < p.nodes.len() && exists|i: int| comes_next(p, done, i) {
        order_from(p, done.push(choose|i: int| comes_next(p, done, i)))
    } else {
        done
    }
}

/// The execution order, as places in name order.
pub open spec fn execution_places(p: PipelineView) -> Seq<int> {
    order_from(p, Seq::empty())
}

/// The execution order.
pub open spec fn execution_order(p: PipelineView) -> Seq<NodeId> {
    execution_places(p).map_values(|i: int| p.nodes[i].id)
}

/// Whether a place comes among the first `k` of a sequence.
pub open spec fn comes_before(done: Seq<int>, k: int, place: int) -> bool {
    exists|m: int| 0 <= m < k && #[trigger] done[m] == place
}

/// Whether a sequence of places is a run in progress: every place is a node, none
/// comes twice, and each comes after everything it runs after.
pub open spec fn is_run(p: PipelineView, done: Seq<int>) -> bool {
    &&& done.no_duplicates()
    &&& forall|k: int| 0 <= k < done.len() ==> 0 <= #[trigger] done[k] < p.nodes.len()
    &&& forall|k: int, u: int|
        #![trigger done[k], upstreams(p, done[k])[u]]
        0 <= k < done.len() && 0 <= u < upstreams(p, done[k]).len() ==> comes_before(done, k, upstreams(p, done[k])[u])
}

proof fn lemma_run_extends(p: PipelineView, done: Seq<int>, i: int)
    requires
        is_run(p, done),
        can_follow(p, done, i),
    ensures
        is_run(p, done.push(i)),
{
    let next = done.push(i);
    assert forall|k: int, u: int|
        #![trigger next[k], upstreams(p, next[k])[u]]
        0 <= k < next.len() && 0 <= u < upstreams(p, next[k]).len() implies comes_before(
        next,
        k,
        upstreams(p, next[k])[u],
    ) by {
        let place = upstreams(p, next[k])[u];
        if k < done.len() {
            assert(next[k] == done[k]);
            assert(comes_before(done, k, upstreams(p, done[k])[u]));
            let m = choose|m: int| 0 <= m < k && #[trigger] done[m] == place;
            assert(next[m] == place);
        } else {
            assert(done.contains(place));
            let m = choose|m: int| 0 <= m < done.len() && done[m] == place;
            assert(next[m] == place);
        }
    }
    assert forall|k: int| 0 <= k < next.len() implies 0 <= #[trigger] next[k] < p.nodes.len() by {
        if k < done.len() {
            assert(next[k] == done[k]);
        }
    }
    assert forall|a: int, b: int| 0 <= a < next.len() && 0 <= b < next.len() && a != b implies next[a] != next[b] by {
        if a < done.len() && b < done.len() {
            assert(done[a] != done[b]);
        } else if a < done.len() {
            assert(done.contains(done[a]));
        } else {
            assert(done.contains(done[b]));
        }
    }
}

proof fn lemma_first_that_can(p: PipelineView, done: Seq<int>, i: int)
    requires
        can_follow(p, done, i),
    ensures
        exists|k: int| comes_next(p, done, k),
    decreases i,
{
    if exists|j: int| 0 <= j < i && #[trigger] can_follow(p, done, j) {
        let j = choose|j: int| 0 <= j < i && #[trigger] can_follow(p, done, j);
        lemma_first_that_can(p, done, j);
    } else {
        assert(comes_next(p, done, i));
    }
}

proof fn lemma_comes_next_unique(p: PipelineView, done: Seq<int>, i: int, j: int)
    requires
        comes_next(p, done, i),
        comes_next(p, done, j),
    ensures
        i == j,
{
}

/// A run without repetition has at most as many steps as there are nodes.
proof fn lemma_run_length(p: PipelineView, done: Seq<int>)
    requires
        is_run(p, done),
    ensures
        done.len() <= p.nodes.len(),
        done.len() == p.nodes.len() ==> forall|i: int| 0 <= i < p.nodes.len() ==> done.contains(i),
{
    let all = Set::<int>::new(|i: int| 0 <= i < p.nodes.len());
    vstd::set_lib::lemma_int_range(0, p.nodes.len() as int);
    assert(all =~= vstd::set_lib::set_int_range(0, p.nodes.len() as int));
    done.unique_seq_to_set();
    assert(done.to_set().subset_of(all)) by {
        assert forall|x: int| done.to_set().contains(x) implies all.contains(x) by {
            let k = choose|k: int| 0 <= k < done.len() && done[k] == x;
            assert(0 <= done[k] < p.nodes.len());
        }
    }
    vstd::set_lib::lemma_len_subset(done.to_set(), all);
    if done.len() == p.nodes.len() {
        vstd::set_lib::lemma_subset_equality(done.to_set(), all);
        assert forall|i: int| 0 <= i < p.nodes.len() implies done.contains(i) by {
            assert(all.contains(i));
            assert(done.to_set().contains(i));
        }
    }
}

proof fn lemma_order_from(p: PipelineView, done: Seq<int>)
    requires
        is_run(p, done),
    ensures
        is_run(p, order_from(p, done)),
        forall|i: int| !#[trigger] can_follow(p, order_from(p, done), i),
    decreases p.nodes.len() - done.len(),
{
    lemma_run_length(p, done);
    if done.len() < p.nodes.len() && exists|i: int| comes_next(p, done, i) {
        let i = choose|i: int| comes_next(p, done, i);
        lemma_run_extends(p, done, i);
        lemma_order_from(p, done.push(i));
    } else {
        assert forall|i: int| !#[trigger] can_follow(p, done, i) by {
            if can_follow(p, done, i) {
                lemma_first_that_can(p, done, i);
            }
        }
    }
}

/// In the execution order no node comes twice, every node comes after everything it
/// runs after, and no node is left out that could still run.
pub proof fn law_execution_order_is_topological(p: PipelineView)
    ensures
        is_run(p, execution_places(p)),
        forall|i: int| !#[trigger] can_follow(p, execution_places(p), i),
{
    assert(is_run(p, Seq::<int>::empty()));
    lemma_order_from(p, Seq::empty());
}

/// Whether ranks rise along every dependency, which shows that there is no cycle.
pub open spec fn ranked(p: PipelineView, rank: spec_fn(int) -> nat) -> bool {
    forall|i: int, u: int|
        #![trigger upstreams(p, i)[u]]
        0 <= i < p.nodes.len() && 0 <= u < upstreams(p, i).len() ==> rank(upstreams(p, i)[u]) < rank(i)
}

/// A pipeline without a dependency cycle has every node in its execution order.
pub proof fn law_acyclic_order_is_complete(p: PipelineView, rank: spec_fn(int) -> nat)
    requires
        ranked(p, rank),
    ensures
        forall|i: int| 0 <= i < p.nodes.len() ==> #[trigger] execution_places(p).contains(i),
        execution_places(p).len() == p.nodes.len(),
{
    law_execution_order_is_topological(p);
    let order = execution_places(p);
    assert forall|i: int| 0 <= i < p.nodes.len() implies #[trigger] order.contains(i) by {
        lemma_complete_at(p, rank, i);
    }
    lemma_run_length(p, order);
    if order.len() < p.nodes.len() {
        let all = vstd::set_lib::set_int_range(0, p.nodes.len() as int);
        vstd::set_lib::lemma_int_range(0, p.nodes.len() as int);
        order.unique_seq_to_set();
        assert(all.subset_of(order.to_set())) by {
            assert forall|x: int| all.contains(x) implies order.to_set().contains(x) by {
                assert(order.contains(x));
            }
        }
        vstd::set_lib::lemma_len_subset(all, order.to_set());
    }
}

proof fn lemma_complete_at(p: PipelineView, rank: spec_fn(int) -> nat, i: int)
    requires
        ranked(p, rank),
        0 <= i < p.nodes.len(),
        forall|j: int| !#[trigger] can_follow(p, execution_places(p), j),
    ensures
        execution_places(p).contains(i),
    decreases rank(i),
{
    let order = execution_places(p);
    if !order.contains(i) {
        lemma_upstreams_bounds(p, i);
        assert forall|k: int| 0 <= k < upstreams(p, i).len() implies order.contains(#[trigger] upstreams(p, i)[k]) by {
            lemma_complete_at(p, rank, upstreams(p, i)[k]);
        }
        assert(can_follow(p, order, i));
    }
}

/// Finds the execution order: again and again the first node in name order that has
/// not run and whose upstreams have.
pub fn precompute_execution_order(pipeline: &Pipeline) -> (r: Vec<NodeId>)
    ensures
        r@ == execution_order(pipeline@),
{
    let n: usize = pipeline.len();
    let ghost p = pipeline@;
    let mut ups: Vec<Vec<usize>> = Vec::new();
    while ups.len() < n
        invariant
            ups.len() <= n,
            n == p.nodes.len(),
            p == pipeline@,
            forall|i: int| 0 <= i < ups.len() ==> places((#[trigger] ups@[i])@) == upstreams(p, i),
            forall|i: int, k: int|
                0 <= i < ups.len() && 0 <= k < ups@[i].len() ==> #[trigger] ups@[i]@[k] < n,
        decreases n - ups.len(),
    {
        let found = find_upstreams(pipeline, ups.len());
        ups.push(found);
    }
    let mut ran: Vec<bool> = Vec::new();
    while ran.len() < n
        invariant
            ran.len() <= n,
            forall|i: int| 0 <= i < ran.len() ==> !#[trigger] ran@[i],
        decreases n - ran.len(),
    {
        ran.push(false);
    }
    let mut order: Vec<NodeId> = Vec::new();
    let ghost mut done: Seq<int> = Seq::empty();
    proof {
        assert(order@ =~= done.map_values(|i: int| p.nodes[i].id));
        assert(is_run(p, done));
    }
    let mut stuck = false;
    while !stuck
        invariant
            n == p.nodes.len(),
            p == pipeline@,
            ups.len() == n,
            ran.len() == n,
            forall|i: int| 0 <= i < n ==> places((#[trigger] ups@[i])@) == upstreams(p, i),
            forall|i: int, k: int| 0 <= i < n && 0 <= k < ups@[i].len() ==> #[trigger] ups@[i]@[k] < n,
            forall|i: int| 0 <= i < n ==> #[trigger] ran@[i] == done.contains(i),
            is_run(p, done),
            order@ == done.map_values(|i: int| p.nodes[i].id),
            order_from(p, done) == execution_places(p),
            done.len() <= n,
            stuck ==> done == execution_places(p),
        decreases n - done.len() + (if stuck { 0int } else { 1int }),
    {
        let next = first_that_can(n, &ups, &ran, Ghost(p), Ghost(done));
        match next {
            Some(i) => {
                proof {
                    lemma_run_extends(p, done, i as int);
                    lemma_run_length(p, done.push(i as int));
                    let c = choose|c: int| comes_next(p, done, c);
                    lemma_comes_next_unique(p, done, c, i as int);
                }
                let id = pipeline.node_at(i).id();
                order.push(id);
                ran.set(i, true);
                proof {
                    let before = done;
                    done = done.push(i as int);
                    assert(order@ =~= done.map_values(|i: int| p.nodes[i].id));
                    assert forall|j: int| 0 <= j < n implies #[trigger] ran@[j] == done.contains(j) by {
                        if before.contains(j) {
                            let m = choose|m: int| 0 <= m < before.len() && before[m] == j;
                            assert(done[m] == j);
                        }
                        if j == i {
                            assert(done[before.len() as int] == j);
                        }
                    }
                }
            },
            None => {
                stuck = true;
            },
        }
    }
    order
}

fn first_that_can(
    n: usize,
    ups: &Vec<Vec<usize>>,
    ran: &Vec<bool>,
    Ghost(p): Ghost<PipelineView>,
    Ghost(done): Ghost<Seq<int>>,
) -> (r: Option<usize>)
    requires
        n == p.nodes.len(),
        ups.len() == n,
        ran.len() == n,
        forall|i: int| 0 <= i < n ==> places((#[trigger] ups@[i])@) == upstreams(p, i),
        forall|i: int, k: int| 0 <= i < n && 0 <= k < ups@[i].len() ==> #[trigger] ups@[i]@[k] < n,
        forall|i: int| 0 <= i < n ==> #[trigger] ran@[i] == done.contains(i),
    ensures
        match r {
            Some(i) => comes_next(p, done, i as int),
            None => forall|i: int| !comes_next(p, done, i),
        },
{
    let mut i: usize = 0;
    while i < n
        invariant
            i <= n,
            n == p.nodes.len(),
            ups.len() == n,
            ran.len() == n,
            forall|i: int| 0 <= i < n ==> places((#[trigger] ups@[i])@) == upstreams(p, i),
            forall|i: int, k: int| 0 <= i < n && 0 <= k < ups@[i].len() ==> #[trigger] ups@[i]@[k] < n,
            forall|i: int| 0 <= i < n ==> #[trigger] ran@[i] == done.contains(i),
            forall|j: int| 0 <= j < i ==> !#[trigger] can_follow(p, done, j),
        decreases n - i,
    {
        if !ran[i] {
            let mine: &Vec<usize> = &ups[i];
            let mut ok = true;
            let mut k: usize = 0;
            while k < mine.len()
                invariant
                    k <= mine.len(),
                    i < n,
                    n == p.nodes.len(),
                    ran.len() == n,
                    places(mine@) == upstreams(p, i as int),
                    forall|j: int| 0 <= j < mine.len() ==> #[trigger] mine@[j] < n,
                    forall|i: int| 0 <= i < n ==> #[trigger] ran@[i] == done.contains(i),
                    ok == forall|j: int| 0 <= j < k ==> done.contains(#[trigger] upstreams(p, i as int)[j]),
                decreases mine.len() - k,
            {
                assert(upstreams(p, i as int)[k as int] == mine@[k as int]);
                if !ran[mine[k]] {
                    ok = false;
                }
                k = k + 1;
            }
            assert(upstreams(p, i as int).len() == mine.len());
            if ok {
                assert(can_follow(p, done, i as int));
                return Some(i);
            }
        }
        i = i + 1;
    }
    None
}

} // verus!
