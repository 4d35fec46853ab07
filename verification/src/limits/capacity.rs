//! Refusing, before anything runs, the nodes that no amount of free capacity can admit.

use crate::admission::{Pool, PoolCapacities, PoolCost};
use crate::context::BootstrapOutcome;
use crate::names::NameMap;
use crate::text;
use vstd::prelude::*;

verus! {

/// The contents of a [`CapacityError`].
#[verifier::ext_equal]
pub struct ErrorView {
    pub node: Seq<char>,
    pub pool: Pool,
    pub declared_cost: u64,
    pub capacity: u64,
}

/// A node that declares more of a pool than the pool has.
#[derive(Debug, Clone, PartialEq, Eq)]
pub struct CapacityError {
    node: String,
    pool: Pool,
    declared_cost: u64,
    capacity: u64,
}

impl View for CapacityError {
    type V = ErrorView;

    closed spec fn view(&self) -> ErrorView {
        ErrorView {
            node: self.node@,
            pool: self.pool,
            declared_cost: self.declared_cost,
            capacity: self.capacity,
        }
    }
}

impl ErrorView {
    /// The error in words.
    pub open spec fn rendered(self) -> Seq<char> {
        "node `"@ + self.node + "` declares "@ + text::decimal(self.declared_cost as nat) + " "@ + self.pool.unit_spec()
            + " for the "@ + self.pool.label_spec() + " pool, which exceeds its total capacity "@ + text::decimal(
            self.capacity as nat,
        ) + " "@ + self.pool.unit_spec()
    }
}

impl CapacityError {
    /// The node.
    #[must_use]
    pub fn node(&self) -> (r: &str)
        ensures
            r@ == self@.node,
    {
        self.node.as_str()
    }

    /// The pool.
    #[must_use]
    pub fn pool(&self) -> (r: Pool)
        ensures
            r == self@.pool,
    {
        self.pool
    }

    /// What the node declares.
    #[must_use]
    pub fn declared_cost(&self) -> (r: u64)
        ensures
            r == self@.declared_cost,
    {
        self.declared_cost
    }

    /// What the pool has.
    #[must_use]
    pub fn capacity(&self) -> (r: u64)
        ensures
            r == self@.capacity,
    {
        self.capacity
    }

    /// The error in words.
    #[must_use]
    pub fn render(&self) -> (r: String)
        ensures
            r@ == self@.rendered(),
    {
        let mut s = String::from_str("node `");
        s.append(self.node.as_str());
        s.append("` declares ");
        s.append(text::decimal_text(self.declared_cost as u128).as_str());
        s.append(" ");
        s.append(self.pool.unit());
        s.append(" for the ");
        s.append(self.pool.label());
        s.append(" pool, which exceeds its total capacity ");
        s.append(text::decimal_text(self.capacity as u128).as_str());
        s.append(" ");
        s.append(self.pool.unit());
        s
    }
}

/// The contents of errors.
pub open spec fn error_views(errors: Seq<CapacityError>) -> Seq<ErrorView> {
    errors.map_values(|e: CapacityError| e@)
}

/// A node and its cost.
pub open spec fn declared(costs: Seq<(String, PoolCost)>) -> Seq<(Seq<char>, PoolCost)> {
    costs.map_values(|c: (String, PoolCost)| (c.0@, c.1))
}

/// The error of a node on a pool, if it declares more than the pool has.
pub open spec fn error_on(caps: PoolCapacities, node: Seq<char>, cost: PoolCost, pool: Pool) -> Seq<ErrorView> {
    if cost.demand(pool) > caps.total_spec(pool) {
        seq![ErrorView { node, pool, declared_cost: cost.demand(pool), capacity: caps.total_spec(pool) }]
    } else {
        Seq::empty()
    }
}

/// The errors of a node, pool by pool.
pub open spec fn errors_of_node(caps: PoolCapacities, node: Seq<char>, cost: PoolCost) -> Seq<ErrorView> {
    error_on(caps, node, cost, Pool::Memory) + error_on(caps, node, cost, Pool::BlockingThreads) + error_on(
        caps,
        node,
        cost,
        Pool::ComputeThreads,
    )
}

/// The errors of every node, in the order in which the nodes are declared.
pub open spec fn errors_of(caps: PoolCapacities, costs: Seq<(Seq<char>, PoolCost)>) -> Seq<ErrorView>
    decreases costs.len(),
{
    if costs.len() == 0 {
        Seq::empty()
    } else {
        errors_of(caps, costs.drop_last()) + errors_of_node(caps, costs.last().0, costs.last().1)
    }
}

/// The errors in words, each after a semicolon.
pub open spec fn each_rendered(errors: Seq<ErrorView>) -> Seq<char>
    decreases errors.len(),
{
    if errors.len() == 0 {
        Seq::empty()
    } else {
        each_rendered(errors.drop_last()) + "; "@ + errors.last().rendered()
    }
}

/// The errors of one node.
pub open spec fn errors_at(errors: Seq<ErrorView>, node: Seq<char>) -> Seq<ErrorView> {
    errors.filter(|e: ErrorView| e.node == node)
}

/// A bootstrap that failed because some node declares more of a pool than the pool has.
#[derive(Debug, Clone, PartialEq, Eq)]
pub struct CapacityBootstrapFailure {
    errors: Vec<CapacityError>,
}

impl View for CapacityBootstrapFailure {
    type V = Seq<ErrorView>;

    closed spec fn view(&self) -> Seq<ErrorView> {
        error_views(self.errors@)
    }
}

impl CapacityBootstrapFailure {
    /// The outcome: bootstrap failed.
    #[must_use]
    pub fn outcome(&self) -> (r: BootstrapOutcome)
        ensures
            r == BootstrapOutcome::BootstrapFailed,
    {
        BootstrapOutcome::BootstrapFailed
    }

    /// The errors, one for each node and pool, in the order in which they were found.
    #[must_use]
    pub fn errors(&self) -> (r: &[CapacityError])
        ensures
            error_views(r@) == self@,
    {
        self.errors.as_slice()
    }

    /// How many attempts ran: none.
    #[must_use]
    pub fn attempts_recorded(&self) -> (r: usize)
        ensures
            r == 0,
    {
        0
    }

    /// The errors of each node that has any, in the order in which they were found.
    #[must_use]
    pub fn errors_by_node(&self) -> (r: NameMap<Vec<&CapacityError>>)
        ensures
            r.wf(),
            forall|node: Seq<char>|
                #![trigger r@.dom().contains(node)]
                r@.dom().contains(node) == (errors_at(self@, node).len() > 0),
            forall|node: Seq<char>|
                #![trigger r@[node]]
                r@.dom().contains(node) ==> r@[node]@.map_values(|e: &CapacityError| e@) == errors_at(self@, node),
    {
        let mut by_node: NameMap<Vec<&CapacityError>> = NameMap::new();
        let ghost all = self@;
        let mut i: usize = 0;
        while i < self.errors.len()
            invariant
                i <= self.errors.len(),
                all == error_views(self.errors@),
                by_node.wf(),
                forall|node: Seq<char>|
                    #![trigger by_node@.dom().contains(node)]
                    by_node@.dom().contains(node) == (exists|k: int| 0 <= k < i && (#[trigger] all[k]).node == node),
                forall|node: Seq<char>|
                    #![trigger by_node@[node]]
                    by_node@.dom().contains(node) ==> by_node@[node]@.map_values(|e: &CapacityError| e@) == errors_at(
                        all,
                        node,
                    ),
            decreases self.errors.len() - i,
        {
            let name = self.errors[i].node();
            let ghost before = by_node@;
            assert(all[i as int].node == name@);
            if !by_node.contains(name) {
                let group = errors_named(&self.errors, name);
                by_node.insert(String::from_str(name), group);
                assert(by_node@ == before.insert(name@, group));
            }
            proof {
                assert forall|node: Seq<char>|
                    #![trigger by_node@.dom().contains(node)]
                    by_node@.dom().contains(node) == (exists|k: int| 0 <= k < i + 1 && (#[trigger] all[k]).node == node) by {
                    if by_node@.dom().contains(node) && node != name@ {
                        assert(before.dom().contains(node));
                    }
                }
            }
            i = i + 1;
        }
        proof {
            assert forall|node: Seq<char>|
                #![trigger by_node@.dom().contains(node)]
                by_node@.dom().contains(node) == (errors_at(all, node).len() > 0) by {
                lemma_some_error(all, node);
            }
        }
        by_node
    }

    /// The failure in words.
    #[must_use]
    pub fn render(&self) -> (r: String)
        ensures
            r@ == "bootstrap failed: "@ + text::decimal(self@.len()) + " node(s) declare a cost exceeding pool capacity"@
                + each_rendered(self@),
    {
        let mut s = String::from_str("bootstrap failed: ");
        s.append(text::decimal_text(self.errors.len() as u128).as_str());
        s.append(" node(s) declare a cost exceeding pool capacity");
        let ghost head = s@;
        let mut i: usize = 0;
        assert(head + each_rendered(self@.take(0)) =~= head);
        while i < self.errors.len()
            invariant
                i <= self.errors.len(),
                self@ == error_views(self.errors@),
                s@ == head + each_rendered(self@.take(i as int)),
            decreases self.errors.len() - i,
        {
            s.append("; ");
            s.append(self.errors[i].render().as_str());
            proof {
                let next = self@.take(i + 1);
                assert(next.drop_last() =~= self@.take(i as int));
                assert(next.last() == self.errors@[i as int]@);
                assert(s@ =~= head + each_rendered(next));
            }
            i = i + 1;
        }
        assert(self@.take(self@.len() as int) =~= self@);
        s
    }
}

proof fn lemma_some_error(errors: Seq<ErrorView>, node: Seq<char>)
    ensures
        (errors_at(errors, node).len() > 0) == (exists|k: int| 0 <= k < errors.len() && (#[trigger] errors[k]).node == node),
    decreases errors.len(),
{
    reveal(Seq::filter);
    if errors.len() > 0 {
        lemma_some_error(errors.drop_last(), node);
        let shorter = errors.drop_last();
        if exists|k: int| 0 <= k < errors.len() && (#[trigger] errors[k]).node == node {
            let k = choose|k: int| 0 <= k < errors.len() && (#[trigger] errors[k]).node == node;
            if k < shorter.len() {
                assert(shorter[k].node == node);
            }
        }
        if exists|k: int| 0 <= k < shorter.len() && (#[trigger] shorter[k]).node == node {
            let k = choose|k: int| 0 <= k < shorter.len() && (#[trigger] shorter[k]).node == node;
            assert(errors[k].node == node);
        }
        assert(errors.last() == errors[errors.len() - 1]);
    }
}

fn errors_named<'a>(errors: &'a Vec<CapacityError>, node: &str) -> (r: Vec<&'a CapacityError>)
    ensures
        r@.map_values(|e: &CapacityError| e@) == errors_at(error_views(errors@), node@),
{
    let mut out: Vec<&'a CapacityError> = Vec::new();
    let ghost all = error_views(errors@);
    let mut i: usize = 0;
    proof {
        reveal(Seq::filter);
        assert(out@.map_values(|e: &CapacityError| e@) =~= errors_at(all.take(0), node@));
    }
    while i < errors.len()
        invariant
            i <= errors.len(),
            all == error_views(errors@),
            out@.map_values(|e: &CapacityError| e@) == errors_at(all.take(i as int), node@),
        decreases errors.len() - i,
    {
        let e = &errors[i];
        let ghost before = out@;
        proof {
            reveal(Seq::filter);
            let next = all.take(i + 1);
            assert(next.drop_last() =~= all.take(i as int));
            assert(next.last() == errors@[i as int]@);
        }
        if text::same_text(e.node(), node) {
            out.push(e);
            assert(out@.map_values(|e: &CapacityError| e@) =~= before.map_values(|e: &CapacityError| e@).push(e@));
        }
        i = i + 1;
    }
    assert(all.take(all.len() as int) =~= all);
    out
}

/// Checks that no node declares more of a pool than the pool has in all. A node that
/// declares exactly as much is accepted. Every error is reported.
pub fn detect_capacities(caps: &PoolCapacities, node_costs: &[(String, PoolCost)]) -> (r: Result<
    (),
    CapacityBootstrapFailure,
>)
    ensures
        ({
            let errors = errors_of(*caps, declared(node_costs@));
            match r {
                Ok(_) => errors.len() == 0,
                Err(failure) => errors.len() > 0 && failure@ == errors,
            }
        }),
{
    let mut errors: Vec<CapacityError> = Vec::new();
    let ghost costs = declared(node_costs@);
    let mut i: usize = 0;
    assert(error_views(errors@) =~= errors_of(*caps, costs.take(0)));
    while i < node_costs.len()
        invariant
            i <= node_costs.len(),
            costs == declared(node_costs@),
            error_views(errors@) == errors_of(*caps, costs.take(i as int)),
        decreases node_costs.len() - i,
    {
        let ghost before = error_views(errors@);
        let node = node_costs[i].0.as_str();
        let cost = node_costs[i].1;
        note_overrun(&mut errors, caps, node, cost, Pool::Memory);
        note_overrun(&mut errors, caps, node, cost, Pool::BlockingThreads);
        note_overrun(&mut errors, caps, node, cost, Pool::ComputeThreads);
        proof {
            let next = costs.take(i + 1);
            assert(next.drop_last() =~= costs.take(i as int));
            assert(next.last() == (node@, cost));
            assert(error_views(errors@) =~= before + errors_of_node(*caps, node@, cost));
        }
        i = i + 1;
    }
    assert(costs.take(costs.len() as int) =~= costs);
    if errors.len() == 0 {
        Ok(())
    } else {
        Err(CapacityBootstrapFailure { errors })
    }
}

fn note_overrun(errors: &mut Vec<CapacityError>, caps: &PoolCapacities, node: &str, cost: PoolCost, pool: Pool)
    ensures
        error_views(final(errors)@) == error_views(old(errors)@) + error_on(*caps, node@, cost, pool),
{
    let ghost before = errors@;
    let demand: u64 = cost.demand_on(pool);
    let total: u64 = caps.total(pool);
    if demand > total {
        errors.push(CapacityError { node: String::from_str(node), pool, declared_cost: demand, capacity: total });
        assert(error_views(errors@) =~= error_views(before) + error_on(*caps, node@, cost, pool));
    } else {
        assert(error_views(errors@) =~= error_views(before) + error_on(*caps, node@, cost, pool));
    }
}

} // verus!
