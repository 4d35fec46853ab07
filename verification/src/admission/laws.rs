//! What holds of every controller.

use super::{AdmissionView, Pool, PoolCapacities, PoolCost, Remaining, WaiterView, ZombieCost, ZombieView};
use crate::admission;
use crate::assembly::CostVector;
use crate::slot::LedgerView;
use crate::text;
use vstd::prelude::*;

verus! {

/// What attempts with the given costs hold of a pool together.
pub open spec fn held(costs: Seq<PoolCost>, pool: Pool) -> int
    decreases costs.len(),
{
    if costs.len() == 0 {
        0
    } else {
        held(costs.drop_last(), pool) + costs.last().demand(pool)
    }
}

/// Whether the pools hold exactly what the running attempts have not drawn.
pub open spec fn balanced(view: AdmissionView, costs: Seq<PoolCost>) -> bool {
    forall|pool: Pool| #[trigger] view.remaining.of(pool) + held(costs, pool) == view.caps.total_spec(pool)
}

proof fn lemma_held_nonnegative(costs: Seq<PoolCost>, pool: Pool)
    ensures
        0 <= held(costs, pool),
    decreases costs.len(),
{
    if costs.len() > 0 {
        lemma_held_nonnegative(costs.drop_last(), pool);
    }
}

proof fn lemma_held_without(costs: Seq<PoolCost>, i: int, pool: Pool)
    requires
        0 <= i < costs.len(),
    ensures
        held(costs, pool) == held(costs.remove(i), pool) + costs[i].demand(pool),
    decreases costs.len(),
{
    let front = costs.drop_last();
    if i == costs.len() - 1 {
        assert(costs.remove(i) =~= front);
    } else {
        lemma_held_without(front, i, pool);
        let less = costs.remove(i);
        assert(less.drop_last() =~= front.remove(i));
        assert(less.last() == costs.last());
    }
}

/// Capacity neither leaks nor is invented: from a fresh controller on, what remains of a
/// pool and what the running attempts hold of it make up its total, whatever is admitted
/// and whatever returns, in any order. Once nothing runs, every pool is full again.
pub proof fn law_account_balances(view: AdmissionView, costs: Seq<PoolCost>, node: Seq<char>, cost: PoolCost, i: int)
    requires
        balanced(view, costs),
    ensures
        balanced(AdmissionView::fresh(view.caps), Seq::empty()),
        view.wf(),
        view.remaining.fits(cost) ==> balanced(
            AdmissionView { remaining: view.remaining.charged(cost), ..view },
            costs.push(cost),
        ),
        0 <= i < costs.len() ==> balanced(view.returned(node, costs[i]), costs.remove(i)),
        costs.len() == 0 ==> view.remaining == Remaining::full(view.caps),
{
    assert forall|pool: Pool| #[trigger] view.remaining.of(pool) <= view.caps.total_spec(pool) by {
        lemma_held_nonnegative(costs, pool);
    }
    if view.remaining.fits(cost) {
        let after = AdmissionView { remaining: view.remaining.charged(cost), ..view };
        assert forall|pool: Pool| #[trigger]
            after.remaining.of(pool) + held(costs.push(cost), pool) == after.caps.total_spec(pool) by {
            assert(costs.push(cost).drop_last() =~= costs);
            assert(cost.demand(pool) <= view.remaining.of(pool));
        }
    }
    if 0 <= i < costs.len() {
        let after = view.returned(node, costs[i]);
        assert forall|pool: Pool| #[trigger]
            after.remaining.of(pool) + held(costs.remove(i), pool) == after.caps.total_spec(pool) by {
            lemma_held_without(costs, i, pool);
            lemma_held_nonnegative(costs.remove(i), pool);
            assert(view.remaining.of(pool) + held(costs, pool) == view.caps.total_spec(pool));
        }
    }
    if costs.len() == 0 {
        assert(view.remaining.of(Pool::Memory) == view.caps.memory);
        assert(view.remaining.of(Pool::BlockingThreads) == view.caps.blocking_threads);
        assert(view.remaining.of(Pool::ComputeThreads) == view.caps.compute_threads);
    }
}

/// What attempts hold of a pool, those given up on among them, never exceeds its total.
/// Nothing else counts against the threads; what is counted against memory is within its
/// total exactly where produced values occupy no more than what remains.
pub proof fn law_held_within_total(view: AdmissionView, pool: Pool)
    requires
        view.wf(),
    ensures
        0 <= view.charged(pool) <= view.caps.total_spec(pool),
        pool != Pool::Memory ==> view.counted_spec(pool) <= view.caps.total_spec(pool),
        pool == Pool::Memory ==> (view.counted_spec(pool) <= view.caps.total_spec(pool) <==> view.ledger().current
            <= view.remaining.of(Pool::Memory)),
{
    assert(view.remaining.of(pool) <= view.caps.total_spec(pool));
}

/// A return undoes the admission.
pub proof fn law_return_undoes_admission(remaining: Remaining, cost: PoolCost, caps: PoolCapacities)
    requires
        remaining.within(caps),
        remaining.fits(cost),
    ensures
        remaining.charged(cost).released(cost, caps) == remaining,
{
    assert(remaining.of(Pool::Memory) <= caps.total_spec(Pool::Memory));
    assert(remaining.of(Pool::BlockingThreads) <= caps.total_spec(Pool::BlockingThreads));
    assert(remaining.of(Pool::ComputeThreads) <= caps.total_spec(Pool::ComputeThreads));
    assert(cost.demand(Pool::Memory) <= remaining.of(Pool::Memory));
    assert(cost.demand(Pool::BlockingThreads) <= remaining.of(Pool::BlockingThreads));
    assert(cost.demand(Pool::ComputeThreads) <= remaining.of(Pool::ComputeThreads));
}

/// Giving up on an attempt frees nothing, and its record is gone once its work returns.
pub proof fn law_given_up_attempt_stays_counted(view: AdmissionView, node: Seq<char>, cost: PoolCost)
    requires
        forall|i: int| 0 <= i < view.zombies.len() ==> (#[trigger] view.zombies[i]).node != node,
    ensures
        ({
            let marked = AdmissionView {
                zombies: view.zombies.push(ZombieView { node, pinned: ZombieCost::of(cost) }),
                ..view
            };
            &&& marked.remaining == view.remaining
            &&& marked.returned(node, cost).zombies == view.zombies
            &&& marked.returned(node, cost).remaining == view.returned(node, cost).remaining
        }),
{
    let marked = AdmissionView {
        zombies: view.zombies.push(ZombieView { node, pinned: ZombieCost::of(cost) }),
        ..view
    };
    let last = view.zombies.len() as int;
    assert forall|j: int| 0 <= j < last implies (#[trigger] marked.zombies[j]).node != node by {
        assert(marked.zombies[j] == view.zombies[j]);
    }
    assert(marked.first_zombie(node, last));
    let k = choose|k: int| marked.first_zombie(node, k);
    assert(k == last);
    assert(marked.zombies.remove(last) =~= view.zombies);
}

proof fn lemma_pass_shrinks(waiters: Seq<WaiterView>, remaining: Remaining, a: int, b: int, cost: PoolCost)
    requires
        0 <= a <= b <= waiters.len(),
        !admission::pass(waiters, remaining, a).remaining.fits(cost),
    ensures
        !admission::pass(waiters, remaining, b).remaining.fits(cost),
    decreases b,
{
    if a < b {
        lemma_pass_shrinks(waiters, remaining, a, b - 1, cost);
        let before = admission::pass(waiters, remaining, b - 1).remaining;
        let next = waiters[b - 1].cost;
        if before.fits(next) {
            let pool = choose|pool: Pool| !(cost.demand(pool) <= #[trigger] before.of(pool));
            assert(next.demand(pool) <= before.of(pool));
            assert(before.charged(next).of(pool) <= before.of(pool));
        }
    }
}

proof fn lemma_kept_do_not_fit(waiters: Seq<WaiterView>, remaining: Remaining, k: int)
    requires
        0 <= k <= waiters.len(),
    ensures
        forall|i: int|
            0 <= i < admission::pass(waiters, remaining, k).kept.len() ==> !admission::pass(waiters, remaining, k).remaining.fits(
                (#[trigger] admission::pass(waiters, remaining, k).kept[i]).cost,
            ),
    decreases k,
{
    if k > 0 {
        lemma_kept_do_not_fit(waiters, remaining, k - 1);
        let before = admission::pass(waiters, remaining, k - 1);
        let after = admission::pass(waiters, remaining, k);
        assert forall|i: int| 0 <= i < after.kept.len() implies !after.remaining.fits((#[trigger] after.kept[i]).cost) by {
            if i < before.kept.len() {
                assert(after.kept[i] == before.kept[i]);
                if before.remaining.fits(waiters[k - 1].cost) {
                    let cost = before.kept[i].cost;
                    let next = waiters[k - 1].cost;
                    let pool = choose|pool: Pool| !(cost.demand(pool) <= #[trigger] before.remaining.of(pool));
                    assert(next.demand(pool) <= before.remaining.of(pool));
                    assert(before.remaining.charged(next).of(pool) <= before.remaining.of(pool));
                }
            }
        }
    }
}

/// After a poll no waiting node fits what remains.
pub proof fn law_poll_leaves_none_that_fits(view: AdmissionView, i: int)
    requires
        0 <= i < view.polled().waiters.len(),
    ensures
        !view.polled().remaining.fits(view.polled().waiters[i].cost),
{
    lemma_kept_do_not_fit(view.waiters, view.remaining, view.waiters.len() as int);
}

/// The oldest waiting node is never passed while it fits: it is the first to be admitted.
pub proof fn law_oldest_that_fits_goes_first(view: AdmissionView)
    requires
        view.waiters.len() > 0,
        view.remaining.fits(view.waiters[0].cost),
    ensures
        ({
            let done = admission::pass(view.waiters, view.remaining, view.waiters.len() as int);
            done.admitted.len() > 0 && done.admitted[0] == view.waiters[0]
        }),
{
    lemma_first_stays(view.waiters, view.remaining, view.waiters.len() as int);
}

proof fn lemma_first_stays(waiters: Seq<WaiterView>, remaining: Remaining, k: int)
    requires
        1 <= k <= waiters.len(),
        remaining.fits(waiters[0].cost),
    ensures
        admission::pass(waiters, remaining, k).admitted.len() > 0,
        admission::pass(waiters, remaining, k).admitted[0] == waiters[0],
    decreases k,
{
    if k > 1 {
        lemma_first_stays(waiters, remaining, k - 1);
    } else {
        assert(admission::pass(waiters, remaining, 0).remaining == remaining);
    }
}

/// A waiting node is admitted exactly when it fits what the admitted ones among the older
/// left over; so a younger one passes an older one only while the older one does not fit.
pub proof fn law_bypass_is_bounded(waiters: Seq<WaiterView>, remaining: Remaining, k: int)
    requires
        0 <= k < waiters.len(),
    ensures
        ({
            let older = admission::pass(waiters, remaining, k);
            let now = admission::pass(waiters, remaining, k + 1);
            if older.remaining.fits(waiters[k].cost) {
                now.admitted == older.admitted.push(waiters[k]) && now.kept == older.kept
            } else {
                &&& now.kept == older.kept.push(waiters[k])
                &&& now.admitted == older.admitted
                &&& forall|m: int|
                    k < m <= waiters.len() ==> !(#[trigger] admission::pass(waiters, remaining, m)).remaining.fits(waiters[k].cost)
            }
        }),
{
    let older = admission::pass(waiters, remaining, k);
    if !older.remaining.fits(waiters[k].cost) {
        assert forall|m: int| k < m <= waiters.len() implies !(#[trigger] admission::pass(waiters, remaining, m)).remaining.fits(
            waiters[k].cost,
        ) by {
            lemma_pass_shrinks(waiters, remaining, k, m, waiters[k].cost);
        }
    }
}

/// A poll loses no waiting node: each is admitted or still waits.
pub proof fn law_poll_loses_nobody(waiters: Seq<WaiterView>, remaining: Remaining, k: int)
    requires
        0 <= k <= waiters.len(),
    ensures
        ({
            let done = admission::pass(waiters, remaining, k);
            done.admitted.to_multiset().add(done.kept.to_multiset()) == waiters.take(k).to_multiset()
        }),
    decreases k,
{
    broadcast use vstd::seq_lib::group_to_multiset_ensures;

    let done = admission::pass(waiters, remaining, k);
    if k > 0 {
        law_poll_loses_nobody(waiters, remaining, k - 1);
        let before = admission::pass(waiters, remaining, k - 1);
        let next = waiters[k - 1];
        assert(waiters.take(k) =~= waiters.take(k - 1).push(next));
        assert(done.admitted.to_multiset().add(done.kept.to_multiset()) =~= before.admitted.to_multiset().add(
            before.kept.to_multiset(),
        ).insert(next));
    } else {
        assert(waiters.take(0) =~= Seq::<WaiterView>::empty());
        assert(done.admitted.to_multiset().add(done.kept.to_multiset()) =~= waiters.take(0).to_multiset());
    }
}

/// A cost fits exactly where there is as much left of memory as its working memory, and as
/// many threads left of either pool as it declares. What its value will occupy does not
/// matter. What is drawn is exactly the working memory and the threads; and giving a cost
/// back adds them again, up to the total.
pub proof fn law_a_cost_is_drawn_pool_by_pool(remaining: Remaining, cost: PoolCost, caps: PoolCapacities)
    ensures
        remaining.fits(cost) <==> {
            &&& cost.working_memory <= remaining.memory
            &&& cost.blocking_threads <= remaining.blocking
            &&& cost.compute_threads <= remaining.compute
        },
        remaining.fits(cost) ==> {
            let left = remaining.charged(cost);
            &&& left.memory + cost.working_memory == remaining.memory
            &&& left.blocking + cost.blocking_threads == remaining.blocking
            &&& left.compute + cost.compute_threads == remaining.compute
        },
        ({
            let back = remaining.released(cost, caps);
            &&& back.memory <= caps.memory && back.memory <= remaining.memory + cost.working_memory
            &&& back.memory == caps.memory || back.memory == remaining.memory + cost.working_memory
            &&& back.blocking <= caps.blocking_threads && back.blocking <= remaining.blocking + cost.blocking_threads
            &&& back.blocking == caps.blocking_threads || back.blocking == remaining.blocking + cost.blocking_threads
            &&& back.compute <= caps.compute_threads && back.compute <= remaining.compute + cost.compute_threads
            &&& back.compute == caps.compute_threads || back.compute == remaining.compute + cost.compute_threads
        }),
{
    assert(remaining.of(Pool::Memory) == remaining.memory);
    assert(remaining.of(Pool::BlockingThreads) == remaining.blocking);
    assert(remaining.of(Pool::ComputeThreads) == remaining.compute);
    if cost.working_memory <= remaining.memory && cost.blocking_threads <= remaining.blocking && cost.compute_threads
        <= remaining.compute {
        assert forall|pool: Pool| cost.demand(pool) <= #[trigger] remaining.of(pool) by {}
    }
}

/// A cost draws its working memory from memory and its threads from the pool of each kind;
/// a pool's total is its own limit, and so is what remains of it at the start. A limit that
/// nobody set is the largest there is, and no memory constraint.
pub proof fn law_each_pool_has_its_own_account(cost: PoolCost, caps: PoolCapacities, remaining: Remaining)
    ensures
        cost.demand(Pool::Memory) == cost.working_memory,
        cost.demand(Pool::BlockingThreads) == cost.blocking_threads,
        cost.demand(Pool::ComputeThreads) == cost.compute_threads,
        caps.total_spec(Pool::Memory) == caps.memory,
        caps.total_spec(Pool::BlockingThreads) == caps.blocking_threads,
        caps.total_spec(Pool::ComputeThreads) == caps.compute_threads,
        remaining.of(Pool::Memory) == remaining.memory,
        remaining.of(Pool::BlockingThreads) == remaining.blocking,
        remaining.of(Pool::ComputeThreads) == remaining.compute,
        Remaining::full(caps).memory == caps.memory,
        Remaining::full(caps).blocking == caps.blocking_threads,
        Remaining::full(caps).compute == caps.compute_threads,
        PoolCapacities::unlimited().memory == 18_446_744_073_709_551_615,
        PoolCapacities::unlimited().blocking_threads == 4_294_967_295,
        PoolCapacities::unlimited().compute_threads == 4_294_967_295,
        !PoolCapacities::unlimited().memory_constrained,
        remaining.within(caps) <==> {
            &&& remaining.memory <= caps.memory
            &&& remaining.blocking <= caps.blocking_threads
            &&& remaining.compute <= caps.compute_threads
        },
{
    assert(remaining.of(Pool::Memory) == remaining.memory);
    assert(remaining.of(Pool::BlockingThreads) == remaining.blocking);
    assert(remaining.of(Pool::ComputeThreads) == remaining.compute);
    if remaining.memory <= caps.memory && remaining.blocking <= caps.blocking_threads && remaining.compute
        <= caps.compute_threads {
        assert forall|pool: Pool| #[trigger] remaining.of(pool) <= caps.total_spec(pool) by {}
    }
}

/// A node's declared cost is taken over field by field, and what an attempt that was given
/// up on pins is what it drew. A node that declared nothing draws nothing.
pub proof fn law_declared_costs_are_taken_over(declared: CostVector, cost: PoolCost)
    ensures
        PoolCost::of(declared).working_memory == declared.working_memory,
        PoolCost::of(declared).output_residency == declared.output_residency,
        PoolCost::of(declared).blocking_threads == declared.blocking_threads,
        PoolCost::of(declared).compute_threads == declared.compute_threads,
        PoolCost::nothing().working_memory == 0 && PoolCost::nothing().output_residency == 0,
        PoolCost::nothing().blocking_threads == 0 && PoolCost::nothing().compute_threads == 0,
        ZombieCost::of(cost).working_memory == cost.working_memory,
        ZombieCost::of(cost).blocking_threads == cost.blocking_threads,
        ZombieCost::of(cost).compute_threads == cost.compute_threads,
{
}

/// What counts against memory is what is drawn of it and what values occupy; against
/// threads it is what is drawn. A controller without a ledger counts no values.
pub proof fn law_what_is_counted(view: AdmissionView)
    ensures
        view.residency is None ==> view.counted_spec(Pool::Memory) == view.caps.memory - view.remaining.memory,
        view.residency matches Some(ledger) ==> view.counted_spec(Pool::Memory) == view.caps.memory
            - view.remaining.memory + ledger.current,
        view.counted_spec(Pool::BlockingThreads) == view.caps.blocking_threads - view.remaining.blocking,
        view.counted_spec(Pool::ComputeThreads) == view.caps.compute_threads - view.remaining.compute,
        ({
            let fresh = AdmissionView::fresh(view.caps);
            &&& fresh.caps == view.caps
            &&& fresh.counted_spec(Pool::Memory) == 0
            &&& fresh.counted_spec(Pool::BlockingThreads) == 0
            &&& fresh.counted_spec(Pool::ComputeThreads) == 0
            &&& fresh.waiters.len() == 0 && fresh.zombies.len() == 0 && fresh.residency is None
        }),
{
}

/// When work returns, the oldest record of its node, and no other, is gone; where the node
/// has none, all records stay. Who waits and what values occupy do not change.
pub proof fn law_a_return_takes_the_oldest_record(view: AdmissionView, node: Seq<char>, cost: PoolCost, i: int)
    requires
        0 <= i <= view.zombies.len(),
        i < view.zombies.len() ==> view.zombies[i].node == node,
        forall|j: int| 0 <= j < i ==> (#[trigger] view.zombies[j]).node != node,
    ensures
        ({
            let after = view.returned(node, cost);
            &&& i < view.zombies.len() ==> after.zombies == view.zombies.take(i) + view.zombies.skip(i + 1)
            &&& i == view.zombies.len() ==> after.zombies == view.zombies
            &&& after.waiters == view.waiters
            &&& after.residency == view.residency
            &&& after.caps == view.caps
        }),
{
    if i < view.zombies.len() {
        assert(view.first_zombie(node, i));
        let k = choose|k: int| view.first_zombie(node, k);
        if k < i {
            assert(view.zombies[k].node != node);
        } else if i < k {
            assert(view.zombies[i].node != node);
        }
        assert(view.zombies.remove(i) =~= view.zombies.take(i) + view.zombies.skip(i + 1));
    } else {
        assert(!exists|k: int| view.first_zombie(node, k));
    }
}

/// The first pool that a cost exceeds, of memory, blocking threads and compute threads, is
/// the one that is named; and none is named exactly where the cost fits the totals.
pub proof fn law_over_demand_names_the_first_pool(cost: PoolCost, caps: PoolCapacities)
    ensures
        admission::first_over(cost, caps) == Some(Pool::Memory) <==> cost.working_memory > caps.memory,
        admission::first_over(cost, caps) == Some(Pool::BlockingThreads) <==> cost.working_memory <= caps.memory
            && cost.blocking_threads > caps.blocking_threads,
        admission::first_over(cost, caps) == Some(Pool::ComputeThreads) <==> cost.working_memory <= caps.memory
            && cost.blocking_threads <= caps.blocking_threads && cost.compute_threads > caps.compute_threads,
        admission::first_over(cost, caps) is None <==> Remaining::full(caps).fits(cost),
        admission::over_demand(cost, caps, Pool::Memory) == "declared cost "@ + text::decimal(
            cost.working_memory as nat,
        ) + " "@ + "bytes"@ + " exceeds "@ + "Memory"@ + " pool capacity "@ + text::decimal(caps.memory as nat) + " "@
            + "bytes"@,
        admission::over_demand(cost, caps, Pool::BlockingThreads) == "declared cost "@ + text::decimal(
            cost.blocking_threads as nat,
        ) + " "@ + "threads"@ + " exceeds "@ + "BlockingThreads"@ + " pool capacity "@ + text::decimal(
            caps.blocking_threads as nat,
        ) + " "@ + "threads"@,
        admission::over_demand(cost, caps, Pool::ComputeThreads) == "declared cost "@ + text::decimal(
            cost.compute_threads as nat,
        ) + " "@ + "threads"@ + " exceeds "@ + "ComputeThreads"@ + " pool capacity "@ + text::decimal(
            caps.compute_threads as nat,
        ) + " "@ + "threads"@,
{
    law_a_cost_is_drawn_pool_by_pool(Remaining::full(caps), cost, caps);
}

/// The working memory that nodes declare together.
pub open spec fn memory_of(nodes: Seq<WaiterView>) -> int
    decreases nodes.len(),
{
    if nodes.len() == 0 {
        0
    } else {
        memory_of(nodes.drop_last()) + nodes.last().cost.working_memory
    }
}

/// The threads of the blocking pool that nodes declare together.
pub open spec fn blocking_of(nodes: Seq<WaiterView>) -> int
    decreases nodes.len(),
{
    if nodes.len() == 0 {
        0
    } else {
        blocking_of(nodes.drop_last()) + nodes.last().cost.blocking_threads
    }
}

/// The threads of the compute pool that nodes declare together.
pub open spec fn compute_of(nodes: Seq<WaiterView>) -> int
    decreases nodes.len(),
{
    if nodes.len() == 0 {
        0
    } else {
        compute_of(nodes.drop_last()) + nodes.last().cost.compute_threads
    }
}

proof fn lemma_pass_draws(waiters: Seq<WaiterView>, remaining: Remaining, k: int)
    requires
        0 <= k <= waiters.len(),
    ensures
        ({
            let done = admission::pass(waiters, remaining, k);
            &&& done.remaining.memory + memory_of(done.admitted) == remaining.memory
            &&& done.remaining.blocking + blocking_of(done.admitted) == remaining.blocking
            &&& done.remaining.compute + compute_of(done.admitted) == remaining.compute
        }),
    decreases k,
{
    if k > 0 {
        lemma_pass_draws(waiters, remaining, k - 1);
        let before = admission::pass(waiters, remaining, k - 1);
        let cost = waiters[k - 1].cost;
        law_a_cost_is_drawn_pool_by_pool(before.remaining, cost, PoolCapacities::unlimited());
        if before.remaining.fits(cost) {
            assert(before.admitted.push(waiters[k - 1]).drop_last() =~= before.admitted);
        }
    }
}

/// A poll draws exactly what the nodes that it admits declare, and touches nothing else
/// but who waits. Each node that it looks at is admitted exactly where, of every pool,
/// there is as much as it declares and as the ones admitted before it declare together.
pub proof fn law_a_poll_admits_what_there_is_room_for(view: AdmissionView, k: int)
    requires
        0 <= k < view.waiters.len(),
    ensures
        ({
            let all = admission::pass(view.waiters, view.remaining, view.waiters.len() as int);
            let older = admission::pass(view.waiters, view.remaining, k).admitted;
            let now = admission::pass(view.waiters, view.remaining, k + 1).admitted;
            let cost = view.waiters[k].cost;
            let room = {
                &&& memory_of(older) + cost.working_memory <= view.remaining.memory
                &&& blocking_of(older) + cost.blocking_threads <= view.remaining.blocking
                &&& compute_of(older) + cost.compute_threads <= view.remaining.compute
            };
            &&& room ==> now == older.push(view.waiters[k])
            &&& !room ==> now == older
            &&& admission::pass(view.waiters, view.remaining, 0).admitted == Seq::<WaiterView>::empty()
            &&& view.polled().remaining.memory + memory_of(all.admitted) == view.remaining.memory
            &&& view.polled().remaining.blocking + blocking_of(all.admitted) == view.remaining.blocking
            &&& view.polled().remaining.compute + compute_of(all.admitted) == view.remaining.compute
            &&& view.polled().zombies == view.zombies
            &&& view.polled().residency == view.residency
            &&& view.polled().caps == view.caps
        }),
{
    lemma_pass_draws(view.waiters, view.remaining, k);
    lemma_pass_draws(view.waiters, view.remaining, view.waiters.len() as int);
    let before = admission::pass(view.waiters, view.remaining, k);
    law_a_cost_is_drawn_pool_by_pool(before.remaining, view.waiters[k].cost, view.caps);
}

/// Those that still wait after a poll are those that were not admitted, in their order:
/// the two together, put back in order of age, are those that waited.
pub proof fn law_a_poll_keeps_the_order(view: AdmissionView, k: int)
    requires
        0 <= k < view.waiters.len(),
    ensures
        ({
            let older = admission::pass(view.waiters, view.remaining, k);
            let now = admission::pass(view.waiters, view.remaining, k + 1);
            ||| now.admitted == older.admitted.push(view.waiters[k]) && now.kept == older.kept
            ||| now.admitted == older.admitted && now.kept == older.kept.push(view.waiters[k])
        }),
        admission::pass(view.waiters, view.remaining, 0).kept.len() == 0,
        view.polled().waiters == admission::pass(view.waiters, view.remaining, view.waiters.len() as int).kept,
{
}

/// What values occupy is counted from nothing where no ledger is linked, and in the
/// linked one otherwise.
pub proof fn law_the_linked_ledger_counts(view: AdmissionView)
    ensures
        view.residency == None::<LedgerView> ==> view.ledger().current == 0 && view.ledger().peak == 0,
        view.residency matches Some(ledger) ==> view.ledger() == ledger,
{
}

} // verus!
