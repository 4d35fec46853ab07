//! The admission controller: bounded capacity pools and the permits drawn from them.
//!
//! A node is admitted only when its declared cost fits every pool, and then the whole
//! cost is drawn at once, so that no capacity is held while waiting for other capacity.
//! Waiting nodes are admitted oldest first; a younger one passes an older one only while
//! the older one does not fit. A permit is given back when the attempt's work has
//! actually returned, and an attempt that was given up on is reported until then.

pub mod laws;

use crate::assembly::CostVector;
use crate::slot::{LedgerView, ResidencyLedger};
use crate::text;
use crate::time::Duration;
use vstd::prelude::*;

verus! {

/// A pool of capacity.
#[derive(Debug, Clone, Copy, PartialEq, Eq, PartialOrd, Ord, Hash, Structural)]
pub enum Pool {
    /// Memory, in bytes.
    Memory,
    /// Threads for work that blocks.
    BlockingThreads,
    /// Threads for work that computes.
    ComputeThreads,
}

impl Pool {
    /// Every pool, in the order in which they are looked at.
    pub const ALL: [Pool; 3] = [Pool::Memory, Pool::BlockingThreads, Pool::ComputeThreads];

    /// The pool's name.
    pub open spec fn label_spec(self) -> Seq<char> {
        match self {
            Pool::Memory => "Memory"@,
            Pool::BlockingThreads => "BlockingThreads"@,
            Pool::ComputeThreads => "ComputeThreads"@,
        }
    }

    /// What the pool is measured in.
    pub open spec fn unit_spec(self) -> Seq<char> {
        match self {
            Pool::Memory => "bytes"@,
            _ => "threads"@,
        }
    }

    /// The pool's name.
    #[must_use]
    pub fn label(self) -> (r: &'static str)
        ensures
            r@ == self.label_spec(),
    {
        match self {
            Pool::Memory => "Memory",
            Pool::BlockingThreads => "BlockingThreads",
            Pool::ComputeThreads => "ComputeThreads",
        }
    }

    /// What the pool is measured in.
    #[must_use]
    pub fn unit(self) -> (r: &'static str)
        ensures
            r@ == self.unit_spec(),
    {
        match self {
            Pool::Memory => "bytes",
            _ => "threads",
        }
    }
}

/// The total capacity of each pool.
#[derive(Debug, Clone, Copy, PartialEq, Eq, Structural)]
pub struct PoolCapacities {
    pub memory: u64,
    pub memory_constrained: bool,
    pub blocking_threads: u32,
    pub compute_threads: u32,
}

impl Default for PoolCapacities {
    fn default() -> (r: Self)
        ensures
            r == PoolCapacities::unlimited(),
    {
        PoolCapacities::new()
    }
}

impl PoolCapacities {
    /// Capacities that constrain nothing.
    pub open spec fn unlimited() -> Self {
        PoolCapacities {
            memory: u64::MAX,
            memory_constrained: false,
            blocking_threads: u32::MAX,
            compute_threads: u32::MAX,
        }
    }

    /// The total capacity of a pool.
    pub open spec fn total_spec(self, pool: Pool) -> u64 {
        match pool {
            Pool::Memory => self.memory,
            Pool::BlockingThreads => self.blocking_threads as u64,
            Pool::ComputeThreads => self.compute_threads as u64,
        }
    }

    /// Capacities that constrain nothing.
    #[must_use]
    pub fn new() -> (r: Self)
        ensures
            r == PoolCapacities::unlimited(),
    {
        PoolCapacities {
            memory: u64::MAX,
            memory_constrained: false,
            blocking_threads: u32::MAX,
            compute_threads: u32::MAX,
        }
    }

    /// Pins the memory pool, in bytes. It then constrains the run.
    #[must_use]
    pub fn memory(self, bytes: u64) -> (r: Self)
        ensures
            r == (PoolCapacities { memory: bytes, memory_constrained: true, ..self }),
    {
        PoolCapacities { memory: bytes, memory_constrained: true, ..self }
    }

    /// Pins the pool of threads for work that blocks.
    #[must_use]
    pub fn blocking_threads(self, threads: u32) -> (r: Self)
        ensures
            r == (PoolCapacities { blocking_threads: threads, ..self }),
    {
        PoolCapacities { blocking_threads: threads, ..self }
    }

    /// Pins the pool of threads for work that computes.
    #[must_use]
    pub fn compute_threads(self, threads: u32) -> (r: Self)
        ensures
            r == (PoolCapacities { compute_threads: threads, ..self }),
    {
        PoolCapacities { compute_threads: threads, ..self }
    }

    /// The total capacity of a pool.
    #[must_use]
    pub fn total(&self, pool: Pool) -> (r: u64)
        ensures
            r == self.total_spec(pool),
    {
        match pool {
            Pool::Memory => self.memory,
            Pool::BlockingThreads => self.blocking_threads as u64,
            Pool::ComputeThreads => self.compute_threads as u64,
        }
    }

    /// Whether the memory pool was pinned.
    #[must_use]
    pub fn is_memory_constrained(&self) -> (r: bool)
        ensures
            r == self.memory_constrained,
    {
        self.memory_constrained
    }
}

/// What a node declares to draw from the pools. Working memory and threads are held for
/// the attempt; output residency is charged when the value is produced.
#[derive(Debug, Clone, Copy, PartialEq, Eq, Structural)]
pub struct PoolCost {
    pub working_memory: u64,
    pub output_residency: u64,
    pub blocking_threads: u32,
    pub compute_threads: u32,
}

impl Default for PoolCost {
    fn default() -> (r: Self)
        ensures
            r == PoolCost::nothing(),
    {
        PoolCost::new()
    }
}

impl PoolCost {
    /// Nothing from any pool.
    pub open spec fn nothing() -> Self {
        PoolCost { working_memory: 0, output_residency: 0, blocking_threads: 0, compute_threads: 0 }
    }

    /// The cost that a cost vector declares.
    pub open spec fn of(cost: CostVector) -> Self {
        PoolCost {
            working_memory: cost.working_memory,
            output_residency: cost.output_residency,
            blocking_threads: cost.blocking_threads,
            compute_threads: cost.compute_threads,
        }
    }

    /// What an attempt draws from a pool. Output residency is not drawn by the attempt.
    pub open spec fn demand(self, pool: Pool) -> u64 {
        match pool {
            Pool::Memory => self.working_memory,
            Pool::BlockingThreads => self.blocking_threads as u64,
            Pool::ComputeThreads => self.compute_threads as u64,
        }
    }

    /// Nothing from any pool.
    #[must_use]
    pub fn new() -> (r: Self)
        ensures
            r == PoolCost::nothing(),
    {
        PoolCost { working_memory: 0, output_residency: 0, blocking_threads: 0, compute_threads: 0 }
    }

    /// The cost that a cost vector declares.
    #[must_use]
    pub fn from_cost_vector(cost: CostVector) -> (r: Self)
        ensures
            r == PoolCost::of(cost),
    {
        PoolCost {
            working_memory: cost.working_memory(),
            output_residency: cost.output_residency(),
            blocking_threads: cost.blocking_threads(),
            compute_threads: cost.compute_threads(),
        }
    }

    /// Sets the working memory, in bytes.
    #[must_use]
    pub fn working_memory(self, bytes: u64) -> (r: Self)
        ensures
            r == (PoolCost { working_memory: bytes, ..self }),
    {
        PoolCost { working_memory: bytes, ..self }
    }

    /// Sets the output residency, in bytes.
    #[must_use]
    pub fn output_residency(self, bytes: u64) -> (r: Self)
        ensures
            r == (PoolCost { output_residency: bytes, ..self }),
    {
        PoolCost { output_residency: bytes, ..self }
    }

    /// Sets the threads of the blocking pool.
    #[must_use]
    pub fn blocking_threads(self, threads: u32) -> (r: Self)
        ensures
            r == (PoolCost { blocking_threads: threads, ..self }),
    {
        PoolCost { blocking_threads: threads, ..self }
    }

    /// Sets the threads of the compute pool.
    #[must_use]
    pub fn compute_threads(self, threads: u32) -> (r: Self)
        ensures
            r == (PoolCost { compute_threads: threads, ..self }),
    {
        PoolCost { compute_threads: threads, ..self }
    }

    /// The working memory, in bytes.
    #[must_use]
    pub fn working_memory_bytes(&self) -> (r: u64)
        ensures
            r == self.working_memory,
    {
        self.working_memory
    }

    /// The output residency, in bytes.
    #[must_use]
    pub fn output_residency_bytes(&self) -> (r: u64)
        ensures
            r == self.output_residency,
    {
        self.output_residency
    }

    /// The threads of the blocking pool.
    #[must_use]
    pub fn blocking_thread_count(&self) -> (r: u32)
        ensures
            r == self.blocking_threads,
    {
        self.blocking_threads
    }

    /// The threads of the compute pool.
    #[must_use]
    pub fn compute_thread_count(&self) -> (r: u32)
        ensures
            r == self.compute_threads,
    {
        self.compute_threads
    }

    /// What an attempt draws from a pool.
    #[must_use]
    pub fn demand_on(&self, pool: Pool) -> (r: u64)
        ensures
            r == self.demand(pool),
    {
        match pool {
            Pool::Memory => self.working_memory,
            Pool::BlockingThreads => self.blocking_threads as u64,
            Pool::ComputeThreads => self.compute_threads as u64,
        }
    }
}

impl From<CostVector> for PoolCost {
    fn from(cost: CostVector) -> (r: Self) {
        PoolCost::from_cost_vector(cost)
    }
}

impl vstd::std_specs::convert::FromSpecImpl<CostVector> for PoolCost {
    open spec fn obeys_from_spec() -> bool {
        true
    }

    open spec fn from_spec(cost: CostVector) -> Self {
        PoolCost::of(cost)
    }
}

/// What an attempt that was given up on still holds of each pool.
#[derive(Debug, Clone, Copy, PartialEq, Eq, Structural)]
pub struct ZombieCost {
    pub working_memory: u64,
    pub blocking_threads: u32,
    pub compute_threads: u32,
}

impl Default for ZombieCost {
    fn default() -> (r: Self)
        ensures
            r == (ZombieCost { working_memory: 0, blocking_threads: 0, compute_threads: 0 }),
    {
        ZombieCost { working_memory: 0, blocking_threads: 0, compute_threads: 0 }
    }
}

impl ZombieCost {
    /// What an attempt with the cost holds.
    pub open spec fn of(cost: PoolCost) -> Self {
        ZombieCost {
            working_memory: cost.working_memory,
            blocking_threads: cost.blocking_threads,
            compute_threads: cost.compute_threads,
        }
    }

    /// Working memory, in bytes.
    #[must_use]
    pub fn working_memory(&self) -> (r: u64)
        ensures
            r == self.working_memory,
    {
        self.working_memory
    }

    /// Threads of the blocking pool.
    #[must_use]
    pub fn blocking_threads(&self) -> (r: u32)
        ensures
            r == self.blocking_threads,
    {
        self.blocking_threads
    }

    /// Threads of the compute pool.
    #[must_use]
    pub fn compute_threads(&self) -> (r: u32)
        ensures
            r == self.compute_threads,
    {
        self.compute_threads
    }
}

/// A node whose attempt was given up on, and what it still holds.
#[derive(Debug, Clone, PartialEq, Eq)]
pub struct ZombieRecord {
    /// The node's name.
    pub node: String,
    /// What it holds until its work returns.
    pub pinned: ZombieCost,
}

/// The contents of a [`ZombieRecord`].
#[verifier::ext_equal]
pub struct ZombieView {
    pub node: Seq<char>,
    pub pinned: ZombieCost,
}

impl View for ZombieRecord {
    type V = ZombieView;

    open spec fn view(&self) -> ZombieView {
        ZombieView { node: self.node@, pinned: self.pinned }
    }
}

/// The contents of records.
pub open spec fn zombie_views(zombies: Seq<ZombieRecord>) -> Seq<ZombieView> {
    zombies.map_values(|z: ZombieRecord| z@)
}

/// The attempts that were given up on and still run.
#[derive(Debug, Clone, PartialEq, Eq)]
pub struct ZombieReport {
    /// How many there are.
    pub live_zombie_count: usize,
    /// One record for each, in the order in which they were given up on.
    pub zombies: Vec<ZombieRecord>,
}

impl Default for ZombieReport {
    fn default() -> (r: Self)
        ensures
            r.live_zombie_count == 0,
            r.zombies@ == Seq::<ZombieRecord>::empty(),
    {
        ZombieReport { live_zombie_count: 0, zombies: Vec::new() }
    }
}

/// Warns that a node declares no memory in a run that memory constrains.
#[derive(Debug, Clone, PartialEq, Eq)]
pub struct UndeclaredCostWarning {
    node: String,
}

impl View for UndeclaredCostWarning {
    type V = Seq<char>;

    closed spec fn view(&self) -> Seq<char> {
        self.node@
    }
}

impl UndeclaredCostWarning {
    /// The node's name.
    #[must_use]
    pub fn node(&self) -> (r: &str)
        ensures
            r@ == self@,
    {
        self.node.as_str()
    }

    /// The warning in words.
    #[must_use]
    pub fn render(&self) -> (r: String)
        ensures
            r@ == "node '"@ + self@
                + "' declared no memory cost in a memory-constrained run; its working memory is uncounted against the pool"@,
    {
        let mut s = String::from_str("node '");
        s.append(self.node.as_str());
        s.append(
            "' declared no memory cost in a memory-constrained run; its working memory is uncounted against the pool",
        );
        s
    }
}

/// What remains of each pool.
#[verifier::ext_equal]
pub struct Remaining {
    pub memory: u64,
    pub blocking: u32,
    pub compute: u32,
}

impl Remaining {
    /// Every pool at its total.
    pub open spec fn full(caps: PoolCapacities) -> Self {
        Remaining { memory: caps.memory, blocking: caps.blocking_threads, compute: caps.compute_threads }
    }

    /// What remains of a pool.
    pub open spec fn of(self, pool: Pool) -> u64 {
        match pool {
            Pool::Memory => self.memory,
            Pool::BlockingThreads => self.blocking as u64,
            Pool::ComputeThreads => self.compute as u64,
        }
    }

    /// Whether a cost fits every pool.
    pub open spec fn fits(self, cost: PoolCost) -> bool {
        forall|pool: Pool| cost.demand(pool) <= #[trigger] self.of(pool)
    }

    /// What remains once a cost that fits was drawn.
    pub open spec fn charged(self, cost: PoolCost) -> Self {
        Remaining {
            memory: (self.memory - cost.working_memory) as u64,
            blocking: (self.blocking - cost.blocking_threads) as u32,
            compute: (self.compute - cost.compute_threads) as u32,
        }
    }

    /// What remains once a cost was given back. No pool exceeds its total.
    pub open spec fn released(self, cost: PoolCost, caps: PoolCapacities) -> Self {
        Remaining {
            memory: if self.memory + cost.working_memory < caps.memory {
                (self.memory + cost.working_memory) as u64
            } else {
                caps.memory
            },
            blocking: if self.blocking + cost.blocking_threads < caps.blocking_threads {
                (self.blocking + cost.blocking_threads) as u32
            } else {
                caps.blocking_threads
            },
            compute: if self.compute + cost.compute_threads < caps.compute_threads {
                (self.compute + cost.compute_threads) as u32
            } else {
                caps.compute_threads
            },
        }
    }

    /// No pool exceeds its total.
    pub open spec fn within(self, caps: PoolCapacities) -> bool {
        forall|pool: Pool| #[trigger] self.of(pool) <= caps.total_spec(pool)
    }
}

/// A node that waits for admission.
#[verifier::ext_equal]
pub struct WaiterView {
    pub node: Seq<char>,
    pub cost: PoolCost,
}

/// What comes of offering capacity to waiting nodes.
#[verifier::ext_equal]
pub struct Pass {
    /// Those that were admitted, oldest first.
    pub admitted: Seq<WaiterView>,
    /// Those that still wait, oldest first.
    pub kept: Seq<WaiterView>,
    /// What remains of the pools.
    pub remaining: Remaining,
}

/// Offers what remains to the first `k` waiting nodes, oldest first: each that fits what
/// the older ones left is admitted.
pub open spec fn pass(waiters: Seq<WaiterView>, remaining: Remaining, k: int) -> Pass
    decreases k,
{
    if k <= 0 {
        Pass { admitted: Seq::empty(), kept: Seq::empty(), remaining }
    } else {
        let before = pass(waiters, remaining, k - 1);
        let next = waiters[k - 1];
        if before.remaining.fits(next.cost) {
            Pass {
                admitted: before.admitted.push(next),
                remaining: before.remaining.charged(next.cost),
                ..before
            }
        } else {
            Pass { kept: before.kept.push(next), ..before }
        }
    }
}

/// The state of a controller.
#[verifier::ext_equal]
pub struct AdmissionView {
    pub caps: PoolCapacities,
    pub remaining: Remaining,
    pub zombies: Seq<ZombieView>,
    pub waiters: Seq<WaiterView>,
    /// The residency ledger, where one is linked.
    pub residency: Option<LedgerView>,
}

impl AdmissionView {
    /// A controller with every pool at its total.
    pub open spec fn fresh(caps: PoolCapacities) -> Self {
        AdmissionView {
            caps,
            remaining: Remaining::full(caps),
            zombies: Seq::empty(),
            waiters: Seq::empty(),
            residency: None,
        }
    }

    /// No pool exceeds its total.
    pub open spec fn wf(self) -> bool {
        self.remaining.within(self.caps)
    }

    /// The ledger, which is a fresh one where none is linked.
    pub open spec fn ledger(self) -> LedgerView {
        match self.residency {
            Some(ledger) => ledger,
            None => LedgerView::fresh(),
        }
    }

    /// What attempts hold of a pool.
    pub open spec fn charged(self, pool: Pool) -> int {
        self.caps.total_spec(pool) - self.remaining.of(pool)
    }

    /// What is counted against a pool: what attempts hold of it and, of memory, what
    /// produced values occupy.
    pub open spec fn counted_spec(self, pool: Pool) -> int {
        match pool {
            Pool::Memory => self.charged(pool) + self.ledger().current,
            _ => self.charged(pool),
        }
    }

    /// Where the first record of a node stands.
    pub open spec fn first_zombie(self, node: Seq<char>, i: int) -> bool {
        &&& 0 <= i < self.zombies.len()
        &&& self.zombies[i].node == node
        &&& forall|j: int| 0 <= j < i ==> (#[trigger] self.zombies[j]).node != node
    }

    /// The controller once an attempt's work has returned: what it held is given back,
    /// and the node's oldest record of an attempt given up on, if any, is gone.
    pub open spec fn returned(self, node: Seq<char>, cost: PoolCost) -> Self {
        AdmissionView {
            remaining: self.remaining.released(cost, self.caps),
            zombies: if exists|i: int| self.first_zombie(node, i) {
                self.zombies.remove(choose|i: int| self.first_zombie(node, i))
            } else {
                self.zombies
            },
            ..self
        }
    }

    /// The controller after the waiting nodes were offered what remains.
    pub open spec fn polled(self) -> Self {
        let done = pass(self.waiters, self.remaining, self.waiters.len() as int);
        AdmissionView { waiters: done.kept, remaining: done.remaining, ..self }
    }
}

struct Waiter {
    node: String,
    cost: PoolCost,
}

spec fn waiter_views(waiters: Seq<Waiter>) -> Seq<WaiterView> {
    waiters.map_values(|w: Waiter| WaiterView { node: w.node@, cost: w.cost })
}

/// Decides which nodes may run, and keeps the account of what they hold.
pub struct AdmissionController {
    caps: PoolCapacities,
    remaining_memory: u64,
    remaining_blocking: u32,
    remaining_compute: u32,
    zombies: Vec<ZombieRecord>,
    waiters: Vec<Waiter>,
    residency: Option<ResidencyLedger>,
}

impl View for AdmissionController {
    type V = AdmissionView;

    closed spec fn view(&self) -> AdmissionView {
        AdmissionView {
            caps: self.caps,
            remaining: Remaining {
                memory: self.remaining_memory,
                blocking: self.remaining_blocking,
                compute: self.remaining_compute,
            },
            zombies: zombie_views(self.zombies@),
            waiters: waiter_views(self.waiters@),
            residency: match self.residency {
                Some(ledger) => Some(ledger@),
                None => None,
            },
        }
    }
}

/// The permits' contents, in order.
pub open spec fn permit_views(permits: Seq<Permit>) -> Seq<WaiterView> {
    permits.map_values(|p: Permit| p@)
}

/// Why a cost can never be admitted, by the pool.
pub open spec fn over_demand(cost: PoolCost, caps: PoolCapacities, pool: Pool) -> Seq<char> {
    "declared cost "@ + text::decimal(cost.demand(pool) as nat) + " "@ + pool.unit_spec() + " exceeds "@
        + pool.label_spec() + " pool capacity "@ + text::decimal(caps.total_spec(pool) as nat) + " "@ + pool.unit_spec()
}

/// The first pool, in the order in which they are looked at, whose total a cost exceeds.
pub open spec fn first_over(cost: PoolCost, caps: PoolCapacities) -> Option<Pool> {
    if cost.demand(Pool::Memory) > caps.total_spec(Pool::Memory) {
        Some(Pool::Memory)
    } else if cost.demand(Pool::BlockingThreads) > caps.total_spec(Pool::BlockingThreads) {
        Some(Pool::BlockingThreads)
    } else if cost.demand(Pool::ComputeThreads) > caps.total_spec(Pool::ComputeThreads) {
        Some(Pool::ComputeThreads)
    } else {
        None
    }
}

impl AdmissionController {
    /// A controller with every pool at its total.
    #[must_use]
    pub fn new(caps: PoolCapacities) -> (r: Self)
        ensures
            r@ == AdmissionView::fresh(caps),
            r@.wf(),
    {
        let r = AdmissionController {
            caps,
            remaining_memory: caps.memory,
            remaining_blocking: caps.blocking_threads,
            remaining_compute: caps.compute_threads,
            zombies: Vec::new(),
            waiters: Vec::new(),
            residency: None,
        };
        assert(r@ =~= AdmissionView::fresh(caps));
        r
    }

    /// Links a residency ledger, which is then counted against memory.
    #[must_use]
    pub fn with_residency_ledger(self, ledger: ResidencyLedger) -> (r: Self)
        ensures
            r@ == (AdmissionView { residency: Some(ledger@), ..self@ }),
    {
        AdmissionController { residency: Some(ledger), ..self }
    }

    /// The linked residency ledger, through which slots are filled and released. Where
    /// none is linked, a fresh one is.
    pub fn residency_ledger(&mut self) -> (r: &mut ResidencyLedger)
        ensures
            r@ == old(self)@.ledger(),
            final(self)@ == (AdmissionView { residency: Some(final(r)@), ..old(self)@ }),
    {
        if self.residency.is_none() {
            self.residency = Some(ResidencyLedger::new());
        }
        match &mut self.residency {
            Some(ledger) => ledger,
            None => {
                assert(false);
                vstd::pervasive::unreached()
            },
        }
    }

    /// Whether a cost fits what remains of every pool.
    fn fits(&self, cost: &PoolCost) -> (r: bool)
        ensures
            r == self@.remaining.fits(*cost),
    {
        let r = cost.working_memory <= self.remaining_memory && cost.blocking_threads <= self.remaining_blocking
            && cost.compute_threads <= self.remaining_compute;
        proof {
            let left = self@.remaining;
            assert(left.of(Pool::Memory) == self.remaining_memory);
            assert(left.of(Pool::BlockingThreads) == self.remaining_blocking);
            assert(left.of(Pool::ComputeThreads) == self.remaining_compute);
            if r {
                assert forall|pool: Pool| cost.demand(pool) <= #[trigger] left.of(pool) by {}
            }
        }
        r
    }

    /// Draws a cost that fits.
    fn charge(&mut self, cost: &PoolCost)
        requires
            old(self)@.remaining.fits(*cost),
        ensures
            final(self)@ == (AdmissionView { remaining: old(self)@.remaining.charged(*cost), ..old(self)@ }),
    {
        proof {
            let left = self@.remaining;
            assert(cost.demand(Pool::Memory) <= left.of(Pool::Memory));
            assert(cost.demand(Pool::BlockingThreads) <= left.of(Pool::BlockingThreads));
            assert(cost.demand(Pool::ComputeThreads) <= left.of(Pool::ComputeThreads));
        }
        self.remaining_memory = self.remaining_memory - cost.working_memory;
        self.remaining_blocking = self.remaining_blocking - cost.blocking_threads;
        self.remaining_compute = self.remaining_compute - cost.compute_threads;
    }

    /// Gives a cost back.
    fn release(&mut self, cost: &PoolCost)
        ensures
            final(self)@ == (AdmissionView {
                remaining: old(self)@.remaining.released(*cost, old(self)@.caps),
                ..old(self)@
            }),
    {
        let memory: u128 = self.remaining_memory as u128 + cost.working_memory as u128;
        self.remaining_memory = if memory < self.caps.memory as u128 {
            memory as u64
        } else {
            self.caps.memory
        };
        let blocking: u64 = self.remaining_blocking as u64 + cost.blocking_threads as u64;
        self.remaining_blocking = if blocking < self.caps.blocking_threads as u64 {
            blocking as u32
        } else {
            self.caps.blocking_threads
        };
        let compute: u64 = self.remaining_compute as u64 + cost.compute_threads as u64;
        self.remaining_compute = if compute < self.caps.compute_threads as u64 {
            compute as u32
        } else {
            self.caps.compute_threads
        };
    }

    /// Admits a node if its cost fits every pool, and otherwise changes nothing.
    #[must_use]
    pub fn try_admit(&mut self, node: &str, cost: &PoolCost) -> (r: Option<Permit>)
        requires
            old(self)@.wf(),
        ensures
            final(self)@.wf(),
            match r {
                Some(permit) => {
                    &&& old(self)@.remaining.fits(*cost)
                    &&& permit@ == (WaiterView { node: node@, cost: *cost })
                    &&& final(self)@ == (AdmissionView {
                        remaining: old(self)@.remaining.charged(*cost),
                        ..old(self)@
                    })
                },
                None => !old(self)@.remaining.fits(*cost) && final(self)@ == old(self)@,
            },
    {
        if !self.fits(cost) {
            return None;
        }
        proof {
            lemma_charged_within(self@.remaining, *cost, self@.caps);
        }
        self.charge(cost);
        Some(Permit { node: String::from_str(node), cost: *cost })
    }

    /// Whether a cost fits the totals, so that it can be admitted at some time.
    #[must_use]
    pub fn can_ever_fit(&self, cost: &PoolCost) -> (r: bool)
        ensures
            r == Remaining::full(self@.caps).fits(*cost),
            r == (first_over(*cost, self@.caps) is None),
    {
        let r = cost.working_memory <= self.caps.memory && cost.blocking_threads <= self.caps.blocking_threads
            && cost.compute_threads <= self.caps.compute_threads;
        proof {
            let full = Remaining::full(self@.caps);
            assert(full.of(Pool::Memory) == self.caps.memory);
            assert(full.of(Pool::BlockingThreads) == self.caps.blocking_threads);
            assert(full.of(Pool::ComputeThreads) == self.caps.compute_threads);
            if r {
                assert forall|pool: Pool| cost.demand(pool) <= #[trigger] full.of(pool) by {}
            }
        }
        r
    }

    /// Why a cost can never be admitted, if it cannot: the first pool whose total it
    /// exceeds.
    #[must_use]
    pub fn over_demand_reason(&self, cost: &PoolCost) -> (r: Option<String>)
        ensures
            match r {
                Some(text) => first_over(*cost, self@.caps) is Some && text@ == over_demand(
                    *cost,
                    self@.caps,
                    first_over(*cost, self@.caps)->0,
                ),
                None => first_over(*cost, self@.caps) is None,
            },
    {
        let mut i: usize = 0;
        while i < 3
            invariant
                i <= 3,
                i > 0 ==> cost.demand(Pool::Memory) <= self@.caps.total_spec(Pool::Memory),
                i > 1 ==> cost.demand(Pool::BlockingThreads) <= self@.caps.total_spec(Pool::BlockingThreads),
                i > 2 ==> cost.demand(Pool::ComputeThreads) <= self@.caps.total_spec(Pool::ComputeThreads),
            decreases 3 - i,
        {
            let pool: Pool = Pool::ALL[i];
            let demand: u64 = cost.demand_on(pool);
            let total: u64 = self.caps.total(pool);
            if demand > total {
                let mut s = String::from_str("declared cost ");
                s.append(text::decimal_text(demand as u128).as_str());
                s.append(" ");
                s.append(pool.unit());
                s.append(" exceeds ");
                s.append(pool.label());
                s.append(" pool capacity ");
                s.append(text::decimal_text(total as u128).as_str());
                s.append(" ");
                s.append(pool.unit());
                return Some(s);
            }
            i = i + 1;
        }
        None
    }

    /// Adds a node to those that wait, as the youngest.
    pub fn offer(&mut self, node: &str, cost: &PoolCost)
        ensures
            final(self)@ == (AdmissionView {
                waiters: old(self)@.waiters.push(WaiterView { node: node@, cost: *cost }),
                ..old(self)@
            }),
    {
        let ghost before = self@.waiters;
        self.waiters.push(Waiter { node: String::from_str(node), cost: *cost });
        assert(self@.waiters =~= before.push(WaiterView { node: node@, cost: *cost }));
    }

    /// The oldest waiting node, from a place on, whose cost fits.
    fn next_admissible(&self, from: usize) -> (r: Option<usize>)
        requires
            from <= self@.waiters.len(),
        ensures
            match r {
                Some(i) => {
                    &&& from <= i < self@.waiters.len()
                    &&& self@.remaining.fits(self@.waiters[i as int].cost)
                    &&& forall|j: int| from <= j < i ==> !self@.remaining.fits((#[trigger] self@.waiters[j]).cost)
                },
                None => forall|j: int|
                    from <= j < self@.waiters.len() ==> !self@.remaining.fits((#[trigger] self@.waiters[j]).cost),
            },
    {
        let mut i: usize = from;
        while i < self.waiters.len()
            invariant
                from <= i <= self.waiters.len(),
                self@.waiters.len() == self.waiters.len(),
                forall|j: int| from <= j < i ==> !self@.remaining.fits((#[trigger] self@.waiters[j]).cost),
            decreases self.waiters.len() - i,
        {
            assert(self@.waiters[i as int].cost == self.waiters@[i as int].cost);
            if self.fits(&self.waiters[i].cost) {
                return Some(i);
            }
            i = i + 1;
        }
        None
    }

    /// Admits every waiting node that can be admitted now. The oldest that fits is
    /// admitted first, and a younger one passes an older one only while the older one
    /// does not fit.
    #[must_use]
    pub fn poll_admissions(&mut self) -> (r: Vec<Permit>)
        requires
            old(self)@.wf(),
        ensures
            final(self)@.wf(),
            final(self)@ == old(self)@.polled(),
            permit_views(r@) == pass(old(self)@.waiters, old(self)@.remaining, old(self)@.waiters.len() as int).admitted,
    {
        let ghost start = self@;
        let ghost all = self@.waiters;
        let mut permits: Vec<Permit> = Vec::new();
        // The waiters before `at` do not fit, and neither will they once more is drawn.
        let mut at: usize = 0;
        let ghost mut seen: int = 0;
        proof {
            assert(permit_views(permits@) =~= Seq::<WaiterView>::empty());
            assert(self@.waiters =~= Seq::<WaiterView>::empty() + all.skip(0));
        }
        loop
            invariant
                start == old(self)@,
                all == start.waiters,
                self@.wf(),
                0 <= seen <= all.len(),
                at == pass(all, start.remaining, seen).kept.len(),
                self@ == (AdmissionView { waiters: self@.waiters, remaining: self@.remaining, ..start }),
                self@.remaining == pass(all, start.remaining, seen).remaining,
                self@.waiters == pass(all, start.remaining, seen).kept + all.skip(seen),
                permit_views(permits@) == pass(all, start.remaining, seen).admitted,
            decreases all.len() - seen,
        {
            let ghost held = self@;
            let ghost done = pass(all, start.remaining, seen);
            match self.next_admissible(at) {
                None => {
                    proof {
                        assert forall|j: int| seen <= j < all.len() implies !done.remaining.fits((#[trigger] all[j]).cost) by {
                            assert(held.waiters[at + (j - seen)] == all[j]);
                        }
                        lemma_pass_over(all, start.remaining, seen, all.len() as int);
                        assert(held.waiters =~= done.kept + all.subrange(seen, all.len() as int));
                        assert(self@ =~= start.polled());
                    }
                    return permits;
                },
                Some(i) => {
                    let ghost hit = seen + (i - at);
                    proof {
                        assert(held.waiters[i as int] == all[hit]);
                        assert forall|j: int| seen <= j < hit implies !done.remaining.fits((#[trigger] all[j]).cost) by {
                            assert(held.waiters[at + (j - seen)] == all[j]);
                        }
                        lemma_pass_over(all, start.remaining, seen, hit);
                    }
                    let ghost slots = self.waiters@;
                    let waiter = self.waiters.remove(i);
                    proof {
                        assert(waiter_views(self.waiters@) =~= waiter_views(slots).remove(i as int));
                        assert(self@ =~= (AdmissionView { waiters: held.waiters.remove(i as int), ..held }));
                        lemma_charged_within(self@.remaining, waiter.cost, self@.caps);
                    }
                    self.charge(&waiter.cost);
                    let ghost before = permit_views(permits@);
                    permits.push(Permit { node: waiter.node, cost: waiter.cost });
                    proof {
                        let next = pass(all, start.remaining, hit + 1);
                        assert(permit_views(permits@) =~= before.push(all[hit]));
                        assert(self@.waiters =~= next.kept + all.skip(hit + 1));
                        seen = hit + 1;
                    }
                    at = i;
                },
            }
        }
    }

    /// Records that a permit's attempt was given up on. What it holds stays drawn until
    /// its work returns.
    pub fn mark_zombie(&mut self, permit: &Permit)
        ensures
            final(self)@ == (AdmissionView {
                zombies: old(self)@.zombies.push(
                    ZombieView { node: permit@.node, pinned: ZombieCost::of(permit@.cost) },
                ),
                ..old(self)@
            }),
    {
        let ghost before = self@.zombies;
        let pinned = ZombieCost {
            working_memory: permit.cost.working_memory,
            blocking_threads: permit.cost.blocking_threads,
            compute_threads: permit.cost.compute_threads,
        };
        self.zombies.push(ZombieRecord { node: String::from_str(permit.node.as_str()), pinned });
        assert(self@.zombies =~= before.push(ZombieView { node: permit@.node, pinned: ZombieCost::of(permit@.cost) }));
    }

    /// The attempts that were given up on and still run, with what each holds.
    #[must_use]
    pub fn zombie_report(&self) -> (r: ZombieReport)
        ensures
            r.live_zombie_count == self@.zombies.len(),
            zombie_views(r.zombies@) == self@.zombies,
    {
        let mut zombies: Vec<ZombieRecord> = Vec::new();
        let mut i: usize = 0;
        while i < self.zombies.len()
            invariant
                i <= self.zombies.len(),
                zombies.len() == i,
                forall|k: int| 0 <= k < i ==> (#[trigger] zombies@[k])@ == self.zombies@[k]@,
            decreases self.zombies.len() - i,
        {
            zombies.push(
                ZombieRecord { node: String::from_str(self.zombies[i].node.as_str()), pinned: self.zombies[i].pinned },
            );
            i = i + 1;
        }
        assert(zombie_views(zombies@) =~= self@.zombies);
        ZombieReport { live_zombie_count: self.zombies.len(), zombies }
    }

    /// What remains of a pool.
    #[must_use]
    pub fn remaining(&self, pool: Pool) -> (r: u64)
        ensures
            r == self@.remaining.of(pool),
    {
        match pool {
            Pool::Memory => self.remaining_memory,
            Pool::BlockingThreads => self.remaining_blocking as u64,
            Pool::ComputeThreads => self.remaining_compute as u64,
        }
    }

    /// What is counted against a pool: what attempts hold of it and, of memory, what
    /// produced values occupy.
    #[must_use]
    pub fn counted(&self, pool: Pool) -> (r: u64)
        requires
            self@.wf(),
            self@.counted_spec(pool) <= u64::MAX,
        ensures
            r == self@.counted_spec(pool),
    {
        assert(self@.remaining.of(pool) <= self@.caps.total_spec(pool));
        let charged: u64 = self.caps.total(pool) - self.remaining(pool);
        match pool {
            Pool::Memory => match &self.residency {
                Some(ledger) => charged + ledger.current(),
                None => charged,
            },
            _ => charged,
        }
    }

    /// Whether nothing is counted against any pool.
    #[must_use]
    pub fn all_pools_full(&self) -> (r: bool)
        requires
            self@.wf(),
        ensures
            r == forall|pool: Pool| #[trigger] self@.counted_spec(pool) == 0,
    {
        proof {
            assert(self@.remaining.of(Pool::Memory) <= self@.caps.total_spec(Pool::Memory));
            assert(self@.remaining.of(Pool::BlockingThreads) <= self@.caps.total_spec(Pool::BlockingThreads));
            assert(self@.remaining.of(Pool::ComputeThreads) <= self@.caps.total_spec(Pool::ComputeThreads));
        }
        let resident: u64 = match &self.residency {
            Some(ledger) => ledger.current(),
            None => 0,
        };
        let r = self.remaining_memory == self.caps.memory && self.remaining_blocking == self.caps.blocking_threads
            && self.remaining_compute == self.caps.compute_threads && resident == 0;
        proof {
            if r {
                assert forall|pool: Pool| #[trigger] self@.counted_spec(pool) == 0 by {}
            } else {
                assert(self@.counted_spec(Pool::Memory) != 0 || self@.counted_spec(Pool::BlockingThreads) != 0
                    || self@.counted_spec(Pool::ComputeThreads) != 0);
            }
        }
        r
    }

    /// Charges what a produced value occupies against memory, until the lease is given
    /// back. Where no residency ledger is linked, a fresh one is.
    #[must_use]
    pub fn transfer_residency(&mut self, node: &str, bytes: u64) -> (r: ResidencyLease)
        requires
            old(self)@.ledger().current + bytes <= u64::MAX,
        ensures
            r@ == (LeaseView { node: node@, bytes }),
            final(self)@ == (AdmissionView { residency: Some(old(self)@.ledger().charged(bytes)), ..old(self)@ }),
    {
        let ledger = self.residency_ledger();
        ledger.charge(bytes);
        ResidencyLease { node: String::from_str(node), bytes }
    }

    /// Warns if a node declares no working memory while memory constrains the run.
    #[must_use]
    pub fn warn_if_undeclared(&self, node: &str, cost: &PoolCost) -> (r: Option<UndeclaredCostWarning>)
        ensures
            match r {
                Some(w) => self@.caps.memory_constrained && cost.working_memory == 0 && w@ == node@,
                None => !(self@.caps.memory_constrained && cost.working_memory == 0),
            },
    {
        if self.caps.is_memory_constrained() && cost.working_memory == 0 {
            Some(UndeclaredCostWarning { node: String::from_str(node) })
        } else {
            None
        }
    }

    /// Starts the record of how long a node waits and how long it executes.
    #[must_use]
    pub fn begin_wait(&self, node: &str) -> (r: PhaseTiming)
        ensures
            r.node_spec() == node@,
            r.wait_spec()@ == 0,
            r.execution_spec()@ == 0,
    {
        PhaseTiming { node: String::from_str(node), wait: Duration::zero(), execution: Duration::zero() }
    }

    /// How many attempts were given up on and still run.
    #[must_use]
    pub fn zombie_count(&self) -> (r: usize)
        ensures
            r == self@.zombies.len(),
    {
        self.zombies.len()
    }
}

proof fn lemma_charged_within(remaining: Remaining, cost: PoolCost, caps: PoolCapacities)
    requires
        remaining.within(caps),
        remaining.fits(cost),
    ensures
        remaining.charged(cost).within(caps),
{
    assert forall|pool: Pool| #[trigger] remaining.charged(cost).of(pool) <= caps.total_spec(pool) by {
        assert(remaining.of(pool) <= caps.total_spec(pool));
        assert(cost.demand(pool) <= remaining.of(pool));
    }
}

/// Waiting nodes that do not fit are passed over.
proof fn lemma_pass_over(waiters: Seq<WaiterView>, remaining: Remaining, a: int, b: int)
    requires
        0 <= a <= b <= waiters.len(),
        forall|j: int| a <= j < b ==> !pass(waiters, remaining, a).remaining.fits((#[trigger] waiters[j]).cost),
    ensures
        pass(waiters, remaining, b) == (Pass {
            kept: pass(waiters, remaining, a).kept + waiters.subrange(a, b),
            ..pass(waiters, remaining, a)
        }),
    decreases b,
{
    let before = pass(waiters, remaining, a);
    if a < b {
        lemma_pass_over(waiters, remaining, a, b - 1);
        assert(waiters.subrange(a, b) =~= waiters.subrange(a, b - 1).push(waiters[b - 1]));
        assert(before.kept + waiters.subrange(a, b) =~= (before.kept + waiters.subrange(a, b - 1)).push(waiters[b - 1]));
    } else {
        assert(before.kept + waiters.subrange(a, b) =~= before.kept);
    }
}

/// What an admitted attempt holds of the pools. It is given back with
/// [`finish`](Permit::finish) when the attempt's work has actually returned.
#[derive(Debug)]
#[must_use]
pub struct Permit {
    node: String,
    cost: PoolCost,
}

impl View for Permit {
    type V = WaiterView;

    closed spec fn view(&self) -> WaiterView {
        WaiterView { node: self.node@, cost: self.cost }
    }
}

impl Permit {
    /// The node that was admitted.
    #[must_use]
    pub fn node(&self) -> (r: &str)
        ensures
            r@ == self@.node,
    {
        self.node.as_str()
    }

    /// What it holds.
    #[must_use]
    pub fn cost(&self) -> (r: PoolCost)
        ensures
            r == self@.cost,
    {
        self.cost
    }

    /// Gives the permit back to the controller that granted it. The node's oldest record
    /// of an attempt given up on, if any, goes with it.
    pub fn finish(self, controller: &mut AdmissionController)
        requires
            old(controller)@.wf(),
        ensures
            final(controller)@.wf(),
            final(controller)@ == old(controller)@.returned(self@.node, self@.cost),
    {
        let ghost start = controller@;
        controller.release(&self.cost);
        let ghost node = self.node@;
        proof {
            assert forall|pool: Pool| #[trigger] controller@.remaining.of(pool) <= controller@.caps.total_spec(pool) by {
                assert(start.remaining.of(pool) <= start.caps.total_spec(pool));
            }
        }
        let mut i: usize = 0;
        while i < controller.zombies.len()
            invariant
                i <= controller.zombies.len(),
                node == self.node@,
                start == old(controller)@,
                controller@ == (AdmissionView { remaining: start.remaining.released(self@.cost, start.caps), ..start }),
                controller@.wf(),
                self@ == (WaiterView { node, cost: self.cost }),
                start.zombies.len() == controller.zombies.len(),
                forall|j: int| 0 <= j < i ==> (#[trigger] start.zombies[j]).node != node,
            decreases controller.zombies.len() - i,
        {
            assert(controller.zombies@[i as int]@ == start.zombies[i as int]);
            if text::same_text(controller.zombies[i].node.as_str(), self.node.as_str()) {
                let ghost records = controller.zombies@;
                let _gone = controller.zombies.remove(i);
                proof {
                    assert(start.first_zombie(node, i as int));
                    let k = choose|k: int| start.first_zombie(node, k);
                    if k < i {
                        assert(start.zombies[k].node != node);
                    } else if i < k {
                        assert(start.zombies[i as int].node != node);
                    }
                    assert(zombie_views(controller.zombies@) =~= zombie_views(records).remove(i as int));
                    assert(controller@ =~= start.returned(node, self@.cost));
                }
                return;
            }
            i = i + 1;
        }
        proof {
            assert(!exists|k: int| start.first_zombie(node, k));
            assert(controller@ =~= start.returned(node, self@.cost));
        }
    }
}

/// The contents of a [`ResidencyLease`].
pub struct LeaseView {
    pub node: Seq<char>,
    pub bytes: u64,
}

/// What a produced value occupies of memory. It is given back with
/// [`finish`](ResidencyLease::finish) when the value's slot is actually released.
#[derive(Debug)]
#[must_use]
pub struct ResidencyLease {
    node: String,
    bytes: u64,
}

impl View for ResidencyLease {
    type V = LeaseView;

    closed spec fn view(&self) -> LeaseView {
        LeaseView { node: self.node@, bytes: self.bytes }
    }
}

impl ResidencyLease {
    /// The node that produced the value.
    #[must_use]
    pub fn node(&self) -> (r: &str)
        ensures
            r@ == self@.node,
    {
        self.node.as_str()
    }

    /// The bytes that the value occupies.
    #[must_use]
    pub fn bytes(&self) -> (r: u64)
        ensures
            r == self@.bytes,
    {
        self.bytes
    }

    /// Gives the bytes back to the controller that they were charged to.
    pub fn finish(self, controller: &mut AdmissionController)
        requires
            self@.bytes <= old(controller)@.ledger().current,
        ensures
            final(controller)@ == (AdmissionView {
                residency: Some(old(controller)@.ledger().released(self@.bytes)),
                ..old(controller)@
            }),
    {
        let ledger = controller.residency_ledger();
        ledger.release(self.bytes);
    }
}

/// How long an attempt waited for its permit, and how long it executed.
#[derive(Debug, Clone, PartialEq, Eq)]
pub struct PhaseTiming {
    node: String,
    wait: Duration,
    execution: Duration,
}

impl PhaseTiming {
    /// The node's name.
    pub closed spec fn node_spec(self) -> Seq<char> {
        self.node@
    }

    /// How long it waited.
    pub closed spec fn wait_spec(self) -> Duration {
        self.wait
    }

    /// How long it executed.
    pub closed spec fn execution_spec(self) -> Duration {
        self.execution
    }

    /// The node's name.
    #[must_use]
    pub fn node(&self) -> (r: &str)
        ensures
            r@ == self.node_spec(),
    {
        self.node.as_str()
    }

    /// Records how long it waited.
    pub fn record_wait(&mut self, wait: Duration)
        ensures
            final(self).wait_spec() == wait,
            final(self).execution_spec() == old(self).execution_spec(),
            final(self).node_spec() == old(self).node_spec(),
    {
        self.wait = wait;
    }

    /// Records how long it executed.
    pub fn record_execution(&mut self, execution: Duration)
        ensures
            final(self).execution_spec() == execution,
            final(self).wait_spec() == old(self).wait_spec(),
            final(self).node_spec() == old(self).node_spec(),
    {
        self.execution = execution;
    }

    /// How long it waited.
    #[must_use]
    pub fn wait(&self) -> (r: Duration)
        ensures
            r == self.wait_spec(),
    {
        self.wait
    }

    /// How long it executed.
    #[must_use]
    pub fn execution(&self) -> (r: Duration)
        ensures
            r == self.execution_spec(),
    {
        self.execution
    }
}

} // verus!
