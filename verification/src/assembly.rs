//! Flow assembly: node policy, the checks that need the whole pipeline, and what
//! the runtime is given precomputed.

pub mod artifact;
pub mod checks;
pub mod decoding;
pub mod encoding;
pub mod format;
pub mod graph;
pub mod laws;
pub mod problem;
pub mod promises;

pub use self::artifact::AssemblyArtifact;
pub use self::problem::{AssemblyError, Problem, ProblemKind, Warning};

use crate::binding::TriggerRule;
use crate::error::RehydrateError;
use crate::execution::{Backoff, RetryConfig, FACTOR_TWO_BITS};
use crate::task::ExecutionClass;
use crate::time::Duration;
use vstd::prelude::*;

verus! {

/// The version of the fingerprint algorithm.
pub const FINGERPRINT_ALGORITHM_VERSION: u64 = 1;

/// What the output type of a durable node offers: a reference to where a value is
/// stored, and the way back from such a reference.
pub trait DurableOutput: Sized {
    /// Names a value that has already been stored.
    fn serialize_reference(&self) -> String;

    /// Reconstructs the value that a reference names.
    fn rehydrate(reference: &str) -> Result<Self, RehydrateError>;

    /// Describes the reference; nothing unless the type says otherwise.
    fn durable_reference_meta(&self) -> (r: Option<DurableReferenceMeta>)
        default_ensures
            r is None,
    {
        None
    }
}

/// Optional facts about a durable reference.
#[derive(Debug, Clone, PartialEq, Eq)]
pub struct DurableReferenceMeta {
    content_hash: Option<String>,
    size_bytes: Option<u64>,
    scheme: Option<String>,
    produced_at_offset_ns: Option<u64>,
}

/// The contents of a [`DurableReferenceMeta`].
#[verifier::ext_equal]
pub struct DurableReferenceMetaView {
    pub content_hash: Option<Seq<char>>,
    pub size_bytes: Option<u64>,
    pub scheme: Option<Seq<char>>,
    pub produced_at_offset_ns: Option<u64>,
}

/// The text in an optional string.
pub open spec fn text_of(s: Option<String>) -> Option<Seq<char>> {
    match s {
        Some(t) => Some(t@),
        None => None,
    }
}

fn opt_str(s: &Option<String>) -> (r: Option<&str>)
    ensures
        match r {
            Some(t) => text_of(*s) == Some(t@),
            None => text_of(*s) is None,
        },
{
    match s {
        Some(t) => Some(t.as_str()),
        None => None,
    }
}

impl View for DurableReferenceMeta {
    type V = DurableReferenceMetaView;

    closed spec fn view(&self) -> DurableReferenceMetaView {
        DurableReferenceMetaView {
            content_hash: text_of(self.content_hash),
            size_bytes: self.size_bytes,
            scheme: text_of(self.scheme),
            produced_at_offset_ns: self.produced_at_offset_ns,
        }
    }
}

impl Default for DurableReferenceMeta {
    fn default() -> (r: Self)
        ensures
            r@ == (DurableReferenceMetaView {
                content_hash: None,
                size_bytes: None,
                scheme: None,
                produced_at_offset_ns: None,
            }),
    {
        DurableReferenceMeta::new()
    }
}

impl DurableReferenceMeta {
    /// Nothing stated.
    #[must_use]
    pub fn new() -> (r: Self)
        ensures
            r@ == (DurableReferenceMetaView {
                content_hash: None,
                size_bytes: None,
                scheme: None,
                produced_at_offset_ns: None,
            }),
    {
        DurableReferenceMeta { content_hash: None, size_bytes: None, scheme: None, produced_at_offset_ns: None }
    }

    /// States the content hash.
    #[must_use]
    pub fn content_hash(self, hash: &str) -> (r: Self)
        ensures
            r@ == (DurableReferenceMetaView { content_hash: Some(hash@), ..self@ }),
    {
        DurableReferenceMeta { content_hash: Some(String::from_str(hash)), ..self }
    }

    /// States the size in bytes.
    #[must_use]
    pub fn size_bytes(self, bytes: u64) -> (r: Self)
        ensures
            r@ == (DurableReferenceMetaView { size_bytes: Some(bytes), ..self@ }),
    {
        DurableReferenceMeta { size_bytes: Some(bytes), ..self }
    }

    /// States the scheme.
    #[must_use]
    pub fn scheme(self, scheme: &str) -> (r: Self)
        ensures
            r@ == (DurableReferenceMetaView { scheme: Some(scheme@), ..self@ }),
    {
        DurableReferenceMeta { scheme: Some(String::from_str(scheme)), ..self }
    }

    /// States when the reference was written, in nanoseconds from the run's start.
    #[must_use]
    pub fn produced_at_offset_ns(self, offset_ns: u64) -> (r: Self)
        ensures
            r@ == (DurableReferenceMetaView { produced_at_offset_ns: Some(offset_ns), ..self@ }),
    {
        DurableReferenceMeta { produced_at_offset_ns: Some(offset_ns), ..self }
    }

    /// The content hash, if stated.
    #[must_use]
    pub fn get_content_hash(&self) -> (r: Option<&str>)
        ensures
            match r {
                Some(t) => self@.content_hash == Some(t@),
                None => self@.content_hash is None,
            },
    {
        opt_str(&self.content_hash)
    }

    /// The size in bytes, if stated.
    #[must_use]
    pub fn get_size_bytes(&self) -> (r: Option<u64>)
        ensures
            r == self@.size_bytes,
    {
        self.size_bytes
    }

    /// The scheme, if stated.
    #[must_use]
    pub fn get_scheme(&self) -> (r: Option<&str>)
        ensures
            match r {
                Some(t) => self@.scheme == Some(t@),
                None => self@.scheme is None,
            },
    {
        opt_str(&self.scheme)
    }

    /// When the reference was written, if stated.
    #[must_use]
    pub fn get_produced_at_offset_ns(&self) -> (r: Option<u64>)
        ensures
            r == self@.produced_at_offset_ns,
    {
        self.produced_at_offset_ns
    }

    /// Whether nothing is stated.
    #[must_use]
    pub fn is_empty(&self) -> (r: bool)
        ensures
            r == (self@.content_hash is None && self@.size_bytes is None && self@.scheme is None
                && self@.produced_at_offset_ns is None),
    {
        self.content_hash.is_none() && self.size_bytes.is_none() && self.scheme.is_none()
            && self.produced_at_offset_ns.is_none()
    }
}

/// Whether a node's output type is known to implement [`DurableOutput`].
#[derive(Debug, Clone, Copy, PartialEq, Eq, Structural)]
pub enum DurableWitness {
    /// It is.
    Present,
    /// It is not.
    Absent,
}

/// Whether `T` is the unit type, by `std::any::TypeId::of`, which gives two types
/// one identifier exactly when they are one type. Stated of the answer: a type that
/// is the unit type takes no space. Which types the answer is `false` for is not
/// stated, since no clause can compare two types.
#[verifier::external_body]
#[must_use]
pub fn output_is_unit<T: 'static>() -> (r: bool)
    ensures
        r ==> vstd::layout::size_of::<T>() == 0,
{
    std::any::TypeId::of::<T>() == std::any::TypeId::of::<()>()
}

/// What a node declares to draw from each pool.
#[derive(Debug, Clone, Copy, PartialEq, Eq, Hash, Structural)]
pub struct CostVector {
    pub working_memory: u64,
    pub output_residency: u64,
    pub blocking_threads: u32,
    pub compute_threads: u32,
}

impl Default for CostVector {
    fn default() -> (r: Self)
        ensures
            r == CostVector::zero(),
    {
        CostVector { working_memory: 0, output_residency: 0, blocking_threads: 0, compute_threads: 0 }
    }
}

impl CostVector {
    /// Nothing from any pool.
    pub open spec fn zero() -> Self {
        CostVector { working_memory: 0, output_residency: 0, blocking_threads: 0, compute_threads: 0 }
    }

    /// Whether nothing is drawn from any pool.
    #[must_use]
    pub fn is_zero(&self) -> (r: bool)
        ensures
            r == (*self == CostVector::zero()),
    {
        self.working_memory == 0 && self.output_residency == 0 && self.blocking_threads == 0
            && self.compute_threads == 0
    }

    /// Working memory in bytes.
    #[must_use]
    pub fn working_memory(&self) -> (r: u64)
        ensures
            r == self.working_memory,
    {
        self.working_memory
    }

    /// Output residency in bytes.
    #[must_use]
    pub fn output_residency(&self) -> (r: u64)
        ensures
            r == self.output_residency,
    {
        self.output_residency
    }

    /// Threads of the blocking pool.
    #[must_use]
    pub fn blocking_threads(&self) -> (r: u32)
        ensures
            r == self.blocking_threads,
    {
        self.blocking_threads
    }

    /// Threads of the compute pool.
    #[must_use]
    pub fn compute_threads(&self) -> (r: u32)
        ensures
            r == self.compute_threads,
    {
        self.compute_threads
    }
}

/// The operational knobs of a node.
#[derive(Debug, Clone, Copy, PartialEq, Eq, Structural)]
pub struct NodePolicy {
    pub durable: bool,
    pub retained: bool,
    pub retries: u32,
    pub backoff: Backoff,
    pub timeout: Option<Duration>,
    pub teardown: bool,
    pub cost: CostVector,
    pub class_override: Option<ExecutionClass>,
}

fn default_backoff() -> (r: Backoff)
    ensures
        r.base@ == 100_000_000,
        r.factor_bits == FACTOR_TWO_BITS,
        r.cap@ == crate::time::MAX_NANOS,
{
    Backoff::new(Duration::from_millis(100), FACTOR_TWO_BITS, Duration::max())
}

impl NodePolicy {
    /// Whether this is the policy of a node that states none: not durable, not
    /// retained, no retries, a backoff from a tenth of a second that doubles without
    /// a cap, no timeout, no teardown, no cost, and the declared class.
    pub open spec fn is_default(self) -> bool {
        &&& !self.durable
        &&& !self.retained
        &&& self.retries == 0
        &&& self.backoff.base@ == 100_000_000
        &&& self.backoff.factor_bits == FACTOR_TWO_BITS
        &&& self.backoff.cap@ == crate::time::MAX_NANOS
        &&& self.timeout is None
        &&& !self.teardown
        &&& self.cost == CostVector::zero()
        &&& self.class_override is None
    }
}

impl Default for NodePolicy {
    fn default() -> (r: Self)
        ensures
            r.is_default(),
    {
        NodePolicy {
            durable: false,
            retained: false,
            retries: 0,
            backoff: default_backoff(),
            timeout: None,
            teardown: false,
            cost: CostVector::default(),
            class_override: None,
        }
    }
}

impl NodePolicy {
    /// The policy of a node that states none.
    #[must_use]
    pub fn new() -> (r: Self)
        ensures
            r.is_default(),
    {
        NodePolicy::default()
    }

    /// Marks the output durable, or not.
    #[must_use]
    pub fn durable(self, durable: bool) -> (r: Self)
        ensures
            r == (NodePolicy { durable, ..self }),
    {
        NodePolicy { durable, ..self }
    }

    /// Marks the output retained, or not.
    #[must_use]
    pub fn retained(self, retained: bool) -> (r: Self)
        ensures
            r == (NodePolicy { retained, ..self }),
    {
        NodePolicy { retained, ..self }
    }

    /// Sets the number of retries beyond the first attempt.
    #[must_use]
    pub fn retries(self, retries: u32) -> (r: Self)
        ensures
            r == (NodePolicy { retries, ..self }),
    {
        NodePolicy { retries, ..self }
    }

    /// Sets the backoff schedule.
    #[must_use]
    pub fn backoff(self, backoff: Backoff) -> (r: Self)
        ensures
            r == (NodePolicy { backoff, ..self }),
    {
        NodePolicy { backoff, ..self }
    }

    /// Sets the time each attempt has.
    #[must_use]
    pub fn timeout(self, timeout: Duration) -> (r: Self)
        ensures
            r == (NodePolicy { timeout: Some(timeout), ..self }),
    {
        NodePolicy { timeout: Some(timeout), ..self }
    }

    /// Gives attempts unlimited time.
    #[must_use]
    pub fn timeout_off(self) -> (r: Self)
        ensures
            r == (NodePolicy { timeout: None, ..self }),
    {
        NodePolicy { timeout: None, ..self }
    }

    /// Marks the node a teardown, or not.
    #[must_use]
    pub fn teardown(self, teardown: bool) -> (r: Self)
        ensures
            r == (NodePolicy { teardown, ..self }),
    {
        NodePolicy { teardown, ..self }
    }

    /// Sets the working memory in bytes.
    #[must_use]
    pub fn working_memory(self, bytes: u64) -> (r: Self)
        ensures
            r == (NodePolicy { cost: CostVector { working_memory: bytes, ..self.cost }, ..self }),
    {
        NodePolicy { cost: CostVector { working_memory: bytes, ..self.cost }, ..self }
    }

    /// Sets the output residency in bytes.
    #[must_use]
    pub fn output_residency(self, bytes: u64) -> (r: Self)
        ensures
            r == (NodePolicy { cost: CostVector { output_residency: bytes, ..self.cost }, ..self }),
    {
        NodePolicy { cost: CostVector { output_residency: bytes, ..self.cost }, ..self }
    }

    /// Sets the number of threads of the blocking pool.
    #[must_use]
    pub fn blocking_threads(self, threads: u32) -> (r: Self)
        ensures
            r == (NodePolicy { cost: CostVector { blocking_threads: threads, ..self.cost }, ..self }),
    {
        NodePolicy { cost: CostVector { blocking_threads: threads, ..self.cost }, ..self }
    }

    /// Sets the number of threads of the compute pool.
    #[must_use]
    pub fn compute_threads(self, threads: u32) -> (r: Self)
        ensures
            r == (NodePolicy { cost: CostVector { compute_threads: threads, ..self.cost }, ..self }),
    {
        NodePolicy { cost: CostVector { compute_threads: threads, ..self.cost }, ..self }
    }

    /// Overrides the execution class.
    #[must_use]
    pub fn execution_class(self, class: ExecutionClass) -> (r: Self)
        ensures
            r == (NodePolicy { class_override: Some(class), ..self }),
    {
        NodePolicy { class_override: Some(class), ..self }
    }

    /// Whether the output is durable.
    #[must_use]
    pub fn is_durable(&self) -> (r: bool)
        ensures
            r == self.durable,
    {
        self.durable
    }

    /// Whether the output is retained.
    #[must_use]
    pub fn is_retained(&self) -> (r: bool)
        ensures
            r == self.retained,
    {
        self.retained
    }

    /// The number of retries beyond the first attempt.
    #[must_use]
    pub fn retry_count(&self) -> (r: u32)
        ensures
            r == self.retries,
    {
        self.retries
    }

    /// The backoff schedule.
    #[must_use]
    pub fn backoff_shape(&self) -> (r: Backoff)
        ensures
            r == self.backoff,
    {
        self.backoff
    }

    /// The time each attempt has, if it is limited.
    #[must_use]
    pub fn timeout_budget(&self) -> (r: Option<Duration>)
        ensures
            r == self.timeout,
    {
        self.timeout
    }

    /// The retry configuration of the attempt runner: one attempt more than there
    /// are retries, where that number fits.
    #[must_use]
    pub fn retry_config(&self) -> (r: RetryConfig)
        ensures
            r.spec_max_attempts() == (if self.retries < u32::MAX {
                self.retries + 1
            } else {
                u32::MAX as int
            }),
            r.spec_backoff() == self.backoff,
    {
        RetryConfig::new(self.retries.saturating_add(1), self.backoff)
    }

    /// Whether the node is a teardown.
    #[must_use]
    pub fn is_teardown(&self) -> (r: bool)
        ensures
            r == self.teardown,
    {
        self.teardown
    }

    /// The declared cost.
    #[must_use]
    pub fn cost(&self) -> (r: CostVector)
        ensures
            r == self.cost,
    {
        self.cost
    }

    /// The overriding execution class, if any.
    #[must_use]
    pub fn class_override(&self) -> (r: Option<ExecutionClass>)
        ensures
            r == self.class_override,
    {
        self.class_override
    }
}

/// The fingerprints of a pipeline: of its structure and of its policies, and the
/// version of the algorithm that made them.
#[derive(Debug, Clone, Copy, PartialEq, Eq, Structural)]
pub struct FingerprintSlot {
    pub structural: u64,
    pub policy: u64,
    pub algorithm_version: u64,
}

impl FingerprintSlot {
    /// The structural fingerprint.
    #[must_use]
    pub fn structural(&self) -> (r: u64)
        ensures
            r == self.structural,
    {
        self.structural
    }

    /// The policy hash.
    #[must_use]
    pub fn policy(&self) -> (r: u64)
        ensures
            r == self.policy,
    {
        self.policy
    }

    /// The version of the algorithm.
    #[must_use]
    pub fn algorithm_version(&self) -> (r: u64)
        ensures
            r == self.algorithm_version,
    {
        self.algorithm_version
    }
}

/// A node's policy with every default written out, and the trigger rule and group
/// label that stand beside it.
#[derive(Debug, Clone, PartialEq, Eq)]
pub struct EffectivePolicy {
    policy: NodePolicy,
    effective_class: ExecutionClass,
    trigger_rule: TriggerRule,
    group: Option<String>,
}

/// The contents of an [`EffectivePolicy`].
#[verifier::ext_equal]
pub struct EffectivePolicyView {
    pub policy: NodePolicy,
    pub effective_class: ExecutionClass,
    pub trigger_rule: TriggerRule,
    pub group: Option<Seq<char>>,
}

impl View for EffectivePolicy {
    type V = EffectivePolicyView;

    closed spec fn view(&self) -> EffectivePolicyView {
        EffectivePolicyView {
            policy: self.policy,
            effective_class: self.effective_class,
            trigger_rule: self.trigger_rule,
            group: text_of(self.group),
        }
    }
}

impl EffectivePolicy {
    pub(crate) fn resolve(
        policy: NodePolicy,
        effective_class: ExecutionClass,
        trigger_rule: TriggerRule,
        group: Option<&str>,
    ) -> (r: Self)
        ensures
            r@ == (EffectivePolicyView {
                policy,
                effective_class,
                trigger_rule,
                group: match group {
                    Some(g) => Some(g@),
                    None => None,
                },
            }),
    {
        let group = match group {
            Some(g) => Some(String::from_str(g)),
            None => None,
        };
        EffectivePolicy { policy, effective_class, trigger_rule, group }
    }

    /// The number of retries beyond the first attempt.
    #[must_use]
    pub fn retry_count(&self) -> (r: u32)
        ensures
            r == self@.policy.retries,
    {
        self.policy.retry_count()
    }

    /// The backoff schedule.
    #[must_use]
    pub fn backoff(&self) -> (r: Backoff)
        ensures
            r == self@.policy.backoff,
    {
        self.policy.backoff_shape()
    }

    /// The retry configuration of the attempt runner.
    #[must_use]
    pub fn retry_config(&self) -> (r: RetryConfig)
        ensures
            r.spec_max_attempts() == (if self@.policy.retries < u32::MAX {
                self@.policy.retries + 1
            } else {
                u32::MAX as int
            }),
            r.spec_backoff() == self@.policy.backoff,
    {
        self.policy.retry_config()
    }

    /// The time each attempt has, if it is limited.
    #[must_use]
    pub fn timeout(&self) -> (r: Option<Duration>)
        ensures
            r == self@.policy.timeout,
    {
        self.policy.timeout_budget()
    }

    /// The declared cost.
    #[must_use]
    pub fn cost(&self) -> (r: CostVector)
        ensures
            r == self@.policy.cost,
    {
        self.policy.cost()
    }

    /// The execution class: the overriding one, else the declared one.
    #[must_use]
    pub fn execution_class(&self) -> (r: ExecutionClass)
        ensures
            r == self@.effective_class,
    {
        self.effective_class
    }

    /// The trigger rule.
    #[must_use]
    pub fn trigger_rule(&self) -> (r: TriggerRule)
        ensures
            r == self@.trigger_rule,
    {
        self.trigger_rule
    }

    /// The group label, if any.
    #[must_use]
    pub fn group(&self) -> (r: Option<&str>)
        ensures
            match r {
                Some(t) => self@.group == Some(t@),
                None => self@.group is None,
            },
    {
        opt_str(&self.group)
    }

    /// Whether the output is retained.
    #[must_use]
    pub fn is_retained(&self) -> (r: bool)
        ensures
            r == self@.policy.retained,
    {
        self.policy.is_retained()
    }

    /// Whether the output is durable.
    #[must_use]
    pub fn is_durable(&self) -> (r: bool)
        ensures
            r == self@.policy.durable,
    {
        self.policy.is_durable()
    }

    /// Whether the node is a teardown.
    #[must_use]
    pub fn is_teardown(&self) -> (r: bool)
        ensures
            r == self@.policy.teardown,
    {
        self.policy.is_teardown()
    }
}

} // verus!
