//! The core of a typed pipeline framework: handles, dependency binding, flow
//! assembly, readiness, admission, output slots, retries, resume planning and the
//! payload codec, with every decision stated as a contract and proved.

pub mod admission;
pub mod assembly;
pub mod binding;
pub mod bytes;
pub mod context;
pub mod error;
pub mod execution;
pub mod flow;
pub mod handle;
pub mod limits;
pub mod metrics;
pub mod names;
pub mod payload;
pub mod readiness;
pub mod resume;
pub mod scan;
pub mod scratch;
mod sealed;
pub mod slot;
pub mod stable_name;
pub mod task;
pub mod text;
pub mod time;

pub use assembly::{
    AssemblyArtifact, AssemblyError, CostVector, DurableOutput, DurableReferenceMeta, DurableWitness, EffectivePolicy,
    FingerprintSlot, NodePolicy, Problem, ProblemKind, Warning, FINGERPRINT_ALGORITHM_VERSION,
};
pub use binding::{
    BoundInput, CloneOnRead, DataEdge, Deps, EdgeKind, NodeBinding, OrderingEdge, ReceiveMode, RegisteredNode, Shared,
    TriggerRule, MAX_INPUT_ARITY,
};
pub use context::{
    surface_requirements, BootstrapFailure, BootstrapOutcome, CancellationOrigin, CancellationSignal,
    CancellationSource, CoveredNodeStates, DataInterval, LogSpan, MissingResourceError, PipelineId, RegistryError,
    ResourceRegistry, ResourceRegistryBuilder, ResourceRequirement, ResourceRequirements, RunContext,
    RunContextBuilder, RunId, ScratchError, ScratchStore, Secret, TerminalState,
};
pub use error::{RehydrateClass, RehydrateError, TaskError, TaskErrorClass};
pub use execution::{
    run_attempt, run_attempt_with_timeout, run_with_retries, AttemptEvent, AttemptEventSink, AttemptOutcome, Backoff,
    Jitter, LateResultBarrier, NoJitter, RetryConfig, SeededJitter, TimeoutDecision, ZombieObserver,
};
pub use flow::{FailureMode, Flow, Pipeline, PipelineNode, StableTypeNames};
pub use handle::{Handle, NodeId};
pub use limits::{detect_capacities, CapacityBootstrapFailure, CapacityError, ContainerLimitProbe, PinnedPools};
pub use metrics::{AttemptMetrics, AttemptScope, AttributingAllocator, MetricError, MetricValue};
pub use readiness::{evaluate_rule, Decision, ReadinessTracker, RuleOutcome};
pub use resume::{plan_resume, PolicyDiff, PriorNode, PriorRun, ReferenceExistence, ResumePlan, ResumeRefusal};
pub use slot::{
    ConsumerLease, DeliveryMode, FillError, RedeemError, RedemptionHandle, ResidencyLedger, Slot, SlotRef,
};
pub use stable_name::{is_well_formed, StableInputNames, StableName, UNIT_STABLE_NAME};
pub use task::{ExecutionClass, Task};
