//! Sizing the pools of capacity from the limits of the machine, and refusing at bootstrap
//! what can never be admitted.

pub mod capacity;
pub mod laws;
pub mod pins;
pub mod probe;

pub use self::capacity::{detect_capacities, CapacityBootstrapFailure, CapacityError};
pub use self::pins::PinnedPools;
pub use self::probe::{ContainerLimitProbe, RawLimits, Readings};
