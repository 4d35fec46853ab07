//! Capacities that an operator sets outright.

use crate::scan;
use crate::text;
use vstd::prelude::*;

verus! {

/// What the name of a flag that sets a pool begins with.
pub const RESERVED_PREFIX: &'static str = "dagr.pool.";

/// The flag for the memory pool.
pub const KEY_MEMORY: &'static str = "dagr.pool.memory";

/// The flag for the pool of threads for work that blocks.
pub const KEY_BLOCKING: &'static str = "dagr.pool.blocking-threads";

/// The flag for the pool of threads for work that computes.
pub const KEY_COMPUTE: &'static str = "dagr.pool.compute-threads";

/// The pools whose capacity an operator sets outright. The others are sized from what is
/// detected.
#[derive(Debug, Clone, Copy, PartialEq, Eq, Structural)]
pub struct PinnedPools {
    pub memory: Option<u64>,
    pub blocking_threads: Option<u32>,
    pub compute_threads: Option<u32>,
}

/// What is said of a flag that sets no pool.
pub open spec fn outside_text(key: Seq<char>) -> Seq<char> {
    "pinning key `"@ + key + "` is outside the reserved `"@ + RESERVED_PREFIX@
        + "` namespace; only framework-reserved `dagr.`-prefixed pool keys may pin capacity"@
}

/// What is said of a flag for a pool that there is not.
pub open spec fn unknown_text(key: Seq<char>) -> Seq<char> {
    "pinning key `"@ + key + "` is in the reserved namespace but is not a known pool key ("@ + KEY_MEMORY@ + ", "@
        + KEY_BLOCKING@ + ", "@ + KEY_COMPUTE@ + ")"@
}

/// What is said of a value that is no number, or too large a one.
pub open spec fn value_text(key: Seq<char>, value: Seq<char>) -> Seq<char> {
    "pinning value for `"@ + key + "` is not a non-negative integer: `"@ + value + "`"@
}

/// The number that a flag's value stands for.
pub open spec fn flag_number(value: Seq<char>, max: nat) -> Option<nat> {
    scan::unsigned(scan::trimmed(value), max)
}

/// The pins after a flag, or what is said against it.
pub open spec fn flagged(pins: PinnedPools, key: Seq<char>, value: Seq<char>) -> Result<PinnedPools, Seq<char>> {
    if !RESERVED_PREFIX@.is_prefix_of(key) {
        Err(outside_text(key))
    } else if key == KEY_MEMORY@ {
        match flag_number(value, u64::MAX as nat) {
            Some(n) => Ok(PinnedPools { memory: Some(n as u64), ..pins }),
            None => Err(value_text(key, value)),
        }
    } else if key == KEY_BLOCKING@ {
        match flag_number(value, u32::MAX as nat) {
            Some(n) => Ok(PinnedPools { blocking_threads: Some(n as u32), ..pins }),
            None => Err(value_text(key, value)),
        }
    } else if key == KEY_COMPUTE@ {
        match flag_number(value, u32::MAX as nat) {
            Some(n) => Ok(PinnedPools { compute_threads: Some(n as u32), ..pins }),
            None => Err(value_text(key, value)),
        }
    } else {
        Err(unknown_text(key))
    }
}

impl Default for PinnedPools {
    fn default() -> (r: Self)
        ensures
            r == PinnedPools::none(),
    {
        PinnedPools::new()
    }
}

impl PinnedPools {
    /// No pool is set.
    pub open spec fn none() -> Self {
        PinnedPools { memory: None, blocking_threads: None, compute_threads: None }
    }

    /// No pool is set.
    #[must_use]
    pub fn new() -> (r: Self)
        ensures
            r == PinnedPools::none(),
    {
        PinnedPools { memory: None, blocking_threads: None, compute_threads: None }
    }

    /// Sets the memory pool, in bytes.
    #[must_use]
    pub fn memory(self, bytes: u64) -> (r: Self)
        ensures
            r == (PinnedPools { memory: Some(bytes), ..self }),
    {
        PinnedPools { memory: Some(bytes), ..self }
    }

    /// Sets the pool of threads for work that blocks.
    #[must_use]
    pub fn blocking_threads(self, threads: u32) -> (r: Self)
        ensures
            r == (PinnedPools { blocking_threads: Some(threads), ..self }),
    {
        PinnedPools { blocking_threads: Some(threads), ..self }
    }

    /// Sets the pool of threads for work that computes.
    #[must_use]
    pub fn compute_threads(self, threads: u32) -> (r: Self)
        ensures
            r == (PinnedPools { compute_threads: Some(threads), ..self }),
    {
        PinnedPools { compute_threads: Some(threads), ..self }
    }

    /// Sets a pool from a flag. A flag outside the reserved names, or for a pool that
    /// there is not, and a value that is no number, are refused and set nothing.
    pub fn set_flag(&mut self, key: &str, value: &str) -> (r: Result<(), String>)
        ensures
            match flagged(*old(self), key@, value@) {
                Ok(pins) => r is Ok && *final(self) == pins,
                Err(said) => r matches Err(e) && e@ == said && *final(self) == *old(self),
            },
    {
        if !scan::starts_with(&text::chars_of(key), &text::chars_of(RESERVED_PREFIX)) {
            let mut said = String::from_str("pinning key `");
            said.append(key);
            said.append("` is outside the reserved `");
            said.append(RESERVED_PREFIX);
            said.append("` namespace; only framework-reserved `dagr.`-prefixed pool keys may pin capacity");
            return Err(said);
        }
        let number = scan::trim(&text::chars_of(value));
        if text::same_text(key, KEY_MEMORY) {
            match scan::read_unsigned(&number, u64::MAX) {
                Some(n) => {
                    self.memory = Some(n);
                    Ok(())
                },
                None => Err(bad_value(key, value)),
            }
        } else if text::same_text(key, KEY_BLOCKING) {
            match scan::read_unsigned(&number, u32::MAX as u64) {
                Some(n) => {
                    self.blocking_threads = Some(n as u32);
                    Ok(())
                },
                None => Err(bad_value(key, value)),
            }
        } else if text::same_text(key, KEY_COMPUTE) {
            match scan::read_unsigned(&number, u32::MAX as u64) {
                Some(n) => {
                    self.compute_threads = Some(n as u32);
                    Ok(())
                },
                None => Err(bad_value(key, value)),
            }
        } else {
            let mut said = String::from_str("pinning key `");
            said.append(key);
            said.append("` is in the reserved namespace but is not a known pool key (");
            said.append(KEY_MEMORY);
            said.append(", ");
            said.append(KEY_BLOCKING);
            said.append(", ");
            said.append(KEY_COMPUTE);
            said.append(")");
            Err(said)
        }
    }

    /// What the memory pool was set to.
    #[must_use]
    pub fn memory_pin(&self) -> (r: Option<u64>)
        ensures
            r == self.memory,
    {
        self.memory
    }

    /// What the pool of threads for work that blocks was set to.
    #[must_use]
    pub fn blocking_threads_pin(&self) -> (r: Option<u32>)
        ensures
            r == self.blocking_threads,
    {
        self.blocking_threads
    }

    /// What the pool of threads for work that computes was set to.
    #[must_use]
    pub fn compute_threads_pin(&self) -> (r: Option<u32>)
        ensures
            r == self.compute_threads,
    {
        self.compute_threads
    }
}

fn bad_value(key: &str, value: &str) -> (r: String)
    ensures
        r@ == value_text(key@, value@),
{
    let mut said = String::from_str("pinning value for `");
    said.append(key);
    said.append("` is not a non-negative integer: `");
    said.append(value);
    said.append("`");
    said
}

} // verus!
