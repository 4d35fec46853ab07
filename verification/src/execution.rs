//! Running attempts: the records that an attempt leaves, what its result means, timeouts,
//! and the retry loop.
//!
//! The work itself is run elsewhere. What is decided here is what is recorded before and
//! after it, what its result is classified as, whether the slot is filled, and whether
//! there is another attempt.

pub mod attempt;
pub mod events;
pub mod jitter;
pub mod laws;
pub mod outcome;
pub mod retry;
pub mod timeout;

use crate::time::Duration;
use vstd::prelude::*;

pub use self::attempt::{classify_and_fill, run_attempt, run_attempt_with_timeout, Attempted};
pub use self::events::{AttemptEvent, AttemptEventSink, EventLog};
pub use self::jitter::{Jitter, NoJitter, SeededJitter};
pub use self::outcome::AttemptOutcome;
pub use self::retry::{run_with_retries, RetryLoop, RetryStep};
pub use self::timeout::{race, LateResultBarrier, TimeoutDecision, ZombieObserver};

verus! {

/// The bit pattern of the growth factor two, as an IEEE 754 double.
pub const FACTOR_TWO_BITS: u64 = 0x4000_0000_0000_0000;

/// A backoff schedule: the base delay, the growth factor per attempt, and the cap.
/// The factor is held as the bit pattern of an IEEE 754 double, and two schedules
/// are the same exactly when base, factor bits and cap are.
#[derive(Debug, Clone, Copy, PartialEq, Eq, Hash, Structural)]
pub struct Backoff {
    pub base: Duration,
    pub factor_bits: u64,
    pub cap: Duration,
}

impl Backoff {
    /// A schedule with the given base delay, growth factor bits and cap.
    #[must_use]
    pub fn new(base: Duration, factor_bits: u64, cap: Duration) -> (r: Self)
        ensures
            r == (Backoff { base, factor_bits, cap }),
    {
        Backoff { base, factor_bits, cap }
    }

    /// The base delay.
    #[must_use]
    pub fn base(&self) -> (r: Duration)
        ensures
            r == self.base,
    {
        self.base
    }

    /// The bit pattern of the growth factor.
    #[must_use]
    pub fn factor_bits(&self) -> (r: u64)
        ensures
            r == self.factor_bits,
    {
        self.factor_bits
    }

    /// The cap.
    #[must_use]
    pub fn cap(&self) -> (r: Duration)
        ensures
            r == self.cap,
    {
        self.cap
    }

    /// The delay before jitter, from the grown base where that is a span: never more
    /// than the cap, and the cap where it is none.
    #[must_use]
    pub fn clamp_nominal(&self, grown: Option<Duration>) -> (r: Duration)
        ensures
            r@ <= self.cap@,
            r == (match grown {
                Some(d) => if d@ <= self.cap@ {
                    d
                } else {
                    self.cap
                },
                None => self.cap,
            }),
    {
        match grown {
            Some(d) => if d.as_nanos() <= self.cap.as_nanos() {
                d
            } else {
                self.cap
            },
            None => self.cap,
        }
    }

    /// The delay after jitter, from the shortened delay where that is a span: never more
    /// than the cap, and made from the delay before jitter where it is none.
    #[must_use]
    pub fn clamp_jittered(&self, nominal: Duration, shortened: Option<Duration>) -> (r: Duration)
        ensures
            r@ <= self.cap@,
            r == (match shortened {
                Some(d) => if d@ <= self.cap@ {
                    d
                } else {
                    self.cap
                },
                None => if nominal@ <= self.cap@ {
                    nominal
                } else {
                    self.cap
                },
            }),
    {
        match shortened {
            Some(d) => self.clamp_nominal(Some(d)),
            None => self.clamp_nominal(Some(nominal)),
        }
    }
}

/// How often a node may be attempted in all, and the backoff between attempts.
#[derive(Debug, Clone, Copy, PartialEq, Eq, Hash, Structural)]
pub struct RetryConfig {
    max_attempts: u32,
    backoff: Backoff,
}

impl RetryConfig {
    /// The number of attempts in all, the first included.
    pub closed spec fn spec_max_attempts(self) -> u32 {
        self.max_attempts
    }

    /// There is at least one attempt.
    #[verifier::type_invariant]
    spec fn wf(self) -> bool {
        self.max_attempts >= 1
    }

    /// The backoff schedule.
    pub closed spec fn spec_backoff(self) -> Backoff {
        self.backoff
    }

    /// Up to `max_attempts` attempts in all, and at least one.
    #[must_use]
    pub fn new(max_attempts: u32, backoff: Backoff) -> (r: Self)
        ensures
            r.spec_max_attempts() == (if max_attempts >= 1 { max_attempts } else { 1 }),
            r.spec_backoff() == backoff,
    {
        RetryConfig { max_attempts: if max_attempts >= 1 { max_attempts } else { 1 }, backoff }
    }

    /// The number of attempts in all, the first included: at least one.
    #[must_use]
    pub fn max_attempts(&self) -> (r: u32)
        ensures
            r == self.spec_max_attempts(),
            r >= 1,
    {
        proof {
            use_type_invariant(self);
        }
        self.max_attempts
    }

    /// The backoff schedule.
    #[must_use]
    pub fn backoff(&self) -> (r: &Backoff)
        ensures
            *r == self.spec_backoff(),
    {
        &self.backoff
    }
}

impl Default for RetryConfig {
    fn default() -> (r: Self)
        ensures
            r.spec_max_attempts() == 1,
            r.spec_backoff().base@ == 0,
            r.spec_backoff().factor_bits == FACTOR_TWO_BITS,
            r.spec_backoff().cap@ == crate::time::MAX_NANOS,
    {
        RetryConfig {
            max_attempts: 1,
            backoff: Backoff::new(Duration::zero(), FACTOR_TWO_BITS, Duration::max()),
        }
    }
}

} // verus!
