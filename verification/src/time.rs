//! Spans of time as whole nanoseconds.

use vstd::prelude::*;

verus! {

/// The longest span: `2^64 - 1` seconds and 999 999 999 nanoseconds.
pub const MAX_NANOS: u128 = 18_446_744_073_709_551_615_999_999_999;

/// A span of time.
#[derive(Debug, Clone, Copy, PartialEq, Eq, Hash, Structural)]
pub struct Duration {
    nanos: u128,
}

impl View for Duration {
    type V = nat;

    closed spec fn view(&self) -> nat {
        self.nanos as nat
    }
}

/// Two spans of one length are one span.
pub broadcast proof fn lemma_duration_ext(a: Duration, b: Duration)
    requires
        #[trigger] a.view() == #[trigger] b.view(),
    ensures
        a == b,
{
}

impl Duration {
    /// The empty span.
    #[must_use]
    pub fn zero() -> (r: Self)
        ensures
            r@ == 0,
    {
        Duration { nanos: 0 }
    }

    /// The longest span.
    #[must_use]
    pub fn max() -> (r: Self)
        ensures
            r@ == MAX_NANOS,
    {
        Duration { nanos: MAX_NANOS }
    }

    /// The span of `nanos` nanoseconds, or the longest span where that is shorter.
    #[must_use]
    pub fn from_nanos(nanos: u128) -> (r: Self)
        ensures
            r@ == (if nanos <= MAX_NANOS { nanos } else { MAX_NANOS }),
    {
        if nanos <= MAX_NANOS {
            Duration { nanos }
        } else {
            Duration { nanos: MAX_NANOS }
        }
    }

    /// The span of `millis` milliseconds.
    #[must_use]
    pub fn from_millis(millis: u64) -> (r: Self)
        ensures
            r@ == millis * 1_000_000,
    {
        Duration { nanos: millis as u128 * 1_000_000 }
    }

    /// The span in nanoseconds.
    #[must_use]
    pub fn as_nanos(&self) -> (r: u128)
        ensures
            r == self@,
    {
        self.nanos
    }
}

} // verus!
