//! What a metric measured.

use vstd::prelude::*;

verus! {

/// A number. A floating-point number is carried as its bits.
#[derive(Debug, Clone, Copy, PartialEq, Eq, Structural)]
pub enum MetricValue {
    /// A number without a sign.
    Unsigned(u64),
    /// A number that may be negative.
    Signed(i64),
    /// The bits of a floating-point number of 64 bits.
    FloatBits(u64),
}

impl From<u8> for MetricValue {
    fn from(v: u8) -> (r: Self) {
        MetricValue::Unsigned(v as u64)
    }
}

impl vstd::std_specs::convert::FromSpecImpl<u8> for MetricValue {
    open spec fn obeys_from_spec() -> bool {
        true
    }

    open spec fn from_spec(v: u8) -> MetricValue {
        MetricValue::Unsigned(v as u64)
    }
}

impl From<u16> for MetricValue {
    fn from(v: u16) -> (r: Self) {
        MetricValue::Unsigned(v as u64)
    }
}

impl vstd::std_specs::convert::FromSpecImpl<u16> for MetricValue {
    open spec fn obeys_from_spec() -> bool {
        true
    }

    open spec fn from_spec(v: u16) -> MetricValue {
        MetricValue::Unsigned(v as u64)
    }
}

impl From<u32> for MetricValue {
    fn from(v: u32) -> (r: Self) {
        MetricValue::Unsigned(v as u64)
    }
}

impl vstd::std_specs::convert::FromSpecImpl<u32> for MetricValue {
    open spec fn obeys_from_spec() -> bool {
        true
    }

    open spec fn from_spec(v: u32) -> MetricValue {
        MetricValue::Unsigned(v as u64)
    }
}

impl From<u64> for MetricValue {
    fn from(v: u64) -> (r: Self) {
        MetricValue::Unsigned(v as u64)
    }
}

impl vstd::std_specs::convert::FromSpecImpl<u64> for MetricValue {
    open spec fn obeys_from_spec() -> bool {
        true
    }

    open spec fn from_spec(v: u64) -> MetricValue {
        MetricValue::Unsigned(v as u64)
    }
}

impl From<usize> for MetricValue {
    fn from(v: usize) -> (r: Self) {
        MetricValue::Unsigned(v as u64)
    }
}

impl vstd::std_specs::convert::FromSpecImpl<usize> for MetricValue {
    open spec fn obeys_from_spec() -> bool {
        true
    }

    open spec fn from_spec(v: usize) -> MetricValue {
        MetricValue::Unsigned(v as u64)
    }
}

impl From<i8> for MetricValue {
    fn from(v: i8) -> (r: Self) {
        MetricValue::Signed(v as i64)
    }
}

impl vstd::std_specs::convert::FromSpecImpl<i8> for MetricValue {
    open spec fn obeys_from_spec() -> bool {
        true
    }

    open spec fn from_spec(v: i8) -> MetricValue {
        MetricValue::Signed(v as i64)
    }
}

impl From<i16> for MetricValue {
    fn from(v: i16) -> (r: Self) {
        MetricValue::Signed(v as i64)
    }
}

impl vstd::std_specs::convert::FromSpecImpl<i16> for MetricValue {
    open spec fn obeys_from_spec() -> bool {
        true
    }

    open spec fn from_spec(v: i16) -> MetricValue {
        MetricValue::Signed(v as i64)
    }
}

impl From<i32> for MetricValue {
    fn from(v: i32) -> (r: Self) {
        MetricValue::Signed(v as i64)
    }
}

impl vstd::std_specs::convert::FromSpecImpl<i32> for MetricValue {
    open spec fn obeys_from_spec() -> bool {
        true
    }

    open spec fn from_spec(v: i32) -> MetricValue {
        MetricValue::Signed(v as i64)
    }
}

impl From<i64> for MetricValue {
    fn from(v: i64) -> (r: Self) {
        MetricValue::Signed(v as i64)
    }
}

impl vstd::std_specs::convert::FromSpecImpl<i64> for MetricValue {
    open spec fn obeys_from_spec() -> bool {
        true
    }

    open spec fn from_spec(v: i64) -> MetricValue {
        MetricValue::Signed(v as i64)
    }
}

impl From<isize> for MetricValue {
    fn from(v: isize) -> (r: Self) {
        MetricValue::Signed(v as i64)
    }
}

impl vstd::std_specs::convert::FromSpecImpl<isize> for MetricValue {
    open spec fn obeys_from_spec() -> bool {
        true
    }

    open spec fn from_spec(v: isize) -> MetricValue {
        MetricValue::Signed(v as i64)
    }
}

/// A number is taken as it is: one without a sign as such, and one with a sign as such.
pub proof fn law_numbers_are_taken_as_they_are(
    a: u8,
    b: u16,
    c: u32,
    d: u64,
    e: usize,
    f: i8,
    g: i16,
    h: i32,
    i: i64,
)
    ensures
        <MetricValue as vstd::std_specs::convert::FromSpec<u8>>::from_spec(a) == MetricValue::Unsigned(a as u64),
        <MetricValue as vstd::std_specs::convert::FromSpec<u16>>::from_spec(b) == MetricValue::Unsigned(b as u64),
        <MetricValue as vstd::std_specs::convert::FromSpec<u32>>::from_spec(c) == MetricValue::Unsigned(c as u64),
        <MetricValue as vstd::std_specs::convert::FromSpec<u64>>::from_spec(d) == MetricValue::Unsigned(d),
        <MetricValue as vstd::std_specs::convert::FromSpec<usize>>::from_spec(e) == MetricValue::Unsigned(e as u64),
        <MetricValue as vstd::std_specs::convert::FromSpec<i8>>::from_spec(f) == MetricValue::Signed(f as i64),
        <MetricValue as vstd::std_specs::convert::FromSpec<i16>>::from_spec(g) == MetricValue::Signed(g as i64),
        <MetricValue as vstd::std_specs::convert::FromSpec<i32>>::from_spec(h) == MetricValue::Signed(h as i64),
        <MetricValue as vstd::std_specs::convert::FromSpec<i64>>::from_spec(i) == MetricValue::Signed(i),
{
}

} // verus!
