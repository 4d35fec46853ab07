//! The limits of the machine, from the files in which the system reports them.
//!
//! Each of the two limits is looked for on its own: in the unified control group
//! hierarchy, in the older one, and last in what the host has. A source that says that
//! there is no limit, or that cannot be read, is passed over.

use super::capacity::CapacityBootstrapFailure;
use super::laws;
use super::pins::PinnedPools;
use crate::admission::PoolCapacities;
use crate::scan;
use crate::text;
use vstd::prelude::*;

verus! {

/// Where the unified hierarchy reports the memory limit, below the root.
pub const FILE_UNIFIED_MEMORY: &'static str = "sys/fs/cgroup/memory.max";

/// Where the unified hierarchy reports the processor limit, below the root.
pub const FILE_UNIFIED_CPU: &'static str = "sys/fs/cgroup/cpu.max";

/// Where the older hierarchy reports the memory limit, below the root.
pub const FILE_SPLIT_MEMORY: &'static str = "sys/fs/cgroup/memory/memory.limit_in_bytes";

/// Where the older hierarchy reports the processor quota, below the root.
pub const FILE_SPLIT_QUOTA: &'static str = "sys/fs/cgroup/cpu/cpu.cfs_quota_us";

/// Where the older hierarchy reports the period of the quota, below the root.
pub const FILE_SPLIT_PERIOD: &'static str = "sys/fs/cgroup/cpu/cpu.cfs_period_us";

/// Where the host reports its memory, below the root.
pub const FILE_HOST_MEMORY: &'static str = "proc/meminfo";

/// What a source writes where there is no limit.
pub const NO_LIMIT: &'static str = "max";

/// What the line of the host's total memory begins with.
pub const TOTAL_LABEL: &'static str = "MemTotal:";

/// The least memory limit of the older hierarchy that means none.
pub const SPLIT_NO_LIMIT: u64 = 18_446_744_069_414_580_224;

/// The memory that the host is taken to have where it does not report any.
pub const HOST_MEMORY_FALLBACK: u64 = 1_073_741_824;

/// What the files held, where they could be read.
#[derive(Debug, Clone)]
pub struct Readings {
    pub unified_memory: Option<String>,
    pub unified_cpu: Option<String>,
    pub split_memory: Option<String>,
    pub split_quota: Option<String>,
    pub split_period: Option<String>,
    pub host_memory: Option<String>,
}

/// What a file held.
pub open spec fn held(reading: Option<String>) -> Option<Seq<char>> {
    match reading {
        Some(s) => Some(s@),
        None => None,
    }
}

/// What the files held.
#[verifier::ext_equal]
pub struct ReadingsView {
    pub unified_memory: Option<Seq<char>>,
    pub unified_cpu: Option<Seq<char>>,
    pub split_memory: Option<Seq<char>>,
    pub split_quota: Option<Seq<char>>,
    pub split_period: Option<Seq<char>>,
    pub host_memory: Option<Seq<char>>,
}

impl View for Readings {
    type V = ReadingsView;

    open spec fn view(&self) -> ReadingsView {
        ReadingsView {
            unified_memory: held(self.unified_memory),
            unified_cpu: held(self.unified_cpu),
            split_memory: held(self.split_memory),
            split_quota: held(self.split_quota),
            split_period: held(self.split_period),
            host_memory: held(self.host_memory),
        }
    }
}

/// What counts of a file: its text without the white space round it, if any is left.
pub open spec fn counted(reading: Option<Seq<char>>) -> Option<Seq<char>> {
    match reading {
        Some(s) => if scan::trimmed(s).len() > 0 {
            Some(scan::trimmed(s))
        } else {
            None
        },
        None => None,
    }
}

/// The threads that a quota in each period comes to: whole ones, rounded down, and none
/// can be told where there is no period or there are too many.
pub open spec fn quota_threads(quota: nat, period: nat) -> Option<u32> {
    if period == 0 || quota / period > u32::MAX {
        None
    } else {
        Some((quota / period) as u32)
    }
}

/// A number of 64 bits, where a text stands for one.
pub open spec fn word64(s: Seq<char>) -> Option<u64> {
    match scan::unsigned(s, u64::MAX as nat) {
        Some(n) => Some(n as u64),
        None => None,
    }
}

/// The memory limit of the unified hierarchy.
pub open spec fn unified_memory(reading: Option<Seq<char>>) -> Option<u64> {
    match counted(reading) {
        Some(s) => if s == NO_LIMIT@ {
            None
        } else {
            word64(s)
        },
        None => None,
    }
}

/// The processor limit of the unified hierarchy: a quota and a period, as two words.
pub open spec fn unified_cpu(reading: Option<Seq<char>>) -> Option<u32> {
    match counted(reading) {
        Some(s) => {
            let quota = scan::first_word(s);
            let period = scan::first_word(scan::after_word(s));
            if quota == NO_LIMIT@ {
                None
            } else {
                match (word64(quota), word64(period)) {
                    (Some(q), Some(p)) => quota_threads(q as nat, p as nat),
                    _ => None,
                }
            }
        },
        None => None,
    }
}

/// The memory limit of the older hierarchy.
pub open spec fn split_memory(reading: Option<Seq<char>>) -> Option<u64> {
    match counted(reading) {
        Some(s) => match word64(s) {
            Some(n) => if n >= SPLIT_NO_LIMIT {
                None
            } else {
                Some(n)
            },
            None => None,
        },
        None => None,
    }
}

/// The processor limit of the older hierarchy: a quota, where a negative one is no limit,
/// and a period.
pub open spec fn split_cpu(quota: Option<Seq<char>>, period: Option<Seq<char>>) -> Option<u32> {
    match (counted(quota), counted(period)) {
        (Some(q), Some(p)) => match (scan::signed(q), word64(p)) {
            (Some(n), Some(m)) => if n < 0 {
                None
            } else {
                quota_threads(n as nat, m as nat)
            },
            _ => None,
        },
        _ => None,
    }
}

/// What follows the label in the first line that begins with it.
pub open spec fn labelled(s: Seq<char>, label: Seq<char>) -> Option<Seq<char>>
    decreases s.len(),
{
    let n = scan::line_len(s) as int;
    if n > s.len() {
        None
    } else if label.is_prefix_of(s.take(n)) {
        Some(s.take(n).skip(label.len() as int))
    } else if n == s.len() {
        None
    } else {
        labelled(s.skip(n + 1), label)
    }
}

/// The host's total memory in bytes, from a report in units of 1024.
pub open spec fn host_total(s: Seq<char>) -> Option<u64> {
    match labelled(s, TOTAL_LABEL@) {
        Some(rest) => match word64(scan::first_word(rest)) {
            Some(n) => if n * 1024 <= u64::MAX {
                Some((n * 1024) as u64)
            } else {
                None
            },
            None => None,
        },
        None => None,
    }
}

/// The host's memory: what it reports, or a fixed amount.
pub open spec fn host_memory(reading: Option<Seq<char>>) -> u64 {
    match counted(reading) {
        Some(s) => match host_total(s) {
            Some(n) => n,
            None => HOST_MEMORY_FALLBACK,
        },
        None => HOST_MEMORY_FALLBACK,
    }
}

/// The limits of the machine.
#[derive(Debug, Clone, Copy, PartialEq, Eq, Structural)]
pub struct RawLimits {
    /// Memory, in bytes.
    pub memory_bytes: u64,
    /// Threads. A fraction of one counts as none.
    pub cpu_threads: u32,
}

/// The limits that files report: the first source that gives one, for each of the two.
pub open spec fn limits_of(readings: ReadingsView, host_cores: u32) -> RawLimits {
    RawLimits {
        memory_bytes: match (unified_memory(readings.unified_memory), split_memory(readings.split_memory)) {
            (Some(n), _) => n,
            (None, Some(n)) => n,
            (None, None) => host_memory(readings.host_memory),
        },
        cpu_threads: match (
            unified_cpu(readings.unified_cpu),
            split_cpu(readings.split_quota, readings.split_period),
        ) {
            (Some(n), _) => n,
            (None, Some(n)) => n,
            (None, None) => host_cores,
        },
    }
}

/// At least one of a pool's units.
pub open spec fn at_least_one(n: int) -> int {
    if n < 1 {
        1
    } else {
        n
    }
}

/// The capacities that pools get: what they are pinned to, or what is kept of the limits,
/// but one unit at least. Both pools of threads go by the processor limit.
pub open spec fn sized(kept: RawLimits, pins: PinnedPools) -> PoolCapacities {
    PoolCapacities {
        memory: match pins.memory {
            Some(n) => n,
            None => at_least_one(kept.memory_bytes as int) as u64,
        },
        memory_constrained: true,
        blocking_threads: match pins.blocking_threads {
            Some(n) => n,
            None => at_least_one(kept.cpu_threads as int) as u32,
        },
        compute_threads: match pins.compute_threads {
            Some(n) => n,
            None => at_least_one(kept.cpu_threads as int) as u32,
        },
    }
}

fn counted_chars(reading: &Option<String>) -> (r: Option<Vec<char>>)
    ensures
        match r {
            Some(s) => counted(held(*reading)) == Some(s@),
            None => counted(held(*reading)) is None,
        },
{
    match reading {
        Some(s) => {
            let chars = scan::trim(&text::chars_of(s.as_str()));
            if chars.len() > 0 {
                Some(chars)
            } else {
                None
            }
        },
        None => None,
    }
}

fn is_no_limit(s: &Vec<char>) -> (r: bool)
    ensures
        r == (s@ == NO_LIMIT@),
{
    let mark = text::chars_of(NO_LIMIT);
    if s.len() != mark.len() {
        return false;
    }
    let same = scan::starts_with(s, &mark);
    assert(s@.subrange(0, s@.len() as int) =~= s@);
    same
}

/// The threads that a quota in each period comes to.
fn threads_from_quota(quota: u64, period: u64) -> (r: Option<u32>)
    ensures
        r == quota_threads(quota as nat, period as nat),
{
    if period == 0 {
        return None;
    }
    let threads: u64 = quota / period;
    if threads > u32::MAX as u64 {
        None
    } else {
        Some(threads as u32)
    }
}

fn read_unified_memory(reading: &Option<String>) -> (r: Option<u64>)
    ensures
        r == unified_memory(held(*reading)),
{
    match counted_chars(reading) {
        Some(s) => if is_no_limit(&s) {
            None
        } else {
            scan::read_unsigned(&s, u64::MAX)
        },
        None => None,
    }
}

fn read_unified_cpu(reading: &Option<String>) -> (r: Option<u32>)
    ensures
        r == unified_cpu(held(*reading)),
{
    let s = match counted_chars(reading) {
        Some(s) => s,
        None => {
            return None;
        },
    };
    match scan::split_word(&s) {
        Some((quota, rest)) => {
            if is_no_limit(&quota) {
                return None;
            }
            let q: u64 = match scan::read_unsigned(&quota, u64::MAX) {
                Some(q) => q,
                None => {
                    return None;
                },
            };
            match scan::split_word(&rest) {
                Some((period, _after)) => match scan::read_unsigned(&period, u64::MAX) {
                    Some(p) => threads_from_quota(q, p),
                    None => None,
                },
                None => None,
            }
        },
        None => None,
    }
}

fn read_split_memory(reading: &Option<String>) -> (r: Option<u64>)
    ensures
        r == split_memory(held(*reading)),
{
    match counted_chars(reading) {
        Some(s) => match scan::read_unsigned(&s, u64::MAX) {
            Some(n) => if n >= SPLIT_NO_LIMIT {
                None
            } else {
                Some(n)
            },
            None => None,
        },
        None => None,
    }
}

fn read_split_cpu(quota: &Option<String>, period: &Option<String>) -> (r: Option<u32>)
    ensures
        r == split_cpu(held(*quota), held(*period)),
{
    let q = match counted_chars(quota) {
        Some(q) => q,
        None => {
            return None;
        },
    };
    let n: i64 = match scan::read_signed(&q) {
        Some(n) => n,
        None => {
            return None;
        },
    };
    if n < 0 {
        return None;
    }
    match counted_chars(period) {
        Some(p) => match scan::read_unsigned(&p, u64::MAX) {
            Some(m) => threads_from_quota(n as u64, m),
            None => None,
        },
        None => None,
    }
}

fn find_labelled(s: &Vec<char>, label: &Vec<char>) -> (r: Option<Vec<char>>)
    ensures
        match r {
            Some(rest) => labelled(s@, label@) == Some(rest@),
            None => labelled(s@, label@) is None,
        },
{
    let mut from: usize = 0;
    assert(s@.skip(0) =~= s@);
    loop
        invariant
            from <= s.len(),
            labelled(s@, label@) == labelled(s@.skip(from as int), label@),
        decreases s.len() - from,
    {
        let to: usize = scan::line_end(s, from);
        let line = scan::part(s, from, to);
        let ghost here = s@.skip(from as int);
        let ghost n = scan::line_len(here) as int;
        assert(here.take(n) =~= line@);
        if scan::starts_with(&line, label) {
            let rest = scan::part(&line, label.len(), line.len());
            assert(rest@ =~= here.take(n).skip(label@.len() as int));
            return Some(rest);
        }
        if to == s.len() {
            return None;
        }
        assert(here.skip(n + 1) =~= s@.skip(to + 1));
        from = to + 1;
    }
}

fn read_host_memory(reading: &Option<String>) -> (r: u64)
    ensures
        r == host_memory(held(*reading)),
{
    let s = match counted_chars(reading) {
        Some(s) => s,
        None => {
            return HOST_MEMORY_FALLBACK;
        },
    };
    match find_labelled(&s, &text::chars_of(TOTAL_LABEL)) {
        Some(rest) => match scan::split_word(&rest) {
            Some((word, _after)) => match scan::read_unsigned(&word, u64::MAX) {
                Some(n) => match n.checked_mul(1024) {
                    Some(bytes) => bytes,
                    None => HOST_MEMORY_FALLBACK,
                },
                None => HOST_MEMORY_FALLBACK,
            },
            None => HOST_MEMORY_FALLBACK,
        },
        None => HOST_MEMORY_FALLBACK,
    }
}

/// What the probe knows.
#[verifier::ext_equal]
pub struct ProbeView {
    pub readings: ReadingsView,
    pub host_cores: u32,
    pub pins: PinnedPools,
}

/// Derives the capacities of the pools from what was read.
#[derive(Debug, Clone)]
pub struct ContainerLimitProbe {
    readings: Readings,
    host_cores: u32,
    pins: PinnedPools,
}

impl View for ContainerLimitProbe {
    type V = ProbeView;

    closed spec fn view(&self) -> ProbeView {
        ProbeView { readings: self.readings@, host_cores: self.host_cores, pins: self.pins }
    }
}

impl ContainerLimitProbe {
    /// A probe on what was read, for a host of one core and without pins.
    #[must_use]
    pub fn from_readings(readings: Readings) -> (r: Self)
        ensures
            r@ == (ProbeView { readings: readings@, host_cores: 1, pins: PinnedPools::none() }),
    {
        ContainerLimitProbe { readings, host_cores: 1, pins: PinnedPools::new() }
    }

    /// Sets how many cores the host has.
    #[must_use]
    pub fn with_host_cores(self, cores: u32) -> (r: Self)
        ensures
            r@ == (ProbeView { host_cores: cores, ..self@ }),
    {
        ContainerLimitProbe { host_cores: cores, ..self }
    }

    /// Sets the pools that are pinned.
    #[must_use]
    pub fn with_pins(self, pins: PinnedPools) -> (r: Self)
        ensures
            r@ == (ProbeView { pins, ..self@ }),
    {
        ContainerLimitProbe { pins, ..self }
    }

    /// The limits of the machine.
    #[must_use]
    pub fn raw_limits(&self) -> (r: RawLimits)
        ensures
            r == limits_of(self@.readings, self@.host_cores),
            forall|n: u64| #[trigger]
                laws::holds_number(self@.readings.unified_memory, n as nat) ==> r.memory_bytes == n,
    {
        proof {
            assert forall|n: u64| #[trigger]
                laws::holds_number(self@.readings.unified_memory, n as nat) implies limits_of(
                self@.readings,
                self@.host_cores,
            ).memory_bytes == n by {
                laws::law_a_reported_memory_limit_is_the_limit(self@.readings, self@.host_cores, n);
            }
        }
        let memory_bytes: u64 = match read_unified_memory(&self.readings.unified_memory) {
            Some(n) => n,
            None => match read_split_memory(&self.readings.split_memory) {
                Some(n) => n,
                None => read_host_memory(&self.readings.host_memory),
            },
        };
        let cpu_threads: u32 = match read_unified_cpu(&self.readings.unified_cpu) {
            Some(n) => n,
            None => match read_split_cpu(&self.readings.split_quota, &self.readings.split_period) {
                Some(n) => n,
                None => self.host_cores,
            },
        };
        RawLimits { memory_bytes, cpu_threads }
    }

    /// The capacities of the pools, where `kept` is what headroom leaves of the limits.
    /// It never fails.
    pub fn detect(&self, kept: RawLimits) -> (r: Result<PoolCapacities, CapacityBootstrapFailure>)
        ensures
            r == Ok::<PoolCapacities, CapacityBootstrapFailure>(sized(kept, self@.pins)),
    {
        let memory: u64 = match self.pins.memory_pin() {
            Some(n) => n,
            None => if kept.memory_bytes < 1 {
                1
            } else {
                kept.memory_bytes
            },
        };
        let threads: u32 = if kept.cpu_threads < 1 {
            1
        } else {
            kept.cpu_threads
        };
        let compute: u32 = match self.pins.compute_threads_pin() {
            Some(n) => n,
            None => threads,
        };
        let blocking: u32 = match self.pins.blocking_threads_pin() {
            Some(n) => n,
            None => threads,
        };
        Ok(PoolCapacities::new().memory(memory).compute_threads(compute).blocking_threads(blocking))
    }
}

} // verus!
