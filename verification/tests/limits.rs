use dagr_core::admission::{Pool, PoolCapacities, PoolCost};
use dagr_core::context::BootstrapOutcome;
use dagr_core::limits::{detect_capacities, ContainerLimitProbe, PinnedPools, RawLimits, Readings};

fn nothing() -> Readings {
    Readings {
        unified_memory: None,
        unified_cpu: None,
        split_memory: None,
        split_quota: None,
        split_period: None,
        host_memory: None,
    }
}

fn text(s: &str) -> Option<String> {
    Some(s.to_string())
}

fn limits(readings: Readings) -> RawLimits {
    ContainerLimitProbe::from_readings(readings).with_host_cores(16).raw_limits()
}

#[test]
fn unified_limits_come_first() {
    let r = limits(Readings {
        unified_memory: text("1048576\n"),
        unified_cpu: text("250000 100000\n"),
        split_memory: text("7"),
        split_quota: text("900000"),
        split_period: text("100000"),
        host_memory: text("MemTotal: 9 kB"),
    });
    assert_eq!(r, RawLimits { memory_bytes: 1_048_576, cpu_threads: 2 });
}

#[test]
fn older_limits_come_second() {
    let r = limits(Readings {
        unified_memory: text("max"),
        unified_cpu: text("max 100000"),
        split_memory: text(" 2097152 "),
        split_quota: text("400000"),
        split_period: text("100000"),
        host_memory: text("MemTotal: 9 kB"),
    });
    assert_eq!(r, RawLimits { memory_bytes: 2_097_152, cpu_threads: 4 });
}

#[test]
fn the_host_comes_last() {
    let r = limits(Readings { host_memory: text("MemFree: 1 kB\nMemTotal:       2048 kB\n"), ..nothing() });
    assert_eq!(r, RawLimits { memory_bytes: 2048 * 1024, cpu_threads: 16 });
    assert_eq!(limits(nothing()), RawLimits { memory_bytes: 1_073_741_824, cpu_threads: 16 });
    let one = ContainerLimitProbe::from_readings(nothing()).raw_limits();
    assert_eq!(one.cpu_threads, 1);
}

#[test]
fn the_two_limits_fall_back_on_their_own() {
    let r = limits(Readings { unified_memory: text("max"), unified_cpu: text("100000 100000"), ..nothing() });
    assert_eq!(r, RawLimits { memory_bytes: 1_073_741_824, cpu_threads: 1 });
    let r = limits(Readings { unified_memory: text("512"), unified_cpu: text("max 100000"), ..nothing() });
    assert_eq!(r, RawLimits { memory_bytes: 512, cpu_threads: 16 });
}

#[test]
fn what_is_no_limit_is_passed_over() {
    let threshold: u64 = u64::MAX / 4096 * 4096 - 4_294_967_296;
    let at = limits(Readings { split_memory: Some(threshold.to_string()), ..nothing() });
    assert_eq!(at.memory_bytes, 1_073_741_824);
    let below = limits(Readings { split_memory: Some((threshold - 1).to_string()), ..nothing() });
    assert_eq!(below.memory_bytes, threshold - 1);
    let quota = limits(Readings { split_quota: text("-1"), split_period: text("100000"), ..nothing() });
    assert_eq!(quota.cpu_threads, 16);
}

#[test]
fn what_cannot_be_read_is_passed_over() {
    for bad in ["", "  ", "12x", "-5", "18446744073709551616", "max 1", "1 2"] {
        let r = limits(Readings { unified_memory: text(bad), ..nothing() });
        assert_eq!(r.memory_bytes, 1_073_741_824, "{}", bad);
    }
    for bad in ["", "100000", "abc 100000", "100000 abc", "100000 0", "18446744073709551615 1"] {
        let r = limits(Readings { unified_cpu: text(bad), ..nothing() });
        assert_eq!(r.cpu_threads, 16, "{}", bad);
    }
    let r = limits(Readings { split_quota: text("200000"), ..nothing() });
    assert_eq!(r.cpu_threads, 16);
    let r = limits(Readings { host_memory: text("MemTotal: lots\nMemTotal: 5 kB"), ..nothing() });
    assert_eq!(r.memory_bytes, 1_073_741_824);
    let r = limits(Readings { host_memory: text("MemTotal: 18446744073709551615 kB"), ..nothing() });
    assert_eq!(r.memory_bytes, 1_073_741_824);
    let r = limits(Readings { unified_memory: text("+99"), ..nothing() });
    assert_eq!(r.memory_bytes, 99);
}

#[test]
fn a_fraction_of_a_core_still_gives_a_thread() {
    let probe = ContainerLimitProbe::from_readings(Readings { unified_cpu: text("50000 100000"), ..nothing() });
    assert_eq!(probe.raw_limits().cpu_threads, 0);
    let caps = probe.detect(RawLimits { memory_bytes: 0, cpu_threads: 0 }).unwrap();
    assert_eq!(caps.total(Pool::Memory), 1);
    assert_eq!(caps.total(Pool::BlockingThreads), 1);
    assert_eq!(caps.total(Pool::ComputeThreads), 1);
    assert!(caps.is_memory_constrained());
}

#[test]
fn pins_override_what_is_detected() {
    let pins = PinnedPools::new().memory(4096).compute_threads(0);
    let probe = ContainerLimitProbe::from_readings(nothing()).with_pins(pins);
    let caps = probe.detect(RawLimits { memory_bytes: 800, cpu_threads: 3 }).unwrap();
    assert_eq!(caps.total(Pool::Memory), 4096);
    assert_eq!(caps.total(Pool::BlockingThreads), 3);
    assert_eq!(caps.total(Pool::ComputeThreads), 0);
    assert_eq!(pins.memory_pin(), Some(4096));
    assert_eq!(pins.blocking_threads_pin(), None);
    assert_eq!(pins.blocking_threads(9).blocking_threads_pin(), Some(9));
    assert_eq!(pins.compute_threads_pin(), Some(0));
}

#[test]
fn flags_set_pins() {
    let mut pins = PinnedPools::default();
    assert!(pins.set_flag("dagr.pool.memory", " 1024 ").is_ok());
    assert!(pins.set_flag("dagr.pool.blocking-threads", "8").is_ok());
    assert!(pins.set_flag("dagr.pool.compute-threads", "\t+2\u{a0}").is_ok());
    assert_eq!(pins, PinnedPools::new().memory(1024).blocking_threads(8).compute_threads(2));
}

#[test]
fn flags_that_set_nothing_are_refused() {
    let mut pins = PinnedPools::new().memory(5);
    assert_eq!(
        pins.set_flag("memory", "1").unwrap_err(),
        "pinning key `memory` is outside the reserved `dagr.pool.` namespace; only framework-reserved \
         `dagr.`-prefixed pool keys may pin capacity"
    );
    assert_eq!(
        pins.set_flag("dagr.pool.gpus", "1").unwrap_err(),
        "pinning key `dagr.pool.gpus` is in the reserved namespace but is not a known pool key \
         (dagr.pool.memory, dagr.pool.blocking-threads, dagr.pool.compute-threads)"
    );
    assert_eq!(
        pins.set_flag("dagr.pool.memory", "many").unwrap_err(),
        "pinning value for `dagr.pool.memory` is not a non-negative integer: `many`"
    );
    assert!(pins.set_flag("dagr.pool.compute-threads", "4294967296").is_err());
    assert!(pins.set_flag("dagr.pool.memory", "18446744073709551616").is_err());
    assert!(pins.set_flag("dagr.pool.memory", "-1").is_err());
    assert!(pins.set_flag("dagr.pool.memory", "").is_err());
    assert_eq!(pins, PinnedPools::new().memory(5));
}

fn caps() -> PoolCapacities {
    PoolCapacities::new().memory(100).blocking_threads(4).compute_threads(2)
}

#[test]
fn a_node_at_capacity_is_accepted() {
    let exact = PoolCost::new().working_memory(100).blocking_threads(4).compute_threads(2);
    assert!(detect_capacities(&caps(), &[("exact".to_string(), exact)]).is_ok());
    assert!(detect_capacities(&caps(), &[]).is_ok());
}

#[test]
fn every_overrun_is_reported() {
    let costs = [
        ("b".to_string(), PoolCost::new().working_memory(101).compute_threads(3)),
        ("fits".to_string(), PoolCost::new()),
        ("a".to_string(), PoolCost::new().blocking_threads(5)),
    ];
    let failure = detect_capacities(&caps(), &costs).unwrap_err();
    assert_eq!(failure.outcome(), BootstrapOutcome::BootstrapFailed);
    assert_eq!(failure.attempts_recorded(), 0);
    let found: Vec<(String, Pool, u64, u64)> = failure
        .errors()
        .iter()
        .map(|e| (e.node().to_string(), e.pool(), e.declared_cost(), e.capacity()))
        .collect();
    assert_eq!(
        found,
        vec![
            ("b".to_string(), Pool::Memory, 101, 100),
            ("b".to_string(), Pool::ComputeThreads, 3, 2),
            ("a".to_string(), Pool::BlockingThreads, 5, 4),
        ]
    );
    assert_eq!(
        failure.render(),
        "bootstrap failed: 3 node(s) declare a cost exceeding pool capacity; \
         node `b` declares 101 bytes for the Memory pool, which exceeds its total capacity 100 bytes; \
         node `b` declares 3 threads for the ComputeThreads pool, which exceeds its total capacity 2 threads; \
         node `a` declares 5 threads for the BlockingThreads pool, which exceeds its total capacity 4 threads"
    );
}

#[test]
fn errors_are_grouped_by_node() {
    let costs = [
        ("b".to_string(), PoolCost::new().working_memory(101)),
        ("a".to_string(), PoolCost::new().blocking_threads(5)),
        ("b".to_string(), PoolCost::new().compute_threads(3)),
    ];
    let failure = detect_capacities(&caps(), &costs).unwrap_err();
    let by_node = failure.errors_by_node();
    assert_eq!(by_node.len(), 2);
    assert_eq!(by_node.name_at(0), "a");
    assert_eq!(by_node.name_at(1), "b");
    let pools: Vec<Pool> = by_node.value_at(1).iter().map(|e| e.pool()).collect();
    assert_eq!(pools, vec![Pool::Memory, Pool::ComputeThreads]);
    assert!(by_node.get("c").is_none());
}
