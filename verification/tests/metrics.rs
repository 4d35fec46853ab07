use dagr_core::metrics::{
    AttemptMetrics, AttributingAllocator, MetricError, MetricValue, ThreadAccount, MAX_ENCODED_BYTES, MAX_ENTRIES,
    METRIC_PEAK_MEMORY_BYTES, METRIC_TRUNCATED, METRIC_TRUNCATED_DROPPED_BYTES, METRIC_TRUNCATED_DROPPED_ENTRIES,
};

fn value(metrics: &AttemptMetrics, name: &str) -> Option<MetricValue> {
    metrics.collected().into_iter().find(|(n, _)| n == name).map(|(_, v)| v)
}

fn names(metrics: &AttemptMetrics) -> Vec<String> {
    metrics.collected().into_iter().map(|(n, _)| n).collect()
}

#[test]
fn numbers_of_every_kind_are_attached() {
    let mut m = AttemptMetrics::new();
    m.attach("a", MetricValue::from(7u8)).unwrap();
    m.attach("b", MetricValue::from(-7i32)).unwrap();
    m.attach("c", MetricValue::FloatBits(1.5f64.to_bits())).unwrap();
    m.attach("d", MetricValue::from(u64::MAX)).unwrap();
    m.attach("e", MetricValue::from(i64::MIN)).unwrap();
    m.attach("f", MetricValue::from(3usize)).unwrap();
    assert_eq!(
        m.collected(),
        vec![
            ("a".to_string(), MetricValue::Unsigned(7)),
            ("b".to_string(), MetricValue::Signed(-7)),
            ("c".to_string(), MetricValue::FloatBits(0x3ff8_0000_0000_0000)),
            ("d".to_string(), MetricValue::Unsigned(u64::MAX)),
            ("e".to_string(), MetricValue::Signed(i64::MIN)),
            ("f".to_string(), MetricValue::Unsigned(3)),
        ]
    );
}

#[test]
fn attaching_again_replaces() {
    let mut m = AttemptMetrics::new();
    m.attach("rows_read", MetricValue::from(1u32)).unwrap();
    m.attach("rows_read", MetricValue::from(2u32)).unwrap();
    assert_eq!(m.collected(), vec![("rows_read".to_string(), MetricValue::Unsigned(2))]);
}

#[test]
fn the_reserved_prefix_is_refused() {
    let mut m = AttemptMetrics::new();
    let e = m.attach("dagr.rows", MetricValue::from(1u32)).unwrap_err();
    assert!(matches!(&e, MetricError::ReservedPrefix { metric } if metric == "dagr.rows"));
    assert_eq!(
        e.render(),
        "metric `dagr.rows` uses the reserved `dagr.` prefix, which is for framework metrics only — rename it \
         without that prefix"
    );
    assert!(m.collected().is_empty());
    assert!(m.attach("my_dagr.metric", MetricValue::from(1u32)).is_ok());
    assert!(m.attach("dagr", MetricValue::from(1u32)).is_ok());
}

#[test]
fn framework_metrics_are_recorded() {
    let mut m = AttemptMetrics::default();
    m.set_peak_memory_bytes(4096);
    m.set_permit_sizes(&[("memory_bytes", 10), ("compute_threads", 2)]);
    m.set_phase_timings(&[("executing_ns", 5), ("executing_ns", 6)]);
    m.attach("rows_read", MetricValue::from(1u32)).unwrap();
    assert_eq!(m.framework_metric_count(), 4);
    assert_eq!(
        m.collected(),
        vec![
            ("dagr.peak_memory_bytes".to_string(), MetricValue::Unsigned(4096)),
            ("dagr.permit.compute_threads".to_string(), MetricValue::Unsigned(2)),
            ("dagr.permit.memory_bytes".to_string(), MetricValue::Unsigned(10)),
            ("dagr.phase.executing_ns".to_string(), MetricValue::Unsigned(6)),
            ("rows_read".to_string(), MetricValue::Unsigned(1)),
        ]
    );
    assert_eq!(METRIC_PEAK_MEMORY_BYTES, "dagr.peak_memory_bytes");
}

#[test]
fn a_small_set_is_kept_whole() {
    let mut m = AttemptMetrics::new();
    m.attach("é", MetricValue::from(1u32)).unwrap();
    m.attach("rows", MetricValue::from(1u32)).unwrap();
    assert_eq!(m.encoded_size(), 2 + 8 + 4 + 8);
    m.finalize_task_metrics();
    assert_eq!(m.encoded_size(), 22);
    assert_eq!(value(&m, METRIC_TRUNCATED), Some(MetricValue::Unsigned(0)));
    assert_eq!(value(&m, METRIC_TRUNCATED_DROPPED_ENTRIES), Some(MetricValue::Unsigned(0)));
    assert_eq!(value(&m, METRIC_TRUNCATED_DROPPED_BYTES), Some(MetricValue::Unsigned(0)));
}

#[test]
fn too_many_entries_are_cut_to_the_smallest_names() {
    let mut m = AttemptMetrics::new();
    let mut other = AttemptMetrics::new();
    for i in 0..130u32 {
        m.attach(&format!("m{:03}", i), MetricValue::from(i)).unwrap();
        other.attach(&format!("m{:03}", 129 - i), MetricValue::from(129 - i)).unwrap();
    }
    m.finalize_task_metrics();
    other.finalize_task_metrics();
    assert_eq!(m.collected(), other.collected());
    assert_eq!(value(&m, "m127"), Some(MetricValue::Unsigned(127)));
    assert_eq!(value(&m, "m128"), None);
    assert_eq!(m.collected().len(), MAX_ENTRIES + 3);
    assert_eq!(value(&m, METRIC_TRUNCATED), Some(MetricValue::Unsigned(1)));
    assert_eq!(value(&m, METRIC_TRUNCATED_DROPPED_ENTRIES), Some(MetricValue::Unsigned(2)));
    assert_eq!(value(&m, METRIC_TRUNCATED_DROPPED_BYTES), Some(MetricValue::Unsigned(0)));
}

#[test]
fn too_many_bytes_are_cut_to_the_smallest_names() {
    let mut m = AttemptMetrics::new();
    for c in ["a", "b", "c"] {
        m.attach(&c.repeat(8000), MetricValue::from(1u32)).unwrap();
    }
    m.attach("d", MetricValue::from(1u32)).unwrap();
    m.finalize_task_metrics();
    assert_eq!(m.encoded_size(), 2 * 8008);
    assert!(m.encoded_size() <= MAX_ENCODED_BYTES);
    assert!(names(&m).contains(&"b".repeat(8000)));
    assert!(!names(&m).contains(&"c".repeat(8000)));
    assert!(!names(&m).contains(&"d".to_string()));
    assert_eq!(value(&m, METRIC_TRUNCATED_DROPPED_ENTRIES), Some(MetricValue::Unsigned(2)));
    assert_eq!(value(&m, METRIC_TRUNCATED_DROPPED_BYTES), Some(MetricValue::Unsigned(8008 + 9)));
}

#[test]
fn bytes_up_to_the_cap_are_kept() {
    let mut m = AttemptMetrics::new();
    m.attach(&"a".repeat(MAX_ENCODED_BYTES - 8), MetricValue::from(1u32)).unwrap();
    m.finalize_task_metrics();
    assert_eq!(m.encoded_size(), MAX_ENCODED_BYTES);
    let mut over = AttemptMetrics::new();
    over.attach(&"a".repeat(MAX_ENCODED_BYTES - 7), MetricValue::from(1u32)).unwrap();
    over.finalize_task_metrics();
    assert_eq!(over.encoded_size(), 0);
}

#[test]
fn closing_twice_is_closing_once() {
    let mut m = AttemptMetrics::new();
    for i in 0..140u32 {
        m.attach(&format!("m{:03}", i), MetricValue::from(i)).unwrap();
    }
    m.finalize_task_metrics();
    let once = m.collected();
    m.finalize_task_metrics();
    assert_eq!(m.collected(), once);
}

#[test]
fn the_peak_is_the_high_water_mark() {
    let mut alloc = AttributingAllocator::new();
    let mut account = ThreadAccount::new();
    let scope = AttributingAllocator::enter_attempt(&mut account);
    alloc.on_alloc(&mut account, 100);
    alloc.on_alloc(&mut account, 50);
    alloc.on_dealloc(&mut account, 120);
    alloc.on_realloc(&mut account, 30, 90);
    assert_eq!(AttributingAllocator::attempt_live_bytes(&account), 90);
    assert_eq!(AttributingAllocator::attempt_peak_bytes(&account), 150);
    alloc.on_realloc(&mut account, 90, 10);
    assert_eq!(AttributingAllocator::attempt_live_bytes(&account), 10);
    assert_eq!(alloc.process_live_bytes(), 10);
    scope.leave(&mut account);
    assert_eq!(account, ThreadAccount::default());
}

#[test]
fn nothing_is_attributed_without_an_attempt() {
    let mut alloc = AttributingAllocator::default();
    let mut account = ThreadAccount::new();
    alloc.on_alloc(&mut account, 100);
    assert_eq!(account, ThreadAccount::new());
    assert_eq!(alloc.process_live_bytes(), 100);
    let scope = AttributingAllocator::enter_attempt(&mut account);
    alloc.on_dealloc(&mut account, 100);
    assert_eq!(AttributingAllocator::attempt_live_bytes(&account), 0);
    scope.leave(&mut account);
}

#[test]
fn one_attempt_does_not_count_for_another() {
    let mut alloc = AttributingAllocator::new();
    let mut one = ThreadAccount::new();
    let mut two = ThreadAccount::new();
    let _a = AttributingAllocator::enter_attempt(&mut one);
    let _b = AttributingAllocator::enter_attempt(&mut two);
    alloc.on_alloc(&mut one, 1000);
    alloc.on_alloc(&mut two, 1);
    assert_eq!(AttributingAllocator::attempt_peak_bytes(&one), 1000);
    assert_eq!(AttributingAllocator::attempt_peak_bytes(&two), 1);
}

#[test]
fn scopes_nest() {
    let mut alloc = AttributingAllocator::new();
    let mut account = ThreadAccount::new();
    let outer = AttributingAllocator::enter_attempt(&mut account);
    alloc.on_alloc(&mut account, 10);
    let inner = AttributingAllocator::enter_attempt(&mut account);
    alloc.on_alloc(&mut account, 20);
    alloc.on_dealloc(&mut account, 20);
    inner.leave(&mut account);
    assert_eq!(AttributingAllocator::attempt_live_bytes(&account), 10);
    assert_eq!(AttributingAllocator::attempt_peak_bytes(&account), 30);
    outer.leave(&mut account);
    let again = AttributingAllocator::enter_attempt(&mut account);
    assert_eq!(AttributingAllocator::attempt_peak_bytes(&account), 0);
    again.leave(&mut account);
}
