use dagr_core::admission::{AdmissionController, Pool, PoolCapacities, PoolCost};
use dagr_core::slot::ResidencyLedger;
use dagr_core::time::Duration;

fn memory(bytes: u64) -> PoolCost {
    PoolCost::new().working_memory(bytes)
}

fn controller() -> AdmissionController {
    AdmissionController::new(PoolCapacities::new().memory(100).blocking_threads(4).compute_threads(2))
}

#[test]
fn a_cost_is_drawn_whole_or_not_at_all() {
    let mut c = controller();
    let p = c.try_admit("a", &memory(60).compute_threads(2)).unwrap();
    assert_eq!(p.node(), "a");
    assert_eq!(p.cost(), memory(60).compute_threads(2));
    assert_eq!(c.remaining(Pool::Memory), 40);
    assert_eq!(c.remaining(Pool::ComputeThreads), 0);
    assert!(c.try_admit("b", &memory(10).compute_threads(1)).is_none());
    assert_eq!(c.remaining(Pool::Memory), 40);
    assert_eq!(c.counted(Pool::Memory), 60);
    p.finish(&mut c);
    assert_eq!(c.remaining(Pool::Memory), 100);
    assert!(c.all_pools_full());
}

#[test]
fn a_cost_may_take_all_there_is() {
    let mut c = controller();
    let p = c.try_admit("a", &memory(100).blocking_threads(4).compute_threads(2)).unwrap();
    assert_eq!(c.remaining(Pool::BlockingThreads), 0);
    assert!(c.try_admit("b", &PoolCost::new()).is_some());
    assert!(c.try_admit("c", &memory(1)).is_none());
    p.finish(&mut c);
    assert!(c.all_pools_full());
}

#[test]
fn what_can_never_fit_is_told() {
    let c = controller();
    assert!(c.can_ever_fit(&memory(100)));
    assert!(!c.can_ever_fit(&memory(101)));
    assert_eq!(c.over_demand_reason(&memory(100)), None);
    assert_eq!(
        c.over_demand_reason(&memory(101).compute_threads(9)),
        Some("declared cost 101 bytes exceeds Memory pool capacity 100 bytes".to_string())
    );
    assert_eq!(
        c.over_demand_reason(&PoolCost::new().compute_threads(9)),
        Some("declared cost 9 threads exceeds ComputeThreads pool capacity 2 threads".to_string())
    );
}

fn polled(c: &mut AdmissionController) -> Vec<String> {
    c.poll_admissions().iter().map(|p| p.node().to_string()).collect()
}

#[test]
fn the_oldest_that_fits_goes_first() {
    let mut c = controller();
    c.offer("large", &memory(90));
    c.offer("small", &memory(20));
    c.offer("also large", &memory(70));
    c.offer("tiny", &memory(5));
    assert_eq!(polled(&mut c), vec!["large", "tiny"]);
    assert!(polled(&mut c).is_empty());
}

#[test]
fn a_younger_one_passes_only_while_the_older_does_not_fit() {
    let mut c = controller();
    let held = c.try_admit("held", &memory(50)).unwrap();
    c.offer("old", &memory(80));
    c.offer("young", &memory(40));
    let young = c.poll_admissions().pop().unwrap();
    assert_eq!(young.node(), "young");
    held.finish(&mut c);
    assert!(polled(&mut c).is_empty());
    young.finish(&mut c);
    assert_eq!(polled(&mut c), vec!["old"]);
}

#[test]
fn an_attempt_given_up_on_stays_counted() {
    let mut c = controller();
    let p = c.try_admit("a", &memory(60).blocking_threads(1)).unwrap();
    c.mark_zombie(&p);
    let report = c.zombie_report();
    assert_eq!(report.live_zombie_count, 1);
    assert_eq!(report.zombies[0].node, "a");
    assert_eq!(report.zombies[0].pinned.working_memory(), 60);
    assert_eq!(report.zombies[0].pinned.blocking_threads(), 1);
    assert_eq!(report.zombies[0].pinned.compute_threads(), 0);
    assert!(c.try_admit("b", &memory(50)).is_none());
    p.finish(&mut c);
    assert_eq!(c.zombie_report().live_zombie_count, 0);
    assert!(c.try_admit("b", &memory(50)).is_some());
}

#[test]
fn produced_values_count_as_memory() {
    let mut c = controller().with_residency_ledger(ResidencyLedger::new());
    let lease = c.transfer_residency("a", 30);
    assert_eq!(lease.node(), "a");
    assert_eq!(lease.bytes(), 30);
    assert_eq!(c.counted(Pool::Memory), 30);
    assert_eq!(c.counted(Pool::ComputeThreads), 0);
    assert!(!c.all_pools_full());
    assert_eq!(c.residency_ledger().current(), 30);
    lease.finish(&mut c);
    assert!(c.all_pools_full());
    assert_eq!(c.residency_ledger().peak(), 30);
}

#[test]
fn an_undeclared_cost_is_warned_of_where_memory_is_constrained() {
    let c = controller();
    let w = c.warn_if_undeclared("a", &PoolCost::new()).unwrap();
    assert_eq!(w.node(), "a");
    assert_eq!(
        w.render(),
        "node 'a' declared no memory cost in a memory-constrained run; its working memory is uncounted against the pool"
    );
    assert!(c.warn_if_undeclared("a", &memory(1)).is_none());
    let free = AdmissionController::new(PoolCapacities::new());
    assert!(free.warn_if_undeclared("a", &PoolCost::new()).is_none());
}

#[test]
fn waiting_and_executing_are_timed_apart() {
    let c = controller();
    let mut t = c.begin_wait("a");
    assert_eq!(t.node(), "a");
    t.record_wait(Duration::from_millis(5));
    t.record_execution(Duration::from_millis(7));
    assert_eq!(t.wait(), Duration::from_millis(5));
    assert_eq!(t.execution(), Duration::from_millis(7));
}

#[test]
fn costs_and_capacities_are_built_up() {
    let cost = PoolCost::new().working_memory(1).output_residency(2).blocking_threads(3).compute_threads(4);
    assert_eq!(cost.working_memory_bytes(), 1);
    assert_eq!(cost.output_residency_bytes(), 2);
    assert_eq!(cost.blocking_thread_count(), 3);
    assert_eq!(cost.compute_thread_count(), 4);
    assert_eq!(cost.demand_on(Pool::Memory), 1);
    assert_eq!(cost.demand_on(Pool::BlockingThreads), 3);
    assert_eq!(PoolCapacities::default().total(Pool::Memory), u64::MAX);
    assert_eq!(PoolCapacities::default().total(Pool::ComputeThreads), u64::from(u32::MAX));
    assert!(!PoolCapacities::default().is_memory_constrained());
    assert_eq!(Pool::ALL.map(|p| p.label()), ["Memory", "BlockingThreads", "ComputeThreads"]);
    assert_eq!(Pool::ALL.map(|p| p.unit()), ["bytes", "threads", "threads"]);
}
