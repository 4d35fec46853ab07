use dagr_core::handle::NodeId;
use dagr_core::slot::{DeliveryMode, RedeemError, ResidencyLedger, Slot};

fn slot(consumers: u32, retained: bool) -> Slot<String> {
    Slot::new(NodeId::from_name("n"), "n", consumers, retained, 10)
}

fn filled(consumers: u32, retained: bool, ledger: &mut ResidencyLedger) -> Slot<String> {
    let mut s = slot(consumers, retained);
    s.fill("value".to_string(), ledger).unwrap();
    s
}

#[test]
fn a_slot_is_filled_once() {
    let mut ledger = ResidencyLedger::new();
    let mut s = slot(1, false);
    assert_eq!(s.name(), "n");
    assert_eq!(s.node(), NodeId::from_name("n"));
    assert!(!s.is_filled());
    assert!(s.fill("a".to_string(), &mut ledger).is_ok());
    let e = s.fill("b".to_string(), &mut ledger).unwrap_err();
    assert_eq!(e.render(), "output slot is already filled; a slot is once-writable (the second fill was refused)");
    assert_eq!(e.rejected(), "b");
    assert_eq!(s.shared_ref().read(&s), "a");
    assert_eq!(ledger.current(), 10);
    assert_eq!(ledger.peak(), 10);
}

#[test]
fn the_value_goes_when_the_last_consumer_returns() {
    let mut ledger = ResidencyLedger::new();
    let mut s = filled(2, false, &mut ledger);
    let r = s.shared_ref();
    assert_eq!(r.delivery_mode(), DeliveryMode::Shared);
    let one = r.enter(&mut s);
    let two = r.enter(&mut s);
    assert_eq!(one.read(&s), "value");
    one.finish(&mut s, &mut ledger);
    assert!(s.is_filled());
    assert_eq!(ledger.current(), 10);
    two.finish(&mut s, &mut ledger);
    assert!(!s.is_filled());
    assert_eq!(ledger.current(), 0);
    assert_eq!(ledger.peak(), 10);
}

#[test]
fn the_value_outlives_a_consumer_that_still_runs() {
    let mut ledger = ResidencyLedger::new();
    let mut s = filled(1, false, &mut ledger);
    let mut lease = s.clone_on_read_ref().enter(&mut s);
    lease.mark_terminal(&mut s);
    lease.mark_terminal(&mut s);
    assert!(s.is_filled());
    assert_eq!(lease.read(&s), "value");
    lease.finish(&mut s, &mut ledger);
    assert!(!s.is_filled());
}

#[test]
fn the_one_owner_takes_the_value() {
    let mut ledger = ResidencyLedger::new();
    let mut s = filled(1, false, &mut ledger);
    let r = s.owned_ref();
    assert_eq!(r.delivery_mode(), DeliveryMode::Owned);
    let lease = r.enter(&mut s);
    assert_eq!(lease.take(&mut s, &mut ledger), "value");
    assert!(!s.is_filled());
    assert_eq!(ledger.current(), 0);
    assert!(s.fill("again".to_string(), &mut ledger).is_err());
}

#[test]
fn each_attempt_gets_its_own_copy() {
    let mut ledger = ResidencyLedger::new();
    let s = filled(1, false, &mut ledger);
    let r = s.clone_on_read_ref();
    assert_eq!(r.delivery_mode(), DeliveryMode::CloneOnRead);
    assert_eq!(r.clone_value(&s), "value");
    assert_eq!(r.clone_value(&s), "value");
    assert!(s.is_filled());
}

#[test]
fn a_retained_value_stays_until_it_is_redeemed() {
    let mut ledger = ResidencyLedger::new();
    let mut s = filled(1, true, &mut ledger);
    let handle = s.redemption_handle();
    s.shared_ref().enter(&mut s).finish(&mut s, &mut ledger);
    assert!(s.is_filled());
    assert_eq!(handle.redeem(&mut s, &mut ledger).unwrap(), "value");
    assert_eq!(ledger.current(), 0);
    assert_eq!(handle.redeem(&mut s, &mut ledger).unwrap_err(), RedeemError::Released);
}

#[test]
fn there_may_be_nothing_to_redeem() {
    let mut ledger = ResidencyLedger::new();
    let mut s = slot(1, true);
    let e = s.redemption_handle().redeem(&mut s, &mut ledger).unwrap_err();
    assert_eq!(e, RedeemError::NeverFilled);
    assert_eq!(e.render(), "no value to redeem: the node's slot was never filled (it did not succeed)");
    let mut s = filled(1, false, &mut ledger);
    s.shared_ref().enter(&mut s).finish(&mut s, &mut ledger);
    let e = s.redemption_handle().redeem(&mut s, &mut ledger).unwrap_err();
    assert_eq!(e.render(), "no value to redeem: the node was not retained and its value was released");
}

#[test]
fn the_peak_covers_what_is_held() {
    let mut ledger = ResidencyLedger::new();
    ledger.charge(5);
    ledger.charge(7);
    ledger.release(7);
    ledger.charge(1);
    assert_eq!(ledger.current(), 6);
    assert_eq!(ledger.peak(), 12);
}

#[test]
fn a_consumer_that_tries_again_finds_its_input() {
    let mut ledger = ResidencyLedger::new();
    let mut s = filled(1, false, &mut ledger);
    let r = s.shared_ref();
    r.enter(&mut s).finish_for_retry(&mut s);
    assert_eq!(r.read(&s), "value");
    assert_eq!(ledger.current(), 10);
    r.enter(&mut s).finish(&mut s, &mut ledger);
    assert!(!s.is_filled());
    assert_eq!(ledger.current(), 0);
}

#[test]
fn a_handle_taken_early_redeems_later() {
    let mut ledger = ResidencyLedger::new();
    let mut s: Slot<u32> = Slot::new(NodeId::from_name("n"), "n", 1, true, 8);
    let h = s.redemption_handle();
    assert!(s.is_empty());
    assert_eq!(h.redeem(&mut s, &mut ledger), Err(RedeemError::NeverFilled));
    assert!(s.fill(7, &mut ledger).is_ok());
    assert!(!s.is_empty());
    let lease = s.shared_ref().enter(&mut s);
    lease.finish(&mut s, &mut ledger);
    assert!(s.is_filled());
    assert_eq!(ledger.current(), 8);
    assert_eq!(h.redeem(&mut s, &mut ledger), Ok(7));
    assert_eq!(ledger.current(), 0);
    assert_eq!(h.redeem(&mut s, &mut ledger), Err(RedeemError::Released));
    assert_eq!(ledger.current(), 0);
}
