use srt::receiver::{Arrival, LossTracker};
use srt::seq_number::SeqNumber;

const ONE: u32 = 1 << 31;

fn sn(v: u32) -> SeqNumber {
    SeqNumber::new_truncate(v)
}

fn lost(t: &LossTracker) -> Vec<u32> {
    t.loss_list().iter().map(|s| s.as_raw()).collect()
}

#[test]
fn in_order_arrivals_lose_nothing() {
    let mut t = LossTracker::new(sn(10));
    assert_eq!(t.on_data(sn(10)), Arrival::Fresh(vec![]));
    assert_eq!(t.on_data(sn(11)), Arrival::Fresh(vec![]));
    assert!(lost(&t).is_empty());
}

#[test]
fn single_loss_then_recovery() {
    let mut t = LossTracker::new(sn(0));
    assert_eq!(t.on_data(sn(0)), Arrival::Fresh(vec![]));
    assert_eq!(t.on_data(sn(2)), Arrival::Fresh(vec![1]));
    assert_eq!(lost(&t), vec![1]);
    assert_eq!(t.on_data(sn(1)), Arrival::Recovered);
    assert!(lost(&t).is_empty());
}

#[test]
fn duplicate_data_is_discarded() {
    let mut t = LossTracker::new(sn(0));
    assert_eq!(t.on_data(sn(0)), Arrival::Fresh(vec![]));
    assert_eq!(t.on_data(sn(3)), Arrival::Fresh(vec![1 | ONE, 2]));
    assert_eq!(t.on_data(sn(3)), Arrival::Duplicate);
    assert_eq!(t.on_data(sn(2)), Arrival::Recovered);
    assert_eq!(t.on_data(sn(2)), Arrival::Duplicate);
    assert_eq!(lost(&t), vec![1]);
}

#[test]
fn loss_across_wrap() {
    let top = 0x7FFF_FFFF;
    let mut t = LossTracker::new(sn(top - 1));
    assert_eq!(t.on_data(sn(top - 1)), Arrival::Fresh(vec![]));
    assert_eq!(t.on_data(sn(1)), Arrival::Fresh(vec![top | ONE, 0]));
    assert_eq!(lost(&t), vec![top, 0]);
    assert_eq!(t.on_data(sn(0)), Arrival::Recovered);
    assert_eq!(t.on_data(sn(top)), Arrival::Recovered);
    assert!(lost(&t).is_empty());
}

#[test]
fn bulk_loss_nak_is_two_words() {
    let mut t = LossTracker::new(sn(0));
    assert_eq!(t.on_data(sn(1500)), Arrival::Fresh(vec![ONE, 1499]));
    assert_eq!(lost(&t).len(), 1500);
}
