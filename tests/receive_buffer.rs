use srt::receive_buffer::{Delivery, ReceiveBuffer};
use srt::seq_number::SeqNumber;

fn sn(v: u32) -> SeqNumber {
    SeqNumber::new_truncate(v)
}

fn msg(seq: u32, payload: &[u8]) -> Delivery {
    Delivery::Message { seq: sn(seq), payload: payload.to_vec() }
}

#[test]
fn releases_only_what_is_due() {
    let mut b = ReceiveBuffer::new(sn(10), 100);
    assert!(b.insert(sn(10), 1_000, vec![0]));
    assert!(b.insert(sn(11), 2_000, vec![1]));
    assert_eq!(b.release(500), vec![]);
    assert_eq!(b.release(1_000), vec![msg(10, &[0])]);
    assert_eq!(b.release(5_000), vec![msg(11, &[1])]);
}

#[test]
fn out_of_order_arrivals_release_in_order() {
    let mut b = ReceiveBuffer::new(sn(0), 100);
    assert!(b.insert(sn(2), 30, vec![2]));
    assert!(b.insert(sn(0), 10, vec![0]));
    assert!(b.insert(sn(1), 20, vec![1]));
    assert_eq!(b.release(100), vec![msg(0, &[0]), msg(1, &[1]), msg(2, &[2])]);
}

#[test]
fn gap_waits_until_a_later_packet_is_due() {
    let mut b = ReceiveBuffer::new(sn(0), 100);
    assert!(b.insert(sn(0), 10, vec![0]));
    assert!(b.insert(sn(2), 30, vec![2]));
    assert_eq!(b.release(20), vec![msg(0, &[0])]);
    assert_eq!(
        b.release(30),
        vec![Delivery::Gap { seq: sn(1) }, msg(2, &[2])]
    );
}

#[test]
fn duplicate_and_late_packets_are_refused() {
    let mut b = ReceiveBuffer::new(sn(5), 100);
    assert!(b.insert(sn(5), 10, vec![5]));
    assert!(!b.insert(sn(5), 10, vec![5]));
    assert_eq!(b.release(10), vec![msg(5, &[5])]);
    assert!(!b.insert(sn(5), 10, vec![5]));
    assert!(!b.insert(sn(106), 10, vec![]));
    assert!(b.insert(sn(105), 10, vec![]));
}

#[test]
fn release_across_wrap() {
    let mut b = ReceiveBuffer::new(sn(0x7FFF_FFFF), 100);
    assert!(b.insert(sn(0), 10, vec![1]));
    assert!(b.insert(sn(0x7FFF_FFFF), 10, vec![0]));
    assert_eq!(b.release(10), vec![msg(0x7FFF_FFFF, &[0]), msg(0, &[1])]);
}
