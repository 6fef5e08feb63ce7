use srt::sender::{SendBuffer, MAX_FLOW_WINDOW};
use srt::seq_number::SeqNumber;

fn sn(v: u32) -> SeqNumber {
    SeqNumber::new_truncate(v)
}

#[test]
fn numbers_are_handed_out_in_turn() {
    let mut b = SendBuffer::new(sn(7), 10);
    assert_eq!(b.push(vec![1]), Some(sn(7)));
    assert_eq!(b.push(vec![2]), Some(sn(8)));
    assert_eq!(b.len(), 2);
}

#[test]
fn ack_removes_packets_before_it() {
    let mut b = SendBuffer::new(sn(100), 10);
    for i in 0..5u8 {
        b.push(vec![i]);
    }
    assert_eq!(b.ack(sn(103)), 3);
    assert_eq!(b.len(), 2);
    assert_eq!(b.ack(sn(103)), 0);
    assert_eq!(b.ack(sn(105)), 2);
    assert_eq!(b.len(), 0);
}

#[test]
fn ack_outside_window_is_ignored() {
    let mut b = SendBuffer::new(sn(100), 10);
    b.push(vec![0]);
    b.push(vec![1]);
    assert_eq!(b.ack(sn(103)), 0);
    assert_eq!(b.ack(sn(99)), 0);
    assert_eq!(b.len(), 2);
}

#[test]
fn sequence_numbers_wrap() {
    let mut b = SendBuffer::new(sn(0x7FFF_FFFE), 10);
    assert_eq!(b.push(vec![0]), Some(sn(0x7FFF_FFFE)));
    assert_eq!(b.push(vec![1]), Some(sn(0x7FFF_FFFF)));
    assert_eq!(b.push(vec![2]), Some(sn(0)));
    assert_eq!(b.push(vec![3]), Some(sn(1)));
    assert_eq!(b.ack(sn(1)), 3);
    assert_eq!(b.len(), 1);
    assert_eq!(b.push(vec![4]), Some(sn(2)));
}

#[test]
fn full_window_refuses() {
    let mut b = SendBuffer::new(sn(0), 2);
    assert!(b.push(vec![]).is_some());
    assert!(b.push(vec![]).is_some());
    assert_eq!(b.push(vec![]), None);
    assert_eq!(b.ack(sn(1)), 1);
    assert_eq!(b.push(vec![]), Some(sn(2)));
}

#[test]
fn flow_window_is_capped() {
    assert_eq!(MAX_FLOW_WINDOW, 0x3FFF_FFFF);
    let mut b = SendBuffer::new(sn(0), u32::MAX);
    assert_eq!(b.push(vec![9]), Some(sn(0)));
}
