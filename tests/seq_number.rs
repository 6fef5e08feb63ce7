use srt::seq_number::{SeqNumber, SEQ_MODULUS};

#[test]
fn new_truncate_keeps_low_bits() {
    assert_eq!(SeqNumber::new_truncate(5).as_raw(), 5);
    assert_eq!(SeqNumber::new_truncate(0x8000_0005).as_raw(), 5);
    assert_eq!(SEQ_MODULUS, 0x8000_0000);
}

#[test]
fn succ_wraps() {
    assert_eq!(SeqNumber::new_truncate(41).succ().as_raw(), 42);
    assert_eq!(SeqNumber::new_truncate(0x7FFF_FFFF).succ().as_raw(), 0);
}

#[test]
fn modular_lt() {
    let a = SeqNumber::new_truncate(10);
    let b = SeqNumber::new_truncate(11);
    assert!(a.lt(&b));
    assert!(!b.lt(&a));
    assert!(!a.lt(&a));
    let top = SeqNumber::new_truncate(0x7FFF_FFFF);
    let zero = SeqNumber::new_truncate(0);
    assert!(top.lt(&zero));
    assert!(!zero.lt(&top));
    assert!(!zero.lt(&SeqNumber::new_truncate(0x4000_0000)));
    assert!(zero.lt(&SeqNumber::new_truncate(0x3FFF_FFFF)));
}
