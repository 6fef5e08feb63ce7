use srt::msg_number::{MsgNumber, MSG_MODULUS};

#[test]
fn message_number_wraps_at_29_bits() {
    assert_eq!(MSG_MODULUS, 1 << 29);
    let last = MsgNumber::new_truncate((1 << 29) - 1);
    assert_eq!(last.succ().as_raw(), 0);
    assert!(last.lt(&last.succ()));
    assert_eq!(MsgNumber::new_truncate((1 << 29) + 7).as_raw(), 7);
}

#[test]
fn message_number_order_is_modular() {
    let zero = MsgNumber::new_truncate(0);
    assert!(zero.lt(&MsgNumber::new_truncate(0x0FFF_FFFF)));
    assert!(!zero.lt(&MsgNumber::new_truncate(0x1000_0000)));
    assert!(!zero.lt(&zero));
}
