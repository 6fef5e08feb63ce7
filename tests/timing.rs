use srt::timing::{agreed_latency, nak_interval_us, update_rtt, MIN_NAK_INTERVAL_US};

#[test]
fn latency_is_the_larger_proposal() {
    assert_eq!(agreed_latency(50, 827), 827);
    assert_eq!(agreed_latency(827, 50), 827);
    assert_eq!(agreed_latency(120, 120), 120);
}

#[test]
fn nak_interval_has_a_floor() {
    assert_eq!(MIN_NAK_INTERVAL_US, 20_000);
    assert_eq!(nak_interval_us(1_000, 500), 20_000);
    assert_eq!(nak_interval_us(10_000, 2_000), 42_000);
    assert_eq!(nak_interval_us(u32::MAX, u32::MAX), 5 * u32::MAX as u64);
}

#[test]
fn rtt_smoothing() {
    assert_eq!(update_rtt(100_000, 50_000, 100_000), (100_000, 37_500));
    assert_eq!(update_rtt(80_000, 0, 160_000), (90_000, 20_000));
    assert_eq!(update_rtt(u32::MAX, u32::MAX, u32::MAX), (u32::MAX, 3_221_225_471));
}
