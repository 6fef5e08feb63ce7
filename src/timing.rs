use vstd::prelude::*;

verus! {

/// The shortest interval of the periodic NAK timer, in microseconds.
pub const MIN_NAK_INTERVAL_US: u64 = 20_000;

/// The larger of two proposed latencies.
pub open spec fn larger(a: u64, b: u64) -> u64 {
    if a >= b {
        a
    } else {
        b
    }
}

/// The TSBPD latency that both peers agree on: the larger of the two proposed.
pub fn agreed_latency(local_ms: u64, remote_ms: u64) -> (r: u64)
    ensures
        r == larger(local_ms, remote_ms),
{
    if local_ms >= remote_ms {
        local_ms
    } else {
        remote_ms
    }
}

/// Caller and listener reach the same latency, each computing it from its own
/// proposal and the other's, and neither proposal is cut.
pub proof fn lemma_latency_agreed(caller_ms: u64, listener_ms: u64)
    ensures
        larger(caller_ms, listener_ms) == larger(listener_ms, caller_ms),
        larger(caller_ms, listener_ms) >= caller_ms,
        larger(caller_ms, listener_ms) >= listener_ms,
{
}

/// The interval of the periodic NAK timer: `4 * rtt + rttvar`, but no less than
/// 20 ms; all in microseconds.
pub fn nak_interval_us(rtt_us: u32, rtt_var_us: u32) -> (r: u64)
    ensures
        r == if 4 * rtt_us + rtt_var_us >= MIN_NAK_INTERVAL_US {
            4 * rtt_us + rtt_var_us
        } else {
            MIN_NAK_INTERVAL_US as int
        },
{
    let t: u64 = 4 * (rtt_us as u64) + rtt_var_us as u64;
    if t >= MIN_NAK_INTERVAL_US {
        t
    } else {
        MIN_NAK_INTERVAL_US
    }
}

/// The smoothed round-trip time and its variance after one more sample, in
/// microseconds: `rtt <- 7/8 rtt + 1/8 sample` and
/// `rtt_var <- 3/4 rtt_var + 1/4 |rtt - sample|`, the difference taken with the
/// round-trip time before the update, and each result rounded down.
pub fn update_rtt(rtt_us: u32, rtt_var_us: u32, sample_us: u32) -> (r: (u32, u32))
    ensures
        r.0 == (7 * rtt_us + sample_us) / 8,
        r.1 == (3 * rtt_var_us + (if rtt_us >= sample_us {
            rtt_us - sample_us
        } else {
            sample_us - rtt_us
        })) / 4,
{
    let diff: u64 = if rtt_us >= sample_us {
        (rtt_us - sample_us) as u64
    } else {
        (sample_us - rtt_us) as u64
    };
    let rtt: u64 = (7 * (rtt_us as u64) + sample_us as u64) / 8;
    let var: u64 = (3 * (rtt_var_us as u64) + diff) / 4;
    assert(rtt <= 0xFFFF_FFFF);
    assert(var <= 0xFFFF_FFFF);
    (rtt as u32, var as u32)
}

} // verus!
