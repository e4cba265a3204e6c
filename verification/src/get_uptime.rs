use vstd::prelude::*;

verus! {

/// Number of 100-nanosecond ticks in one second.
pub const TICKS_PER_SECOND: u64 = 10_000_000;

/// Age in whole seconds of a connection created at `socket_timestamp`, as
/// seen at `now`; both are counts of 100-nanosecond ticks. A creation time in
/// the future gives an age of zero.
pub open spec fn uptime_seconds(socket_timestamp: int, now: int) -> int {
    if now <= socket_timestamp {
        0
    } else {
        (now - socket_timestamp) / (TICKS_PER_SECOND as int)
    }
}

/// Computes the age of a connection from its creation timestamp and the
/// current system time, both in 100-nanosecond ticks.
pub fn get_socket_uptime(socket_timestamp: i64, now: u64) -> (uptime: u64)
    ensures
        uptime == uptime_seconds(socket_timestamp as int, now as int),
{
    let elapsed: i128 = now as i128 - socket_timestamp as i128;
    if elapsed <= 0 {
        0
    } else {
        (elapsed / 10_000_000) as u64
    }
}

} // verus!
