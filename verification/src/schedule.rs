//! The day-boundary pruning schedule.
//!
//! A background task expires day-bound orders at a fixed hour of day. The
//! decision logic — how long to wait from a given local time until the next
//! boundary — is verified here; reading the clock itself goes through one
//! trusted call into chrono.

use vstd::prelude::*;

use chrono::Timelike;

verus! {

/// The hour of day at which day-bound orders expire.
pub const MARKET_CLOSE_HOUR: u32 = 16;

/// Relies on chrono's `Local::now` and the `Timelike` accessors `hour`,
/// `minute` and `second`: a civil time of day always has an hour below 24, a
/// minute below 60 and a second below 60. Nothing more can be promised of a
/// clock reading.
#[verifier::external_body]
pub fn local_time_parts() -> (r: (u32, u32, u32))
    ensures
        r.0 < 24,
        r.1 < 60,
        r.2 < 60,
{
    let now = chrono::Local::now();
    (now.hour(), now.minute(), now.second())
}

/// The seconds from the local time `h:m:s` until the next close-of-day
/// boundary: today's close hour, rolling to tomorrow's once the close hour
/// has been reached.
pub open spec fn spec_seconds_until_close(h: u32, m: u32, s: u32) -> int {
    let sec_of_day = h * 3600 + m * 60 + s;
    let close = MARKET_CLOSE_HOUR * 3600;
    if h >= MARKET_CLOSE_HOUR {
        close + 86400 - sec_of_day
    } else {
        close - sec_of_day
    }
}

/// How long the pruning task should wait from the given local time until the
/// next day boundary. The wait is always at least one second and at most a
/// day past the close hour.
pub fn seconds_until_close(hour: u32, minute: u32, second: u32) -> (r: u64)
    requires
        hour < 24,
        minute < 60,
        second < 60,
    ensures
        r == spec_seconds_until_close(hour, minute, second),
        1 <= r <= MARKET_CLOSE_HOUR * 3600 + 86400,
{
    let sec_of_day = hour as u64 * 3600 + minute as u64 * 60 + second as u64;
    let close = MARKET_CLOSE_HOUR as u64 * 3600;
    if hour >= MARKET_CLOSE_HOUR {
        close + 86400 - sec_of_day
    } else {
        close - sec_of_day
    }
}

/// The wait from now until the next day boundary, read from the local clock.
pub fn next_close_wait_seconds() -> (r: u64)
    ensures
        exists|h: u32, m: u32, s: u32|
            h < 24 && m < 60 && s < 60 && r == #[trigger] spec_seconds_until_close(h, m, s),
        1 <= r <= MARKET_CLOSE_HOUR * 3600 + 86400,
{
    let (h, m, s) = local_time_parts();
    let r = seconds_until_close(h, m, s);
    proof {
        assert(r == spec_seconds_until_close(h, m, s));
    }
    r
}

} // verus!
