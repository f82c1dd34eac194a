//! Points in time and the time between them, in nanoseconds since a fixed moment.
use vstd::prelude::*;

verus! {

/// The time from one point to another, or none if the other is earlier.
pub open spec fn time_between(since: u128, now: u128) -> u128 {
    if now >= since {
        (now - since) as u128
    } else {
        0
    }
}

/// The whole milliseconds from one point in time to another.
pub open spec fn millis_between(since: u128, now: u128) -> u128 {
    time_between(since, now) / 1_000_000
}

/// The time from one point to another, or none if the other is earlier.
pub fn elapsed(since: u128, now: u128) -> (time: u128)
    ensures
        time == time_between(since, now),
{
    if now >= since {
        now - since
    } else {
        0
    }
}

/// The whole milliseconds from one point in time to another.
pub fn elapsed_ms(since: u128, now: u128) -> (millis: u128)
    ensures
        millis == millis_between(since, now),
{
    elapsed(since, now) / 1_000_000
}

/// Time is what lies between two points in whole milliseconds, and none if it runs back.
pub proof fn law_time_runs_forward(since: u128, now: u128)
    ensures
        now >= since ==> time_between(since, now) == now - since,
        now < since ==> time_between(since, now) == 0,
        millis_between(since, now) * 1_000_000 <= time_between(since, now) < (millis_between(
            since,
            now,
        ) + 1) * 1_000_000,
{
}

} // verus!
