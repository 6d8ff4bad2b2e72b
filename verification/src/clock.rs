//! Time: instants are nanoseconds of a monotonic clock.

use vstd::prelude::*;

verus! {

/// A number of milliseconds, in nanoseconds.
pub open spec fn nanos_of(ms: u64) -> nat {
    ms as nat * 1_000_000
}

/// The time between two instants; none if the second lies before the first.
pub open spec fn time_since(since: u128, now: u128) -> nat {
    if now >= since {
        (now - since) as nat
    } else {
        0
    }
}

/// Whether `ms` milliseconds, each of a million nanoseconds, lie between two
/// instants. None at all always do.
pub open spec fn passed(since: u128, now: u128, ms: u64) -> bool {
    now - since >= ms * 1_000_000 || ms == 0
}

/// A number of milliseconds, in nanoseconds.
pub fn millis(ms: u64) -> (ns: u128)
    ensures
        ns == nanos_of(ms),
{
    ms as u128 * 1_000_000
}

/// The time between two instants; none if the second lies before the first.
pub fn elapsed(since: u128, now: u128) -> (ns: u128)
    ensures
        ns == time_since(since, now),
{
    if now >= since {
        now - since
    } else {
        0
    }
}

/// The time between two instants reaches a number of milliseconds if and only if
/// they have passed between them.
pub proof fn law_time_passes(since: u128, now: u128, ms: u64)
    ensures
        time_since(since, now) >= nanos_of(ms) <==> passed(since, now, ms),
        now >= since ==> since + time_since(since, now) == now,
        now <= since ==> time_since(since, now) == 0,
{
}

} // verus!
