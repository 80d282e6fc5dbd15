//! Time as plain numbers: instants and durations are counts of nanoseconds.
//!
//! Instants are read off one monotonic clock by the caller and handed in.

use vstd::prelude::*;

verus! {

/// Nanoseconds in a millisecond.
pub const MILLISECOND: u64 = 1_000_000;

/// Nanoseconds in a second.
pub const SECOND: u64 = 1_000_000_000;

/// The time from one instant to a later one; nothing where the second is not later.
pub open spec fn elapsed(since: u64, now: u64) -> nat {
    if now >= since {
        (now - since) as nat
    } else {
        0
    }
}

/// The time from one instant to a later one.
pub fn time_since(since: u64, now: u64) -> (r: u64)
    ensures
        r == elapsed(since, now),
{
    if now >= since {
        now - since
    } else {
        0
    }
}

/// Time that has passed is what leads from one instant to the other; it adds up, and none passes on
/// the way back.
pub proof fn lemma_time_adds_up(a: u64, b: u64, c: u64)
    ensures
        a <= b ==> a + elapsed(a, b) == b,
        a >= b ==> elapsed(a, b) == 0,
        a <= b <= c ==> elapsed(a, b) + elapsed(b, c) == elapsed(a, c),
{
}

} // verus!
