//! Expiry of a proxy peer's lease. Instants are milliseconds on one
//! monotonic clock; `now` is read by the caller.

use vstd::prelude::*;

verus! {

/// Milliseconds in one minute.
pub const MILLIS_PER_MINUTE: u64 = 60000;

/// Whether a peer whose lease ends at `expire` has expired at `now`; a peer
/// without an end never expires.
pub fn is_expired(expire: Option<u64>, now: u64) -> (r: bool)
    ensures
        r == (expire matches Some(e) && now > e),
{
    match expire {
        Some(e) => now > e,
        None => false,
    }
}

/// The whole minutes left of a lease that ends at `expire`, at `now`.
pub open spec fn alive_minutes(expire: Option<u64>, now: u64) -> int {
    match expire {
        Some(e) => if e >= now {
            (e - now) / (MILLIS_PER_MINUTE as int)
        } else {
            0
        },
        None => u64::MAX as int,
    }
}

/// The whole minutes left of a lease that ends at `expire`, at `now`: none
/// once it has ended, and `u64::MAX` for a lease without an end.
pub fn expected_alive_minutes(expire: Option<u64>, now: u64) -> (r: u64)
    ensures
        r == alive_minutes(expire, now),
{
    match expire {
        Some(e) => if e >= now {
            (e - now) / MILLIS_PER_MINUTE
        } else {
            0
        },
        None => u64::MAX,
    }
}

} // verus!
