//! How often and how long to wait before fetching a block again after a transient failure.
use vstd::prelude::*;

verus! {

/// Fetch attempts made before a transient failure is given up on.
pub const MAX_FETCH_ATTEMPTS: u32 = 8;

/// Wait after the first failed attempt, in milliseconds; each later wait doubles.
pub const FIRST_RETRY_DELAY_MS: u64 = 100;

/// Wait after the `n`-th failed attempt, for `n >= 1`.
pub open spec fn backoff_ms(n: nat) -> nat
    decreases n,
{
    if n <= 1 {
        FIRST_RETRY_DELAY_MS as nat
    } else {
        2 * backoff_ms((n - 1) as nat)
    }
}

/// After `failures` failed attempts in a row: `None` once the attempts are used up, else the
/// wait before the next attempt.
pub fn retry_delay(failures: u32) -> (r: Option<u64>)
    requires
        failures >= 1,
    ensures
        failures >= MAX_FETCH_ATTEMPTS ==> r is None,
        failures < MAX_FETCH_ATTEMPTS ==> r == Some(backoff_ms(failures as nat) as u64),
{
    if failures >= MAX_FETCH_ATTEMPTS {
        return None;
    }
    let mut delay: u64 = FIRST_RETRY_DELAY_MS;
    let mut n: u32 = 1;
    while n < failures
        invariant
            1 <= n <= failures < MAX_FETCH_ATTEMPTS,
            delay == backoff_ms(n as nat),
        decreases failures - n,
    {
        proof {
            reveal_with_fuel(backoff_ms, 7);
            assert(n <= 6);
            assert(backoff_ms(n as nat) <= 3200);
        }
        delay = delay * 2;
        n = n + 1;
    }
    Some(delay)
}

} // verus!
