//! The retry policy of the result store: a failed transaction is tried again
//! after a delay that doubles with each attempt, up to a fixed number of
//! attempts. The caller performs the attempts and the waits; this module
//! decides what follows each attempt.

use vstd::prelude::*;

verus! {

/// Delay before the second attempt, in milliseconds.
pub const BASE_DELAY_MS: u64 = 50;

/// Attempts the store makes of one operation.
pub const STORE_ATTEMPTS: u32 = 5;

/// Last attempt after which a wait still fits in `u64` milliseconds: the
/// wait after attempt 59 would be 50 * 2^58 ms, the one after attempt 60
/// would overflow.
pub const LAST_DELAYED_ATTEMPT: u32 = 59;

/// `base` doubled `times` times.
pub open spec fn doubled(base: nat, times: nat) -> nat
    decreases times,
{
    if times == 0 {
        base
    } else {
        2 * doubled(base, (times - 1) as nat)
    }
}

/// The wait after failed attempt `attempt` (counted from 1).
pub open spec fn backoff_ms(attempt: nat) -> nat {
    doubled(BASE_DELAY_MS as nat, (attempt - 1) as nat)
}

proof fn lemma_doubled_monotone(base: nat, t: nat, u: nat)
    requires
        t <= u,
    ensures
        doubled(base, t) <= doubled(base, u),
    decreases u,
{
    if t < u {
        lemma_doubled_monotone(base, t, (u - 1) as nat);
    }
}

/// What follows an attempt.
#[derive(Debug, Clone, Copy, PartialEq, Eq, Structural)]
pub enum RetryAction {
    /// The attempt succeeded: report its result.
    Finish,
    /// The last allowed attempt failed: report its error.
    GiveUp,
    /// Wait this many milliseconds, then attempt again.
    RetryAfter { delay_ms: u64 },
}

/// The wait after failed attempt `attempt`, in milliseconds.
pub fn retry_delay_ms(attempt: u32) -> (d: u64)
    requires
        1 <= attempt <= LAST_DELAYED_ATTEMPT,
    ensures
        d == backoff_ms(attempt as nat),
{
    proof {
        reveal_with_fuel(doubled, 59);
        assert(doubled(50, 58) == 14411518807585587200);
    }
    let mut d: u64 = BASE_DELAY_MS;
    let mut t: u32 = 1;
    while t < attempt
        invariant
            1 <= t <= attempt <= LAST_DELAYED_ATTEMPT,
            d == doubled(50, (t - 1) as nat),
            doubled(50, 58) == 14411518807585587200,
        decreases attempt - t,
    {
        proof {
            lemma_doubled_monotone(50, t as nat, 58);
        }
        d = d * 2;
        t = t + 1;
    }
    d
}

/// Decides what follows attempt `attempt` of at most `max_attempts`. A wait
/// is computed only after a failed attempt that is not the last, and only
/// there must the wait fit in `u64`.
pub fn next_retry_action(attempt: u32, max_attempts: u32, succeeded: bool) -> (a: RetryAction)
    requires
        1 <= attempt <= max_attempts,
        !succeeded && attempt < max_attempts ==> attempt <= LAST_DELAYED_ATTEMPT,
    ensures
        succeeded ==> a == RetryAction::Finish,
        !succeeded && attempt == max_attempts ==> a == RetryAction::GiveUp,
        !succeeded && attempt < max_attempts ==> a == (RetryAction::RetryAfter {
            delay_ms: backoff_ms(attempt as nat) as u64,
        }),
{
    if succeeded {
        RetryAction::Finish
    } else if attempt == max_attempts {
        RetryAction::GiveUp
    } else {
        RetryAction::RetryAfter { delay_ms: retry_delay_ms(attempt) }
    }
}

} // verus!
