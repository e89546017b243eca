//! Trying again, with longer and longer waits.

use vstd::prelude::*;

verus! {

/// Two to the power of `n`.
pub open spec fn doubled(n: nat) -> nat
    decreases n,
{
    if n == 0 {
        1
    } else {
        2 * doubled((n - 1) as nat)
    }
}

/// Seconds to wait before an attempt: none before the first, then 1, 2, 4 and
/// so on, at most 30.
pub open spec fn backoff(attempt: nat) -> nat {
    if attempt == 0 {
        0
    } else if doubled((attempt - 1) as nat) <= 30 {
        doubled((attempt - 1) as nat)
    } else {
        30
    }
}

proof fn lemma_doubled_grows(a: nat, b: nat)
    requires
        a <= b,
    ensures
        doubled(a) <= doubled(b),
        doubled(a) > 0,
    decreases b,
{
    if a < b {
        lemma_doubled_grows(a, (b - 1) as nat);
    } else if a > 0 {
        lemma_doubled_grows((a - 1) as nat, (a - 1) as nat);
    }
}

/// Seconds to wait before an attempt, see `backoff`.
pub fn backoff_secs(attempt: u32) -> (r: u64)
    requires
        attempt <= 64,
    ensures
        r == backoff(attempt as nat),
{
    if attempt == 0 {
        return 0;
    }
    let mut d: u64 = 1;
    let mut i: u32 = 1;
    while i < attempt
        invariant
            1 <= i <= attempt,
            d == doubled((i - 1) as nat),
            d <= 30,
        decreases attempt - i,
    {
        d = d * 2;
        i = i + 1;
        if d > 30 {
            proof {
                lemma_doubled_grows((i - 1) as nat, (attempt - 1) as nat);
            }
            return 30;
        }
    }
    d
}

/// What to do about something that has failed `attempt` times.
pub enum RetryStep {
    /// Wait, then try.
    Try { wait_secs: u64 },
    /// Give up.
    GiveUp,
}

/// Try as long as fewer than `max` attempts were made.
pub open spec fn retry_decision(attempt: nat, max: nat) -> RetryStep {
    if attempt < max {
        RetryStep::Try { wait_secs: backoff(attempt) as u64 }
    } else {
        RetryStep::GiveUp
    }
}

/// Decides whether another attempt is made, see `retry_decision`.
pub fn retry_step(attempt: u32, max: u32) -> (r: RetryStep)
    requires
        max <= 64,
    ensures
        r == retry_decision(attempt as nat, max as nat),
{
    if attempt < max {
        RetryStep::Try { wait_secs: backoff_secs(attempt) }
    } else {
        RetryStep::GiveUp
    }
}

/// Waits double from one second on, up to half a minute; the first attempt is
/// made at once. There are as many attempts as allowed.
pub proof fn law_waits_double(attempt: nat, max: nat)
    ensures
        backoff(0) == 0,
        backoff(1) == 1,
        0 < attempt && backoff(attempt + 1) < 30 ==> backoff(attempt + 1) == 2 * backoff(attempt),
        0 < attempt ==> backoff(attempt) <= backoff(attempt + 1) <= 30,
        attempt >= 6 ==> backoff(attempt) == 30,
        attempt < max ==> retry_decision(attempt, max) == (RetryStep::Try {
            wait_secs: backoff(attempt) as u64,
        }),
        attempt >= max ==> retry_decision(attempt, max) is GiveUp,
{
    assert(doubled(0) == 1);
    if attempt > 0 {
        lemma_doubled_grows((attempt - 1) as nat, attempt);
        assert(doubled(attempt) == 2 * doubled((attempt - 1) as nat));
    }
    if attempt >= 6 {
        lemma_doubled_grows(5, (attempt - 1) as nat);
        reveal_with_fuel(doubled, 6);
        assert(doubled(5) == 32);
    }
    assert(doubled(4) == 16) by {
        reveal_with_fuel(doubled, 5);
    }
}

} // verus!
