//! When a model load that failed may be tried again.
//!
//! Times are nanoseconds on a clock that never goes back.

use vstd::prelude::*;

verus! {

/// The wait after the first failure: half a second.
pub const INITIAL_COOLDOWN: u64 = 500_000_000;

/// No wait is longer than this: thirty seconds.
pub const MAX_COOLDOWN: u64 = 30_000_000_000;

/// Schedules lazy model-load retries after a failed initialization.
#[derive(Debug)]
pub struct LoadRetry {
    pub retry_at: Option<u64>,
    pub cooldown: u64,
}

/// The wait after `failures` failures in a row: doubled by each, up to the longest.
pub open spec fn cooldown_after(failures: nat) -> int
    decreases failures,
{
    if failures == 0 {
        INITIAL_COOLDOWN as int
    } else {
        let doubled = 2 * cooldown_after((failures - 1) as nat);
        if doubled < MAX_COOLDOWN {
            doubled
        } else {
            MAX_COOLDOWN as int
        }
    }
}

impl Default for LoadRetry {
    fn default() -> (retry: Self)
        ensures
            retry.fresh(),
    {
        LoadRetry { retry_at: None, cooldown: INITIAL_COOLDOWN }
    }
}

impl LoadRetry {
    /// Nothing has failed since the last success.
    pub open spec fn fresh(self) -> bool {
        self.retry_at is None && self.cooldown == INITIAL_COOLDOWN
    }

    pub open spec fn well_formed(self) -> bool {
        INITIAL_COOLDOWN <= self.cooldown <= MAX_COOLDOWN
    }

    pub open spec fn ready(self, now: u64) -> bool {
        match self.retry_at {
            None => true,
            Some(retry_at) => now >= retry_at,
        }
    }

    /// The schedule after a failure at `now`.
    pub open spec fn after_failure(self, now: u64) -> LoadRetry {
        LoadRetry {
            retry_at: Some((now + self.cooldown) as u64),
            cooldown: if 2 * self.cooldown < MAX_COOLDOWN {
                (2 * self.cooldown) as u64
            } else {
                MAX_COOLDOWN
            },
        }
    }

    /// Whether a load may be tried at `now`.
    pub fn is_ready(&self, now: u64) -> (ready: bool)
        ensures
            ready == self.ready(now),
    {
        match self.retry_at {
            None => true,
            Some(retry_at) => now >= retry_at,
        }
    }

    /// Notes that a load failed at `now`.
    pub fn failed(&mut self, now: u64)
        requires
            old(self).well_formed(),
            now + old(self).cooldown <= u64::MAX,
        ensures
            *final(self) == old(self).after_failure(now),
            final(self).well_formed(),
    {
        self.retry_at = Some(now + self.cooldown);
        self.cooldown = if 2 * self.cooldown < MAX_COOLDOWN {
            2 * self.cooldown
        } else {
            MAX_COOLDOWN
        };
    }

    /// Notes that a load succeeded.
    pub fn succeeded(&mut self)
        ensures
            final(self).fresh(),
    {
        self.retry_at = None;
        self.cooldown = INITIAL_COOLDOWN;
    }
}

/// After a failure no load is tried until the wait is over, and one is tried from then
/// on.
pub proof fn law_failure_waits_then_retries(retry: LoadRetry, now: u64, later: u64)
    requires
        retry.well_formed(),
        now + retry.cooldown <= u64::MAX,
    ensures
        retry.after_failure(now).ready(later) <==> later >= now + retry.cooldown,
        !retry.after_failure(now).ready(now),
{
}

/// The wait grows with each failure but stays within its bounds.
pub proof fn law_cooldown_is_bounded(failures: nat)
    ensures
        INITIAL_COOLDOWN <= cooldown_after(failures) <= MAX_COOLDOWN,
        cooldown_after(failures) <= cooldown_after(failures + 1),
    decreases failures,
{
    if failures > 0 {
        law_cooldown_is_bounded((failures - 1) as nat);
    }
}

/// The schedule after failures in a row, at the given times.
pub open spec fn after_failures(times: Seq<u64>) -> LoadRetry
    decreases times.len(),
{
    if times.len() == 0 {
        LoadRetry { retry_at: None, cooldown: INITIAL_COOLDOWN }
    } else {
        after_failures(times.drop_last()).after_failure(times.last())
    }
}

/// The first wait, doubled so many times, but no longer than the longest.
pub open spec fn doubled(times: nat) -> int {
    let wait = INITIAL_COOLDOWN * vstd::arithmetic::power2::pow2(times);
    if wait < MAX_COOLDOWN {
        wait
    } else {
        MAX_COOLDOWN as int
    }
}

proof fn lemma_cooldown_doubles(times: Seq<u64>)
    ensures
        after_failures(times).cooldown == doubled(times.len()),
        after_failures(times).cooldown == cooldown_after(times.len()),
    decreases times.len(),
{
    if times.len() == 0 {
        vstd::arithmetic::power2::lemma2_to64();
    } else {
        lemma_cooldown_doubles(times.drop_last());
        vstd::arithmetic::power2::lemma_pow2_unfold(times.len());
        vstd::arithmetic::power2::lemma_pow2_pos((times.len() - 1) as nat);
        let half = vstd::arithmetic::power2::pow2((times.len() - 1) as nat);
        assert(INITIAL_COOLDOWN * (2 * half) == 2 * (INITIAL_COOLDOWN * half)) by (nonlinear_arith);
    }
}

/// After `k` failures in a row, the last one at `now`, no load is tried for half a second,
/// doubled by each failure but the first, and at most thirty seconds; from then on one is tried.
/// The next failure would wait twice as long, or as long as any.
pub proof fn law_waits_double_up_to_the_longest(times: Seq<u64>, later: u64)
    requires
        times.len() > 0,
        times.last() + doubled((times.len() - 1) as nat) <= u64::MAX,
    ensures
        ({
            let k = times.len();
            let wait = doubled((k - 1) as nat);
            let retry = after_failures(times);
            &&& retry.retry_at == Some((times.last() + wait) as u64)
            &&& retry.ready(later) <==> later >= times.last() + wait
            &&& retry.cooldown == doubled(k)
        }),
{
    lemma_cooldown_doubles(times);
    lemma_cooldown_doubles(times.drop_last());
}

} // verus!
