//! When to try again, and how long to wait before.

use vstd::arithmetic::power2::{lemma_pow2_unfold, pow2};
use vstd::prelude::*;

verus! {

/// How often and how patiently to try again.
#[derive(Debug, Clone, Copy, PartialEq, Eq, Structural)]
pub struct ReconnectConfig {
    /// Most attempts; 0 for no limit.
    pub max_attempts: u32,
    /// The first delay, in seconds.
    pub initial_backoff_secs: u64,
    /// The longest delay, in seconds.
    pub max_backoff_secs: u64,
    /// Whether the delay doubles with each attempt.
    pub exponential: bool,
}

impl Default for ReconnectConfig {
    fn default() -> (r: Self)
        ensures
            r == (ReconnectConfig {
                max_attempts: 5,
                initial_backoff_secs: 3,
                max_backoff_secs: 180,
                exponential: true,
            }),
    {
        ReconnectConfig {
            max_attempts: 5,
            initial_backoff_secs: 3,
            max_backoff_secs: 180,
            exponential: true,
        }
    }
}

/// The outcome of an attempt.
#[derive(Debug)]
pub enum ReconnectResult<T> {
    /// It succeeded.
    Success(T),
    /// It failed and can be tried again.
    Retry { attempt: u32, error: String },
    /// It failed for good.
    Failed { attempts: u32, last_error: String },
}

impl ReconnectConfig {
    /// Without a limit on the attempts.
    pub fn unlimited() -> (r: Self)
        ensures
            r == (ReconnectConfig {
                max_attempts: 0,
                initial_backoff_secs: 3,
                max_backoff_secs: 180,
                exponential: true,
            }),
    {
        let mut config = ReconnectConfig::default();
        config.max_attempts = 0;
        config
    }

    /// With a limit on the attempts.
    pub fn with_max_attempts(max_attempts: u32) -> (r: Self)
        ensures
            r == (ReconnectConfig {
                max_attempts,
                initial_backoff_secs: 3,
                max_backoff_secs: 180,
                exponential: true,
            }),
    {
        let mut config = ReconnectConfig::default();
        config.max_attempts = max_attempts;
        config
    }

    /// The delay after attempt number `attempt`, which counts from 0: doubled
    /// with each attempt up to the longest, or always the first.
    pub open spec fn delay_after(self, attempt: nat) -> nat {
        if self.exponential {
            let doubled = self.initial_backoff_secs * pow2(attempt);
            if doubled < self.max_backoff_secs {
                doubled as nat
            } else {
                self.max_backoff_secs as nat
            }
        } else {
            self.initial_backoff_secs as nat
        }
    }

    /// The delay after attempt number `attempt`, in seconds.
    pub fn backoff_delay(&self, attempt: u32) -> (r: u64)
        ensures
            r == self.delay_after(attempt as nat),
    {
        if !self.exponential {
            return self.initial_backoff_secs;
        }
        let max: u64 = self.max_backoff_secs;
        let initial: u64 = self.initial_backoff_secs;
        if initial == 0 {
            assert(0 * pow2(attempt as nat) == 0);
            return 0;
        }
        let mut delay: u64 = initial;
        let mut i: u32 = 0;
        proof {
            vstd::arithmetic::power2::lemma2_to64();
            assert(initial * pow2(0) == initial) by (nonlinear_arith)
                requires
                    pow2(0) == 1,
            ;
        }
        while i < attempt
            invariant
                i <= attempt,
                initial > 0,
                initial == self.initial_backoff_secs,
                max == self.max_backoff_secs,
                self.exponential,
                delay == initial * pow2(i as nat),
            decreases attempt - i,
        {
            if delay >= max || delay > u64::MAX / 2 {
                proof {
                    if delay >= max {
                        lemma_doubling_grows(initial as nat, i as nat, attempt as nat);
                    } else {
                        lemma_doubling_grows(initial as nat, (i + 1) as nat, attempt as nat);
                        lemma_doubling_step(initial as nat, i as nat);
                    }
                }
                return max;
            }
            proof {
                lemma_doubling_step(initial as nat, i as nat);
            }
            delay = 2 * delay;
            i += 1;
        }
        if delay < max {
            delay
        } else {
            max
        }
    }

    /// Whether another attempt is allowed after attempt number `attempt`,
    /// which counts from 0, has failed: fewer than the most attempts were made.
    pub open spec fn retries_after(self, attempt: nat) -> bool {
        self.max_attempts == 0 || attempt + 1 < self.max_attempts
    }

    /// Whether another attempt is allowed after attempt number `attempt`.
    pub fn should_retry(&self, attempt: u32) -> (r: bool)
        requires
            self.max_attempts == 0 || attempt < u32::MAX,
        ensures
            r == self.retries_after(attempt as nat),
    {
        self.max_attempts == 0 || attempt + 1 < self.max_attempts
    }

    /// What to do after attempt number `attempt` has failed: how many seconds
    /// to wait before the next, or nothing more.
    pub fn next_delay(&self, attempt: u32) -> (r: Option<u64>)
        requires
            self.max_attempts == 0 || attempt < u32::MAX,
        ensures
            r == (if self.retries_after(attempt as nat) {
                Some(self.delay_after(attempt as nat) as u64)
            } else {
                None
            }),
    {
        if self.should_retry(attempt) {
            Some(self.backoff_delay(attempt))
        } else {
            None
        }
    }
}

proof fn lemma_doubling_step(initial: nat, i: nat)
    ensures
        initial * pow2(i + 1) == 2 * (initial * pow2(i)),
{
    lemma_pow2_unfold(i + 1);
    assert(initial * (2 * pow2(i)) == 2 * (initial * pow2(i))) by (nonlinear_arith);
}

proof fn lemma_doubling_grows(initial: nat, i: nat, j: nat)
    requires
        i <= j,
    ensures
        initial * pow2(i) <= initial * pow2(j),
    decreases j - i,
{
    if i < j {
        lemma_doubling_step(initial, i);
        lemma_doubling_grows(initial, i + 1, j);
    }
}

/// The delays never shrink from one attempt to the next and never exceed the
/// longest.
pub proof fn law_backoff_grows_to_cap(config: ReconnectConfig, attempt: nat)
    requires
        config.exponential,
    ensures
        config.delay_after(attempt) <= config.delay_after(attempt + 1),
        config.delay_after(attempt) <= config.max_backoff_secs,
{
    lemma_doubling_step(config.initial_backoff_secs as nat, attempt);
}

/// With a limit of `n` attempts, attempt number `n - 1` is the last; without a
/// limit none is.
pub proof fn law_attempts_are_bounded(config: ReconnectConfig, attempt: nat)
    ensures
        config.max_attempts == 0 ==> config.retries_after(attempt),
        config.max_attempts > 0 && attempt + 1 >= config.max_attempts ==> !config.retries_after(
            attempt,
        ),
        config.max_attempts > 0 && attempt + 1 < config.max_attempts ==> config.retries_after(
            attempt,
        ),
{
}

/// The delays double: the first is the one configured, each later one twice the
/// one before, and none is longer than the longest; without doubling all are
/// the first.
pub proof fn law_delays_double(config: ReconnectConfig, attempt: nat)
    ensures
        !config.exponential ==> config.delay_after(attempt) == config.initial_backoff_secs,
        config.exponential && config.initial_backoff_secs <= config.max_backoff_secs
            ==> config.delay_after(0) == config.initial_backoff_secs,
        config.exponential && 2 * config.delay_after(attempt) <= config.max_backoff_secs
            ==> config.delay_after(attempt + 1) == 2 * config.delay_after(attempt),
        config.exponential && 2 * config.delay_after(attempt) > config.max_backoff_secs
            ==> config.delay_after(attempt + 1) == config.max_backoff_secs,
{
    lemma_doubling_step(config.initial_backoff_secs as nat, attempt);
    vstd::arithmetic::power2::lemma2_to64();
    assert(config.initial_backoff_secs * 1 == config.initial_backoff_secs);
}

/// After a failure there is a wait, the one for that attempt, exactly as long as
/// attempts are left; by default five attempts are made, the first wait is three
/// seconds and none is longer than three minutes.
pub proof fn law_waits_last_as_long_as_attempts(
    config: ReconnectConfig,
    attempt: u32,
    r: Option<u64>,
    default: ReconnectConfig,
    limited: ReconnectConfig,
    n: u32,
    endless: ReconnectConfig,
)
    requires
        config.max_attempts == 0 || attempt < u32::MAX,
        call_ensures(ReconnectConfig::next_delay, (&config, attempt), r),
        call_ensures(ReconnectConfig::default, (), default),
        call_ensures(ReconnectConfig::with_max_attempts, (n,), limited),
        call_ensures(ReconnectConfig::unlimited, (), endless),
    ensures
        r is Some <==> config.max_attempts == 0 || attempt + 1 < config.max_attempts,
        r is Some ==> r->0 == config.delay_after(attempt as nat),
        default.max_attempts == 5,
        limited.max_attempts == n,
        endless.max_attempts == 0,
        default.delay_after(0) == 3,
        limited.delay_after(0) == 3,
        endless.delay_after(0) == 3,
        default.delay_after(1) == 6,
        forall|k: nat| #[trigger] default.delay_after(k) <= 180,
{
    law_delays_double(default, 0);
    law_delays_double(limited, 0);
    law_delays_double(endless, 0);
}

} // verus!
