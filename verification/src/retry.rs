//! Repeated attempts to connect.
use vstd::prelude::*;

verus! {

/// How often a connection is attempted.
pub const MAX_ATTEMPTS: u32 = 2;

/// A connection that is being attempted, by the number of the attempt under way.
#[derive(Clone, Copy)]
pub struct Retry {
    pub attempt: u32,
}

/// What follows an attempt.
#[derive(Clone, Copy)]
pub enum RetryStep {
    /// The connection stands; `retried` tells whether an earlier attempt failed.
    Connected { retried: bool },
    /// Try again.
    Again,
    /// All attempts failed.
    GiveUp,
}

/// What follows an attempt, by its number and whether it succeeded.
pub open spec fn retry_step(attempt: u32, connected: bool) -> RetryStep {
    if connected {
        RetryStep::Connected { retried: attempt > 1 }
    } else if attempt < MAX_ATTEMPTS {
        RetryStep::Again
    } else {
        RetryStep::GiveUp
    }
}

impl Retry {
    /// The first attempt.
    pub fn new() -> (r: Retry)
        ensures
            r.attempt == 1,
    {
        Retry { attempt: 1 }
    }

    /// Decides what follows the attempt under way.
    pub fn after(&mut self, connected: bool) -> (r: RetryStep)
        ensures
            r == retry_step(old(self).attempt, connected),
            final(self).attempt == (if r is Again {
                (old(self).attempt + 1) as u32
            } else {
                old(self).attempt
            }),
    {
        if connected {
            RetryStep::Connected { retried: self.attempt > 1 }
        } else if self.attempt < MAX_ATTEMPTS {
            self.attempt = self.attempt + 1;
            RetryStep::Again
        } else {
            RetryStep::GiveUp
        }
    }
}

/// The attempts that are made from the given one on, when the `i`th attempt succeeds where
/// `outcomes[i]` says so, and whether a connection stands in the end.
pub open spec fn attempts(attempt: u32, outcomes: spec_fn(u32) -> bool) -> (nat, bool)
    decreases MAX_ATTEMPTS - attempt,
{
    match retry_step(attempt, outcomes(attempt)) {
        RetryStep::Connected { .. } => (1, true),
        RetryStep::GiveUp => (1, false),
        RetryStep::Again => {
            let later = attempts((attempt + 1) as u32, outcomes);
            (later.0 + 1, later.1)
        },
    }
}

/// A connection is attempted once where that succeeds and twice where it does not, and stands
/// in the end where one of the two attempts succeeded.
pub proof fn law_two_attempts(outcomes: spec_fn(u32) -> bool)
    ensures
        attempts(1, outcomes).0 == (if outcomes(1) {
            1nat
        } else {
            2
        }),
        attempts(1, outcomes).1 <==> outcomes(1) || outcomes(2),
{
    reveal_with_fuel(attempts, 3);
}

/// A connection counts as retried if and only if an attempt failed before it.
pub proof fn law_retried_after_a_failure()
    ensures
        retry_step(1, true) == (RetryStep::Connected { retried: false }),
        retry_step(1, false) is Again,
        retry_step(2, true) == (RetryStep::Connected { retried: true }),
        retry_step(2, false) is GiveUp,
{
}

} // verus!
