//! Retry and timeout policy, counted in poll ticks rather than wall-clock time.

use vstd::prelude::*;
use crate::error::Error;

verus! {

/// How long a sender waits for an ACK before retransmitting, and how many
/// times it retries before giving up.
#[derive(Debug, Clone, Copy, PartialEq, Eq, Structural)]
pub struct RetryPolicy {
    /// Consecutive empty polls tolerated before a timeout.
    pub timeout_ticks: u16,
    /// Maximum retransmissions of one frame. `0` means send once.
    pub max_retries: u8,
}

impl RetryPolicy {
    /// Builds a policy with explicit values.
    pub fn new(timeout_ticks: u16, max_retries: u8) -> (p: RetryPolicy)
        ensures
            p.timeout_ticks == timeout_ticks,
            p.max_retries == max_retries,
    {
        RetryPolicy { timeout_ticks, max_retries }
    }

    /// The conservative default: 1000 empty polls, up to 5 retransmissions.
    pub open spec fn spec_default() -> RetryPolicy {
        RetryPolicy { timeout_ticks: 1000, max_retries: 5 }
    }
}

impl Default for RetryPolicy {
    /// 1000 empty polls, up to 5 retransmissions.
    fn default() -> (p: RetryPolicy)
        ensures
            p == RetryPolicy::spec_default(),
    {
        RetryPolicy::new(1000, 5)
    }
}

/// The idle count after one idle poll from `idle`, under `limit`: counted
/// (and held at `u32::MAX`) when there is a limit, left alone when not.
pub open spec fn ticked_idle(limit: Option<u32>, idle: u32) -> u32 {
    match limit {
        None => idle,
        Some(_) => if idle == u32::MAX {
            u32::MAX
        } else {
            (idle + 1) as u32
        },
    }
}

/// Whether one idle poll from `idle` runs a budget with `limit` out.
pub open spec fn tick_runs_out(limit: Option<u32>, idle: u32) -> bool {
    match limit {
        None => false,
        Some(l) => ticked_idle(limit, idle) > l,
    }
}

/// The idle count after `k` idle polls in a row from `idle`.
pub open spec fn idle_after_ticks(limit: Option<u32>, idle: u32, k: nat) -> u32
    decreases k,
{
    if k == 0 {
        idle
    } else {
        ticked_idle(limit, idle_after_ticks(limit, idle, (k - 1) as nat))
    }
}

/// A budget of `n` idle polls, new or just reset, lets exactly `n` idle
/// polls in a row pass and runs out on every one after: after `k` of them
/// the count is `k` (held at `u32::MAX`), and the next one runs it out
/// exactly when `k >= n`. A limit of `u32::MAX` never runs out (the count
/// stops there), nor does a budget without a limit, whose count stays 0.
pub proof fn lemma_idle_budget_exact(limit: Option<u32>, k: nat)
    ensures
        idle_after_ticks(limit, 0, k) == match limit {
            None => 0,
            Some(_) => if k <= u32::MAX { k } else { u32::MAX as nat },
        },
        tick_runs_out(limit, idle_after_ticks(limit, 0, k)) <==> match limit {
            None => false,
            Some(n) => n < u32::MAX && k >= n,
        },
    decreases k,
{
    if k > 0 {
        lemma_idle_budget_exact(limit, (k - 1) as nat);
    }
}

/// Ceiling on consecutive polls with no application-level progress.
///
/// [`RetryPolicy`] bounds one in-flight frame; an [`IdleBudget`] bounds an
/// outer cooperative loop so a silent peer cannot make it spin forever.
#[derive(Debug, Clone, Copy, PartialEq, Eq, Structural)]
pub struct IdleBudget {
    limit: Option<u32>,
    idle: u32,
}

impl IdleBudget {
    /// The ceiling, or `None` for a budget that never runs out.
    pub closed spec fn limit(&self) -> Option<u32> {
        self.limit
    }

    /// Consecutive idle polls counted so far.
    pub closed spec fn idle(&self) -> u32 {
        self.idle
    }

    /// A budget that never runs out.
    pub fn unbounded() -> (b: IdleBudget)
        ensures
            b.limit() is None,
            b.idle() == 0,
    {
        IdleBudget { limit: None, idle: 0 }
    }

    /// Runs out once more than `max_idle_ticks` consecutive idle polls occur.
    pub fn new(max_idle_ticks: u32) -> (b: IdleBudget)
        ensures
            b.limit() == Some(max_idle_ticks),
            b.idle() == 0,
    {
        IdleBudget { limit: Some(max_idle_ticks), idle: 0 }
    }

    /// The default outer ceiling: one million consecutive idle polls.
    pub fn default_budget() -> (b: IdleBudget)
        ensures
            b.limit() == Some(1_000_000u32),
            b.idle() == 0,
    {
        IdleBudget::new(1_000_000)
    }

    /// Application progress: the idle streak starts over.
    pub fn reset(&mut self)
        ensures
            final(self).limit() == old(self).limit(),
            final(self).idle() == 0,
    {
        self.idle = 0;
    }

    /// One poll without application progress. Fails once the streak
    /// exceeds the limit.
    pub fn tick<E>(&mut self) -> (r: Result<(), Error<E>>)
        ensures
            final(self).limit() == old(self).limit(),
            final(self).idle() == ticked_idle(old(self).limit(), old(self).idle()),
            r is Err <==> tick_runs_out(old(self).limit(), old(self).idle()),
            r is Err ==> r == Err::<(), Error<E>>(Error::IdleBudgetExhausted),
            match old(self).limit() {
                None => final(self).idle() == old(self).idle() && r is Ok,
                Some(limit) => {
                    &&& final(self).idle() == (if old(self).idle() == u32::MAX {
                        u32::MAX
                    } else {
                        (old(self).idle() + 1) as u32
                    })
                    &&& (r is Ok <==> final(self).idle() <= limit)
                    &&& (r is Err ==> r == Err::<(), Error<E>>(Error::IdleBudgetExhausted))
                },
            },
    {
        let limit = match self.limit {
            None => return Ok(()),
            Some(l) => l,
        };
        self.idle = if self.idle == u32::MAX { u32::MAX } else { self.idle + 1 };
        if self.idle > limit {
            Err(Error::IdleBudgetExhausted)
        } else {
            Ok(())
        }
    }
}

impl Default for IdleBudget {
    /// One million consecutive idle polls.
    fn default() -> (b: IdleBudget)
        ensures
            b.limit() == Some(1_000_000u32),
            b.idle() == 0,
    {
        IdleBudget::default_budget()
    }
}

} // verus!
