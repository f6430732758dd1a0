//! Retry policy for transient transport failures.
//!
//! Opening an archive and fetching a byte range are retried independently, a
//! fixed number of times with a growing delay, then the transport error is
//! surfaced.  The policy is plain data handed in by the caller, so the
//! attempt count is not baked into the engine.

use vstd::prelude::*;

verus! {

/// How often and with which delays a failed transfer is retried.
#[derive(Clone, Copy, Debug, PartialEq, Eq, Structural)]
pub struct RetryPolicy {
    /// How many retries are allowed after the first failed attempt.
    pub max_retries: u32,
    /// Delay before the first retry, in milliseconds; each further retry
    /// waits one step longer.
    pub base_backoff_ms: u64,
}

impl RetryPolicy {
    /// The policy used for archive transport: four retries.
    pub fn default_transport() -> (r: RetryPolicy)
        ensures
            r.max_retries == 4,
            r.base_backoff_ms == 500,
    {
        RetryPolicy { max_retries: 4, base_backoff_ms: 500 }
    }

    /// Decide what to do after `failures` attempts have failed: retry after
    /// the returned delay, or give up (`None`) once the attempt budget is
    /// spent.  The delay grows linearly and saturates instead of wrapping.
    pub fn next_delay_ms(&self, failures: u32) -> (r: Option<u64>)
        ensures
            r matches Some(d) <==> failures <= self.max_retries && failures >= 1,
            r matches Some(d) ==> d == if self.base_backoff_ms * failures as int <= u64::MAX {
                self.base_backoff_ms * failures as int
            } else {
                u64::MAX as int
            },
    {
        if failures >= 1 && failures <= self.max_retries {
            let f = failures as u64;
            if self.base_backoff_ms > 0 && f > u64::MAX / self.base_backoff_ms {
                proof {
                    assert(self.base_backoff_ms * failures as int > u64::MAX) by (nonlinear_arith)
                        requires
                            self.base_backoff_ms >= 1,
                            f == failures as int,
                            f > u64::MAX as int / self.base_backoff_ms as int;
                }
                Some(u64::MAX)
            } else {
                proof {
                    if self.base_backoff_ms > 0 {
                        assert(self.base_backoff_ms * f <= u64::MAX) by (nonlinear_arith)
                            requires
                                self.base_backoff_ms >= 1,
                                f <= u64::MAX as int / self.base_backoff_ms as int;
                    }
                }
                Some(self.base_backoff_ms * f)
            }
        } else {
            None
        }
    }
}

} // verus!
