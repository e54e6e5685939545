use vstd::prelude::*;

verus! {

/// What to do after a failed attempt.
#[derive(Clone, Copy, Debug, PartialEq, Eq, Structural)]
pub enum RetryPolicy {
    /// Try again after this many milliseconds.
    WaitRetry(u64),
    /// Give up and pass the error on.
    ForwardError,
}

/// Exponential backoff: the delay doubles after each failure up to a cap;
/// attempts are unlimited unless `max_attempts` is given.
pub struct RetryErrorHandler {
    pub max_attempts: Option<usize>,
    /// Delay before the next retry, in milliseconds.
    pub delay_ms: u64,
    pub max_delay_ms: u64,
    /// Failed attempts retried so far.
    pub attempt: usize,
    pub log_context: String,
    pub log_action: String,
}

/// The delay after `d`: doubled, capped at `max`.
pub open spec fn next_delay(d: u64, max: u64) -> u64 {
    if 2 * d <= max as int { (2 * d) as u64 } else { max }
}

impl RetryErrorHandler {
    pub fn new(max_attempts: Option<usize>, delay_ms: u64, max_delay_ms: u64, log_context: String, log_action: String) -> (r: RetryErrorHandler)
        ensures
            r.max_attempts == max_attempts,
            r.delay_ms == delay_ms,
            r.max_delay_ms == max_delay_ms,
            r.attempt == 0,
            r.log_context@ == log_context@,
            r.log_action@ == log_action@,
    {
        RetryErrorHandler { max_attempts, delay_ms, max_delay_ms, attempt: 0, log_context, log_action }
    }

    /// The default for starting inputs: unlimited attempts, 1 s doubling up
    /// to 60 s.
    pub fn unlimited(log_context: String, log_action: String) -> (r: RetryErrorHandler)
        ensures
            r.max_attempts is None,
            r.delay_ms == 1000,
            r.max_delay_ms == 60000,
            r.attempt == 0,
    {
        RetryErrorHandler::new(None, 1000, 60000, log_context, log_action)
    }

    /// Decides after a failure: forward it once `max_attempts` retries have
    /// been made, else retry after the current delay and double the delay.
    pub fn handle(&mut self) -> (r: RetryPolicy)
        ensures
            final(self).max_attempts == old(self).max_attempts,
            final(self).max_delay_ms == old(self).max_delay_ms,
            final(self).log_context == old(self).log_context,
            final(self).log_action == old(self).log_action,
            if old(self).max_attempts == Some(old(self).attempt) {
                &&& r == RetryPolicy::ForwardError
                &&& final(self).attempt == old(self).attempt
                &&& final(self).delay_ms == old(self).delay_ms
            } else {
                &&& r == RetryPolicy::WaitRetry(old(self).delay_ms)
                &&& final(self).attempt == if old(self).attempt < usize::MAX { old(self).attempt + 1 } else { old(self).attempt as int }
                &&& final(self).delay_ms == next_delay(old(self).delay_ms, old(self).max_delay_ms)
            },
    {
        match self.max_attempts {
            Some(m) => {
                if self.attempt == m {
                    return RetryPolicy::ForwardError;
                }
            },
            None => {},
        }
        if self.attempt < usize::MAX {
            self.attempt = self.attempt + 1;
        }
        let delay = self.delay_ms;
        self.delay_ms = if delay <= self.max_delay_ms / 2 { delay * 2 } else { self.max_delay_ms };
        proof {
            assert(self.delay_ms == next_delay(delay, self.max_delay_ms)) by (nonlinear_arith)
                requires
                    self.delay_ms == (if delay <= self.max_delay_ms / 2 { (delay * 2) as u64 } else { self.max_delay_ms }),
            ;
        }
        RetryPolicy::WaitRetry(delay)
    }
}

/// The delays of `n` retries in a row, from `d`, capped at `max`.
pub open spec fn delays(d: u64, max: u64, n: nat) -> Seq<u64>
    decreases n,
{
    if n == 0 {
        seq![]
    } else {
        seq![d] + delays(next_delay(d, max), max, (n - 1) as nat)
    }
}

/// Once the delay has reached the cap it stays there, and no delay ever
/// exceeds the larger of the first delay and the cap.
pub proof fn lemma_delays_bounded(d: u64, max: u64, n: nat)
    ensures
        forall|i: int| 0 <= i < delays(d, max, n).len() ==> #[trigger] delays(d, max, n)[i] <= if d <= max { max } else { d },
        delays(d, max, n).len() == n,
    decreases n,
{
    if n > 0 {
        lemma_delays_bounded(next_delay(d, max), max, (n - 1) as nat);
        let rest = delays(next_delay(d, max), max, (n - 1) as nat);
        assert forall|i: int| 0 <= i < delays(d, max, n).len() implies #[trigger] delays(d, max, n)[i] <= if d <= max { max } else { d } by {
            if i > 0 {
                assert(delays(d, max, n)[i] == rest[i - 1]);
            }
        }
    }
}

} // verus!
