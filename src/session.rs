use vstd::prelude::*;

verus! {

/// Errors of a collaborative session.
#[derive(Debug)]
pub enum CollabError {
    UnexpectedEmpty,
    /// Another writer holds the write lock.
    Contended,
    /// The write lock could not be had before the deadline.
    Timeout,
    UndoManagerNotEnabled,
    Internal(String),
}

/// Outcome of a non-blocking attempt at a write transaction.
pub fn try_write_outcome(acquired: bool) -> (r: Result<(), CollabError>)
    ensures
        acquired ==> r is Ok,
        !acquired ==> r matches Err(CollabError::Contended),
{
    if acquired {
        Ok(())
    } else {
        Err(CollabError::Contended)
    }
}

/// What a retrying writer does next.
#[derive(Debug)]
pub enum RetryStep {
    /// The lock is held: run the transaction.
    Write,
    /// Wait this many milliseconds, then try again.
    Wait(u64),
    /// Give up with this error.
    Fail(CollabError),
}

/// Retries of a write transaction: waits between attempts start at
/// `initial_backoff_ms`, double up to `max_backoff_ms`, and never pass the
/// deadline.
#[derive(Debug)]
pub struct WriteRetry {
    pub deadline_ms: u64,
    pub backoff_ms: u64,
    pub max_backoff_ms: u64,
}

pub open spec fn min_u64(a: u64, b: u64) -> u64 {
    if a <= b {
        a
    } else {
        b
    }
}

impl WriteRetry {
    pub fn new(now_ms: u64, timeout_ms: u64, initial_backoff_ms: u64, max_backoff_ms: u64) -> (r: WriteRetry)
        ensures
            r.deadline_ms == (if now_ms as int + timeout_ms as int > u64::MAX {
                u64::MAX
            } else {
                (now_ms + timeout_ms) as u64
            }),
            r.backoff_ms == initial_backoff_ms,
            r.max_backoff_ms == max_backoff_ms,
    {
        let deadline_ms = if timeout_ms > u64::MAX - now_ms {
            u64::MAX
        } else {
            now_ms + timeout_ms
        };
        WriteRetry { deadline_ms, backoff_ms: initial_backoff_ms, max_backoff_ms }
    }

    /// One attempt at time `now_ms`; `acquired` tells whether the write lock
    /// was taken. Contention before the deadline means waiting, after it a
    /// timeout.
    pub fn step(&mut self, now_ms: u64, acquired: bool) -> (r: RetryStep)
        ensures
            final(self).deadline_ms == old(self).deadline_ms,
            final(self).max_backoff_ms == old(self).max_backoff_ms,
            acquired ==> r is Write && final(self).backoff_ms == old(self).backoff_ms,
            !acquired && now_ms >= old(self).deadline_ms ==> (r matches RetryStep::Fail(
                CollabError::Timeout,
            )) && final(self).backoff_ms == old(self).backoff_ms,
            !acquired && now_ms < old(self).deadline_ms ==> {
                &&& r == RetryStep::Wait(
                    min_u64(old(self).backoff_ms, (old(self).deadline_ms - now_ms) as u64),
                )
                &&& final(self).backoff_ms == min_u64(
                    if old(self).backoff_ms as int * 2 > u64::MAX {
                        u64::MAX
                    } else {
                        (old(self).backoff_ms * 2) as u64
                    },
                    old(self).max_backoff_ms,
                )
            },
    {
        if acquired {
            return RetryStep::Write;
        }
        if now_ms >= self.deadline_ms {
            return RetryStep::Fail(CollabError::Timeout);
        }
        let left = self.deadline_ms - now_ms;
        let wait = if self.backoff_ms <= left {
            self.backoff_ms
        } else {
            left
        };
        let doubled = if self.backoff_ms > u64::MAX / 2 {
            u64::MAX
        } else {
            self.backoff_ms * 2
        };
        self.backoff_ms = if doubled <= self.max_backoff_ms {
            doubled
        } else {
            self.max_backoff_ms
        };
        RetryStep::Wait(wait)
    }
}

} // verus!
