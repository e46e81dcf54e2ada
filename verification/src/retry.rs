use vstd::prelude::*;

verus! {

use crate::errors::ScrapeError;

/// What the retry loop does after one probe attempt.
pub enum RetryDecision<T> {
    /// The probe settled the matter: hand this result up.
    Done(Result<T, ScrapeError>),
    /// Sleep one interval and try again, remembering the given error.
    RetryAfterSleep(Option<ScrapeError>),
}

/// How many attempts a ten-second deadline allows at one probe every
/// `delay_secs` seconds.
pub fn retry_budget(delay_secs: u64) -> (n: u64)
    requires
        1 <= delay_secs,
    ensures
        n == 10u64 / delay_secs,
{
    10 / delay_secs
}

/// One step of the retry loop: a value returns at once; a stale-reference
/// driver error retries silently; any other driver error and a fatal parse
/// error surface; every other failure is remembered as the latest symptom
/// and retried.
pub fn retry_step<T>(outcome: Result<T, ScrapeError>, last_error: Option<ScrapeError>) -> (r:
    RetryDecision<T>)
    ensures
        match outcome {
            Ok(v) => r == RetryDecision::Done(Ok::<T, ScrapeError>(v)),
            Err(e) => {
                if e.is_stale() {
                    r == RetryDecision::RetryAfterSleep::<T>(last_error)
                } else if e is WebDriverError || e is FatalParseError {
                    r == RetryDecision::Done(Err::<T, ScrapeError>(e))
                } else {
                    r == RetryDecision::RetryAfterSleep::<T>(Some(e))
                }
            },
        },
{
    match outcome {
        Ok(v) => RetryDecision::Done(Ok(v)),
        Err(e) => {
            if matches!(e, ScrapeError::WebDriverError { stale: true, .. }) {
                RetryDecision::RetryAfterSleep(last_error)
            } else if matches!(e, ScrapeError::WebDriverError { .. } | ScrapeError::FatalParseError(_)) {
                RetryDecision::Done(Err(e))
            } else {
                RetryDecision::RetryAfterSleep(Some(e))
            }
        },
    }
}

/// The error the retry loop surfaces at its deadline, carrying the most
/// recent recoverable error as the inner cause.
pub fn timeout_result(last_error: Option<ScrapeError>) -> (r: ScrapeError)
    ensures
        r matches ScrapeError::TimeoutError(m, i) && m@ == "timeout while waiting for results"@
            && match last_error {
            Some(e) => i matches Some(b) && *b == e,
            None => i is None,
        },
{
    ScrapeError::timeout(String::from_str("timeout while waiting for results"), last_error)
}

} // verus!
