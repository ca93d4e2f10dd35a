//! Retry decorator: wraps any port and retries transient failures with
//! exponential backoff. Non-retryable errors are returned at once; on
//! exhausting the retries the last error is returned unchanged.

use vstd::prelude::*;

use crate::port::{CloudSpreadsheetService, SpreadsheetError};

verus! {

/// Two to the power `a`.
pub open spec fn pow2(a: nat) -> int
    decreases a,
{
    if a == 0 {
        1
    } else {
        2 * pow2((a - 1) as nat)
    }
}

proof fn lemma_pow2_pos(a: nat)
    ensures
        pow2(a) >= 1,
    decreases a,
{
    if a > 0 {
        lemma_pow2_pos((a - 1) as nat);
    }
}

/// The delay before the next attempt: the base delay doubled once per
/// attempt already made, saturating at the largest representable delay.
pub open spec fn spec_retry_delay(base: u64, attempt: nat) -> int {
    if base * pow2(attempt) > u64::MAX {
        u64::MAX as int
    } else {
        base * pow2(attempt)
    }
}

/// Computes the backoff delay for an attempt.
pub fn retry_delay_ms(base: u64, attempt: u32) -> (r: u64)
    ensures
        r == spec_retry_delay(base, attempt as nat),
{
    let mut d: u64 = base;
    let mut i: u32 = 0;
    while i < attempt
        invariant
            i <= attempt,
            d == spec_retry_delay(base, i as nat),
        decreases attempt - i,
    {
        proof {
            lemma_pow2_pos(i as nat);
            assert(pow2((i + 1) as nat) == 2 * pow2(i as nat));
            assert(base * pow2((i + 1) as nat) == 2 * (base * pow2(i as nat))) by (nonlinear_arith)
                requires
                    pow2((i + 1) as nat) == 2 * pow2(i as nat),
            ;
        }
        match d.checked_mul(2) {
            Some(v) => {
                proof {
                    if base * pow2(i as nat) > u64::MAX {
                        assert(d == u64::MAX);
                        assert(v == 2 * (u64::MAX as int));
                        assert(false);
                    } else {
                        assert(d == base * pow2(i as nat));
                        assert(v == base * pow2((i + 1) as nat));
                        assert(v <= u64::MAX);
                    }
                }
                d = v;
            },
            None => {
                proof {
                    if base * pow2(i as nat) > u64::MAX {
                        assert(base * pow2((i + 1) as nat) >= base * pow2(i as nat))
                            by (nonlinear_arith)
                            requires
                                pow2((i + 1) as nat) == 2 * pow2(i as nat),
                                pow2(i as nat) >= 1,
                                base >= 0,
                        ;
                    } else {
                        assert(d == base * pow2(i as nat));
                        assert(base * pow2((i + 1) as nat) > u64::MAX);
                    }
                }
                d = u64::MAX;
            },
        }
        i += 1;
    }
    d
}

/// Whether a failed attempt is tried again: only transient errors, and
/// only while attempts remain.
pub open spec fn spec_should_retry(transient: bool, attempt: u32, max_retries: u32) -> bool {
    transient && attempt < max_retries
}

/// Decides whether to retry after a failure.
pub fn should_retry(err: &SpreadsheetError, attempt: u32, max_retries: u32) -> (r: bool)
    ensures
        r == spec_should_retry(err@ is Transient, attempt, max_retries),
{
    err.is_retryable() && attempt < max_retries
}

/// Something that can wait out a backoff delay. The library itself never
/// sleeps; callers wanting real pacing supply their own implementation.
pub trait Pause {
    /// Waits for about `delay_ms` milliseconds.
    fn pause(&mut self, delay_ms: u64);
}

/// A pause that does not wait: retries run back to back.
#[derive(Debug)]
pub struct NoPause;

impl Pause for NoPause {
    fn pause(&mut self, delay_ms: u64) {
        let _ = delay_ms;
    }
}

/// Wrapper that retries transient failures of the wrapped port, pausing
/// `base_delay_ms * 2^attempt` between attempts.
#[derive(Debug)]
pub struct RetryingService<S, P> {
    inner: S,
    max_retries: u32,
    base_delay_ms: u64,
    pauser: P,
}

impl<S: CloudSpreadsheetService> RetryingService<S, NoPause> {
    /// Wraps `inner`, retrying up to `max_retries` times with the given
    /// base delay, without actually pausing between attempts.
    pub fn new(inner: S, max_retries: u32, base_delay_ms: u64) -> (r: RetryingService<S, NoPause>)
        ensures
            r.inner_state() == inner,
            r.retry_bound() == max_retries,
            r.base_delay() == base_delay_ms,
    {
        RetryingService { inner, max_retries, base_delay_ms, pauser: NoPause }
    }
}

impl<S: CloudSpreadsheetService, P: Pause> RetryingService<S, P> {
    /// The wrapped port.
    pub closed spec fn inner_state(&self) -> S {
        self.inner
    }

    /// How many retries follow a first failed attempt.
    pub closed spec fn retry_bound(&self) -> u32 {
        self.max_retries
    }

    /// The delay before the first retry, in milliseconds.
    pub closed spec fn base_delay(&self) -> u64 {
        self.base_delay_ms
    }

    /// Wraps `inner` with a pauser that waits out the backoff delays.
    pub fn with_pauser(inner: S, max_retries: u32, base_delay_ms: u64, pauser: P) -> (r:
        RetryingService<S, P>)
        ensures
            r.inner_state() == inner,
            r.retry_bound() == max_retries,
            r.base_delay() == base_delay_ms,
    {
        RetryingService { inner, max_retries, base_delay_ms, pauser }
    }
}

impl<S: CloudSpreadsheetService, P: Pause> CloudSpreadsheetService for RetryingService<S, P> {
    /// Creates a sheet, retrying transient failures.
    fn create_sheet(&mut self, title: &str) -> (r: Result<String, SpreadsheetError>)
        ensures
            final(self).retry_bound() == old(self).retry_bound(),
            final(self).base_delay() == old(self).base_delay(),
    {
        let mut attempt: u32 = 0;
        loop
            invariant
                attempt <= self.max_retries,
                self.max_retries == old(self).retry_bound(),
                self.base_delay_ms == old(self).base_delay(),
            decreases self.max_retries - attempt,
        {
            match self.inner.create_sheet(title) {
                Ok(v) => {
                    return Ok(v);
                },
                Err(e) => {
                    if should_retry(&e, attempt, self.max_retries) {
                        let d = retry_delay_ms(self.base_delay_ms, attempt);
                        self.pauser.pause(d);
                        attempt += 1;
                    } else {
                        return Err(e);
                    }
                },
            }
        }
    }

    /// Appends a row, retrying transient failures. The row is re-sent on
    /// every attempt: duplicate remote writes are an accepted risk.
    fn append_row(&mut self, sheet_id: &str, values: Vec<String>) -> (r: Result<
        (),
        SpreadsheetError,
    >)
        ensures
            final(self).retry_bound() == old(self).retry_bound(),
            final(self).base_delay() == old(self).base_delay(),
    {
        let mut attempt: u32 = 0;
        loop
            invariant
                attempt <= self.max_retries,
                self.max_retries == old(self).retry_bound(),
                self.base_delay_ms == old(self).base_delay(),
            decreases self.max_retries - attempt,
        {
            let row = crate::record::clone_strings(&values);
            match self.inner.append_row(sheet_id, row) {
                Ok(v) => {
                    return Ok(v);
                },
                Err(e) => {
                    if should_retry(&e, attempt, self.max_retries) {
                        let d = retry_delay_ms(self.base_delay_ms, attempt);
                        self.pauser.pause(d);
                        attempt += 1;
                    } else {
                        return Err(e);
                    }
                },
            }
        }
    }

    /// Appends rows, retrying transient failures; all rows are re-sent on
    /// every attempt.
    fn append_rows(&mut self, sheet_id: &str, rows: Vec<Vec<String>>) -> (r: Result<
        (),
        SpreadsheetError,
    >)
        ensures
            final(self).retry_bound() == old(self).retry_bound(),
            final(self).base_delay() == old(self).base_delay(),
    {
        let mut attempt: u32 = 0;
        loop
            invariant
                attempt <= self.max_retries,
                self.max_retries == old(self).retry_bound(),
                self.base_delay_ms == old(self).base_delay(),
            decreases self.max_retries - attempt,
        {
            let batch = clone_rows(&rows);
            match self.inner.append_rows(sheet_id, batch) {
                Ok(v) => {
                    return Ok(v);
                },
                Err(e) => {
                    if should_retry(&e, attempt, self.max_retries) {
                        let d = retry_delay_ms(self.base_delay_ms, attempt);
                        self.pauser.pause(d);
                        attempt += 1;
                    } else {
                        return Err(e);
                    }
                },
            }
        }
    }

    /// Reads a row, retrying transient failures.
    fn read_row(&mut self, sheet_id: &str, index: usize) -> (r: Result<
        Vec<String>,
        SpreadsheetError,
    >)
        ensures
            final(self).retry_bound() == old(self).retry_bound(),
            final(self).base_delay() == old(self).base_delay(),
    {
        let mut attempt: u32 = 0;
        loop
            invariant
                attempt <= self.max_retries,
                self.max_retries == old(self).retry_bound(),
                self.base_delay_ms == old(self).base_delay(),
            decreases self.max_retries - attempt,
        {
            match self.inner.read_row(sheet_id, index) {
                Ok(v) => {
                    return Ok(v);
                },
                Err(e) => {
                    if should_retry(&e, attempt, self.max_retries) {
                        let d = retry_delay_ms(self.base_delay_ms, attempt);
                        self.pauser.pause(d);
                        attempt += 1;
                    } else {
                        return Err(e);
                    }
                },
            }
        }
    }

    /// Lists rows, retrying transient failures.
    fn list_rows(&mut self, sheet_id: &str) -> (r: Result<Vec<Vec<String>>, SpreadsheetError>)
        ensures
            final(self).retry_bound() == old(self).retry_bound(),
            final(self).base_delay() == old(self).base_delay(),
    {
        let mut attempt: u32 = 0;
        loop
            invariant
                attempt <= self.max_retries,
                self.max_retries == old(self).retry_bound(),
                self.base_delay_ms == old(self).base_delay(),
            decreases self.max_retries - attempt,
        {
            match self.inner.list_rows(sheet_id) {
                Ok(v) => {
                    return Ok(v);
                },
                Err(e) => {
                    if should_retry(&e, attempt, self.max_retries) {
                        let d = retry_delay_ms(self.base_delay_ms, attempt);
                        self.pauser.pause(d);
                        attempt += 1;
                    } else {
                        return Err(e);
                    }
                },
            }
        }
    }

    /// Shares a sheet, retrying transient failures.
    fn share_sheet(&mut self, sheet_id: &str, email: &str) -> (r: Result<(), SpreadsheetError>)
        ensures
            final(self).retry_bound() == old(self).retry_bound(),
            final(self).base_delay() == old(self).base_delay(),
    {
        let mut attempt: u32 = 0;
        loop
            invariant
                attempt <= self.max_retries,
                self.max_retries == old(self).retry_bound(),
                self.base_delay_ms == old(self).base_delay(),
            decreases self.max_retries - attempt,
        {
            match self.inner.share_sheet(sheet_id, email) {
                Ok(v) => {
                    return Ok(v);
                },
                Err(e) => {
                    if should_retry(&e, attempt, self.max_retries) {
                        let d = retry_delay_ms(self.base_delay_ms, attempt);
                        self.pauser.pause(d);
                        attempt += 1;
                    } else {
                        return Err(e);
                    }
                },
            }
        }
    }
}

/// A copy of a row batch with the same cells.
pub(crate) fn clone_rows(v: &Vec<Vec<String>>) -> (r: Vec<Vec<String>>)
    ensures
        r.deep_view() == v.deep_view(),
{
    let mut r: Vec<Vec<String>> = Vec::new();
    let mut i: usize = 0;
    while i < v.len()
        invariant
            i <= v.len(),
            r.len() == i,
            forall|j: int| 0 <= j < i ==> r.deep_view()[j] == v.deep_view()[j],
        decreases v.len() - i,
    {
        let ghost before = r.deep_view();
        r.push(crate::record::clone_strings(&v[i]));
        proof {
            assert forall|j: int| 0 <= j < i + 1 implies r.deep_view()[j] == v.deep_view()[j] by {
                if j < i {
                    assert(r.deep_view()[j] == before[j]);
                } else {
                    assert(r.deep_view()[j] == r@[j].deep_view());
                }
            }
        }
        i += 1;
    }
    proof {
        assert(r.deep_view() =~= v.deep_view());
    }
    r
}

} // verus!
