//! The progress counter: workers count samples locally and publish them to a
//! shared total in batches; a reporter reads the total and extrapolates the
//! time left.
use vstd::prelude::*;
use std::sync::Arc;
use std::sync::atomic::{AtomicUsize, Ordering};

verus! {

/// The state shared by every handle of one progress counter.
pub struct ETAStore {
    timeout: u64,
    total: usize,
    current: AtomicUsize,
}

impl ETAStore {
    pub closed spec fn spec_timeout(&self) -> u64 {
        self.timeout
    }

    pub closed spec fn spec_total(&self) -> usize {
        self.total
    }

    /// Adds `n` samples to the shared total.
    fn count(&self, n: usize) {
        self.current.fetch_add(n, Ordering::Relaxed);
    }

    /// The samples counted so far by all handles. Other threads may count at
    /// any time, so nothing is known of the value.
    pub fn current(&self) -> usize {
        self.current.load(Ordering::Relaxed)
    }

    /// The number of samples the run is to take.
    pub fn total(&self) -> (r: usize)
        ensures
            r == self.spec_total(),
    {
        self.total
    }

    /// Milliseconds between two progress reports.
    pub fn timeout(&self) -> (r: u64)
        ensures
            r == self.spec_timeout(),
    {
        self.timeout
    }
}

/// One worker's handle on a progress counter. Counts are kept locally and
/// published once they reach `section_total`.
pub struct ETA {
    eta_store: Arc<ETAStore>,
    current: usize,
    section_total: usize,
}

impl ETA {
    pub closed spec fn spec_current(&self) -> usize {
        self.current
    }

    pub closed spec fn spec_section_total(&self) -> usize {
        self.section_total
    }

    pub closed spec fn spec_store(&self) -> ETAStore {
        *self.eta_store
    }

    /// A counter for a run of `total` samples, publishing every
    /// `section_total` samples, to be reported every `timeout` milliseconds.
    pub fn new(total: usize, section_total: usize, timeout: u64) -> (r: ETA)
        ensures
            r.spec_current() == 0,
            r.spec_section_total() == section_total,
            r.spec_store().spec_total() == total,
            r.spec_store().spec_timeout() == timeout,
    {
        let eta_store = Arc::new(ETAStore { timeout, total, current: AtomicUsize::new(0) });
        ETA { eta_store, current: 0, section_total }
    }

    /// Counts one sample.
    pub fn count(&mut self)
        ensures
            final(self).spec_section_total() == old(self).spec_section_total(),
            final(self).spec_store() == old(self).spec_store(),
            final(self).spec_current() == if old(self).spec_current() + 1 >= old(self).spec_section_total() {
                0
            } else {
                old(self).spec_current() + 1
            },
    {
        self.count_n(1);
    }

    /// Counts `n` samples. Once the local count reaches the section size it
    /// is published to the shared total and starts again from zero. The
    /// local count saturates at `usize::MAX`.
    pub fn count_n(&mut self, n: usize)
        ensures
            final(self).spec_section_total() == old(self).spec_section_total(),
            final(self).spec_store() == old(self).spec_store(),
            final(self).spec_current() == if old(self).spec_current() + n >= old(self).spec_section_total() {
                0
            } else {
                old(self).spec_current() + n
            },
    {
        self.current = self.current.saturating_add(n);
        if self.current >= self.section_total {
            self.eta_store.count(self.current);
            self.current = 0;
        }
    }

    /// The shared state, for the reporter.
    pub fn store(&self) -> (r: Arc<ETAStore>)
        ensures
            *r == self.spec_store(),
    {
        self.eta_store.clone()
    }

    /// Samples counted locally and not yet published.
    pub fn pending(&self) -> (r: usize)
        ensures
            r == self.spec_current(),
    {
        self.current
    }
}

impl Clone for ETA {
    /// Another handle on the same shared total, with an empty local count.
    fn clone(&self) -> (r: ETA)
        ensures
            r.spec_current() == 0,
            r.spec_section_total() == self.spec_section_total(),
            r.spec_store() == self.spec_store(),
    {
        ETA { eta_store: self.eta_store.clone(), current: 0, section_total: self.section_total }
    }
}

/// Seconds left when `current` of `total` samples took `elapsed_ms`
/// milliseconds, extrapolated linearly; clamped to the range of `u64`.
pub open spec fn remaining_secs(elapsed_ms: u64, current: usize, total: usize) -> int {
    let left: int = if total > current { total - current } else { 0 };
    let secs: int = (elapsed_ms as int) * left / (current as int) / 1000;
    if secs > u64::MAX { u64::MAX as int } else { secs }
}

/// The estimated time left, in seconds; `None` before anything was counted.
pub fn estimate_remaining_secs(elapsed_ms: u64, current: usize, total: usize) -> (r: Option<u64>)
    ensures
        current == 0 ==> r.is_none(),
        current > 0 ==> r == Some(remaining_secs(elapsed_ms, current, total) as u64),
{
    if current == 0 {
        return None;
    }
    let left: usize = if total > current { total - current } else { 0 };
    assert((elapsed_ms as int) * (left as int) <= u64::MAX * u64::MAX) by (nonlinear_arith)
        requires
            elapsed_ms <= u64::MAX,
            left <= u64::MAX,
    ;
    assert(u64::MAX * u64::MAX <= u128::MAX);
    let product: u128 = (elapsed_ms as u128) * (left as u128);
    let secs: u128 = product / (current as u128) / 1000;
    if secs > u64::MAX as u128 {
        Some(u64::MAX)
    } else {
        Some(secs as u64)
    }
}

/// Splits a number of seconds into hours, minutes and seconds.
pub fn split_hms(secs: u64) -> (r: (u64, u64, u64))
    ensures
        r.0 == secs / 3600,
        r.1 == (secs / 60) % 60,
        r.2 == secs % 60,
        3600 * r.0 + 60 * r.1 + r.2 == secs,
{
    (secs / (60 * 60), (secs / 60) % 60, secs % 60)
}

} // verus!
