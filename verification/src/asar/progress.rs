//! Progress reporting and cancellation for long archive operations.

use std::sync::atomic::AtomicBool;
use std::sync::atomic::Ordering;
use std::sync::Arc;
use vstd::prelude::*;

use super::error::AsarError;

verus! {

/// What an archive operation reports while it runs.
#[derive(Debug, Clone)]
pub enum ProgressEvent {
    Started { total_bytes: u64, total_files: u64 },
    FileStarted { path: String, bytes: u64 },
    Bytes { delta: u64 },
    FileFinished,
    Finished,
}

/// An optional observer of progress events and an optional cancellation flag.
pub struct Progress<F> {
    callback: Option<F>,
    cancel: Option<Arc<AtomicBool>>,
}

impl<F> Progress<F> {
    /// Whether an observer is installed.
    pub closed spec fn has_callback(self) -> bool {
        self.callback is Some
    }

    /// Whether a cancellation flag is installed.
    pub closed spec fn has_cancel(self) -> bool {
        self.cancel is Some
    }

    /// The installed observer, where there is one.
    pub closed spec fn callback_spec(self) -> Option<F> {
        self.callback
    }

    /// The installed cancellation flag, where there is one.
    pub closed spec fn cancel_spec(self) -> Option<Arc<AtomicBool>> {
        self.cancel
    }

    /// No observer and no cancellation flag.
    pub fn new() -> (p: Self)
        ensures
            p.callback_spec() == None::<F>,
            p.cancel_spec() == None::<Arc<AtomicBool>>,
    {
        Progress { callback: None, cancel: None }
    }

    /// The same progress with `f` as its observer.
    pub fn with_callback<G: FnMut(ProgressEvent)>(self, f: G) -> (p: Progress<G>)
        ensures
            p.callback_spec() == Some(f),
            p.cancel_spec() == self.cancel_spec(),
    {
        Progress { callback: Some(f), cancel: self.cancel }
    }

    /// The same progress with `flag` as its cancellation flag.
    pub fn with_cancel(self, flag: Arc<AtomicBool>) -> (p: Self)
        ensures
            p.callback_spec() == self.callback_spec(),
            p.cancel_spec() == Some(flag),
    {
        Progress { callback: self.callback, cancel: Some(flag) }
    }

    /// `Err(Cancelled)` when the cancellation flag is installed and set;
    /// without a flag, always `Ok`. The flag is shared with other threads,
    /// so what it reads is not known here: the answer is that of
    /// `cancel_answer` for what was read.
    pub fn check_cancel(&self) -> (r: Result<(), AsarError>)
        ensures
            self.cancel_spec() is None ==> r == cancel_result(false),
            exists|set: bool| r == #[trigger] cancel_result(set),
    {
        match &self.cancel {
            Some(flag) => {
                let set = flag.load(Ordering::Relaxed);
                let r = cancel_answer(set);
                assert(r == cancel_result(set));
                r
            },
            None => {
                let r = cancel_answer(false);
                assert(r == cancel_result(false));
                r
            },
        }
    }
}

/// The answer of a cancellation check whose flag read `set`.
pub open spec fn cancel_result(set: bool) -> Result<(), AsarError> {
    if set {
        Err(AsarError::Cancelled)
    } else {
        Ok(())
    }
}

/// The answer of a cancellation check whose flag read `set`:
/// `Err(Cancelled)` exactly when it was set.
pub fn cancel_answer(set: bool) -> (r: Result<(), AsarError>)
    ensures
        r == cancel_result(set),
{
    if set {
        Err(AsarError::Cancelled)
    } else {
        Ok(())
    }
}

impl<F> Default for Progress<F> {
    /// No observer and no cancellation flag.
    fn default() -> (p: Self)
        ensures
            p.callback_spec() == None::<F>,
            p.cancel_spec() == None::<Arc<AtomicBool>>,
    {
        Self::new()
    }
}

impl<F: FnMut(ProgressEvent)> Progress<F> {
    /// Hands `event` to the observer, if there is one; the observer and the
    /// flag stay installed.
    pub fn emit(&mut self, event: ProgressEvent)
        requires
            old(self).callback_spec() matches Some(cb) ==> call_requires(cb, (event,)),
        ensures
            final(self).has_callback() == old(self).has_callback(),
            final(self).cancel_spec() == old(self).cancel_spec(),
            old(self).callback_spec() matches Some(cb) ==> call_ensures(cb, (event,), ()),
    {
        match &mut self.callback {
            Some(cb) => cb(event),
            None => {},
        }
    }
}

/// Turns the byte counts of one archive operation into overall percentages
/// between `start_pct` and `end_pct`.
pub struct ProgressMeter {
    pub start_pct: u8,
    pub end_pct: u8,
    pub total_bytes: u64,
    pub done: u64,
}

/// The width of the range `start ..= end`, or 0 when it is empty.
pub open spec fn meter_span(start: u8, end: u8) -> int {
    if end >= start {
        end - start
    } else {
        0
    }
}

/// The percentage reported after `done` of `total` bytes, in the range
/// `start ..= end` scaled linearly; an empty range reports `start`.
pub open spec fn meter_pct(start: u8, end: u8, total: u64, done: u64) -> u8 {
    let span: int = meter_span(start, end);
    let raw: int = start + (span * done) / (total as int);
    if raw < end { raw as u8 } else { end }
}

impl ProgressMeter {
    /// A meter for the range `start_pct ..= end_pct` that has seen nothing.
    pub fn new(start_pct: u8, end_pct: u8) -> (m: Self)
        ensures
            m.start_pct == start_pct,
            m.end_pct == end_pct,
            m.total_bytes == 1,
            m.done == 0,
    {
        ProgressMeter { start_pct, end_pct, total_bytes: 1, done: 0 }
    }

    /// Takes one event into account and gives the percentage to report for
    /// it, if any: the start of the range when the operation starts, the
    /// scaled share of the bytes done so far after each chunk of bytes.
    pub fn observe(&mut self, event: &ProgressEvent) -> (r: Option<u8>)
        requires
            old(self).total_bytes >= 1,
            event matches ProgressEvent::Bytes { delta } ==> {
                &&& old(self).done + *delta <= u64::MAX
                &&& meter_span(old(self).start_pct, old(self).end_pct) * (old(self).done + *delta)
                    <= u64::MAX
                &&& old(self).start_pct + meter_span(old(self).start_pct, old(self).end_pct) * (
                old(self).done + *delta) / (old(self).total_bytes as int) <= u64::MAX
            },
        ensures
            final(self).total_bytes >= 1,
            final(self).start_pct == old(self).start_pct,
            final(self).end_pct == old(self).end_pct,
            match *event {
                ProgressEvent::Started { total_bytes, .. } => {
                    &&& final(self).total_bytes == (if total_bytes >= 1 { total_bytes } else { 1 })
                    &&& final(self).done == 0
                    &&& r == Some(old(self).start_pct)
                },
                ProgressEvent::Bytes { delta } => {
                    &&& final(self).total_bytes == old(self).total_bytes
                    &&& final(self).done == old(self).done + delta
                    &&& r == Some(
                        meter_pct(
                            old(self).start_pct,
                            old(self).end_pct,
                            old(self).total_bytes,
                            final(self).done,
                        ),
                    )
                },
                _ => *final(self) == *old(self) && r is None,
            },
    {
        match event {
            ProgressEvent::Started { total_bytes, .. } => {
                self.total_bytes = if *total_bytes >= 1 { *total_bytes } else { 1 };
                self.done = 0;
                Some(self.start_pct)
            },
            ProgressEvent::Bytes { delta } => {
                self.done = self.done + *delta;
                let span: u64 = if self.end_pct >= self.start_pct {
                    (self.end_pct - self.start_pct) as u64
                } else {
                    0
                };
                let raw: u64 = self.start_pct as u64 + span * self.done / self.total_bytes;
                if raw < self.end_pct as u64 {
                    Some(raw as u8)
                } else {
                    Some(self.end_pct)
                }
            },
            _ => None,
        }
    }
}

/// Every reported percentage lies in the meter's range, and more bytes done
/// never report a smaller percentage.
pub proof fn lemma_meter_bounded_monotone(start: u8, end: u8, total: u64, d1: u64, d2: u64)
    requires
        start <= end,
        total >= 1,
        d1 <= d2,
    ensures
        start <= meter_pct(start, end, total, d1) <= end,
        meter_pct(start, end, total, d1) <= meter_pct(start, end, total, d2),
{
    let span: int = end - start;
    assert(span * d1 <= span * d2) by (nonlinear_arith)
        requires 0 <= span, d1 <= d2;
    assert((span * d1) / (total as int) <= (span * d2) / (total as int)) by (nonlinear_arith)
        requires span * d1 <= span * d2, total >= 1, 0 <= span * d1;
    assert(0 <= (span * d1) / (total as int)) by (nonlinear_arith)
        requires 0 <= span * d1, total >= 1;
}

} // verus!
