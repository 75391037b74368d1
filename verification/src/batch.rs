use vstd::prelude::*;
use crate::model::{AppError, AnalyzeSummary, ThumbnailSummary};
use crate::progress::{STATUS_DONE, STATUS_CANCELLED, STATUS_ERROR};

verus! {

/// What happened to one photo of a batch (analysis or thumbnails).
pub enum Outcome {
    /// The result was stored.
    Stored,
    /// A per-file failure was stored.
    FileFailed,
    /// Not started because the batch was cancelled or stopped.
    Skipped,
    /// Transport/infra failure: the batch must stop.
    Transport(AppError),
}

/// Running counts of one batch, and the first infra error seen.
pub struct BatchTally {
    pub ok: u32,
    pub failed: u32,
    pub skipped: u32,
    pub infra_error: Option<AppError>,
}

/// The terminal status of a batch: an infra stop reports `error` even though
/// it also set the stop flag, so it never looks like a user cancel.
pub open spec fn batch_status(infra_failed: bool, cancel_flag: bool) -> &'static str {
    if infra_failed {
        STATUS_ERROR
    } else if cancel_flag {
        STATUS_CANCELLED
    } else {
        STATUS_DONE
    }
}

impl BatchTally {
    /// A fresh tally; `skipped` counts photos already passed over before the
    /// batch started.
    pub fn new(skipped: u32) -> (t: Self)
        ensures
            t.ok == 0,
            t.failed == 0,
            t.skipped == skipped,
            t.infra_error is None,
    {
        BatchTally { ok: 0, failed: 0, skipped, infra_error: None }
    }

    /// Record one outcome. Returns `true` when the batch must stop feeding
    /// new photos (an infra failure); the first such error is kept.
    pub fn record(&mut self, outcome: Outcome) -> (stop: bool)
        requires
            outcome is Stored ==> old(self).ok < u32::MAX,
            outcome is FileFailed ==> old(self).failed < u32::MAX,
            outcome is Skipped ==> old(self).skipped < u32::MAX,
        ensures
            stop == (outcome is Transport),
            final(self).ok == old(self).ok + (if outcome is Stored { 1int } else { 0 }),
            final(self).failed == old(self).failed + (if outcome is FileFailed { 1int } else { 0 }),
            final(self).skipped == old(self).skipped + (if outcome is Skipped { 1int } else { 0 }),
            final(self).infra_error == (match old(self).infra_error {
                Some(e) => Some(e),
                None => match outcome {
                    Outcome::Transport(e) => Some(e),
                    _ => None,
                },
            }),
    {
        match outcome {
            Outcome::Stored => {
                self.ok = self.ok + 1;
                false
            },
            Outcome::FileFailed => {
                self.failed = self.failed + 1;
                false
            },
            Outcome::Skipped => {
                self.skipped = self.skipped + 1;
                false
            },
            Outcome::Transport(e) => {
                if self.infra_error.is_none() {
                    self.infra_error = Some(e);
                }
                true
            },
        }
    }

    /// Terminal status and result of a thumbnail batch: the first infra error
    /// if there was one, else the counts; `cancelled` only for a user cancel.
    pub fn finish_thumbnails(self, cancel_flag: bool) -> (res: (&'static str, Result<ThumbnailSummary, AppError>))
        ensures
            res.0 == batch_status(self.infra_error is Some, cancel_flag),
            res.1 == (match self.infra_error {
                Some(e) => Err(e),
                None => Ok(ThumbnailSummary {
                    generated: self.ok,
                    skipped: self.skipped,
                    failed: self.failed,
                    cancelled: cancel_flag,
                }),
            }),
    {
        match self.infra_error {
            Some(e) => (STATUS_ERROR, Err(e)),
            None => {
                let status = if cancel_flag { STATUS_CANCELLED } else { STATUS_DONE };
                (status, Ok(ThumbnailSummary {
                    generated: self.ok,
                    skipped: self.skipped,
                    failed: self.failed,
                    cancelled: cancel_flag,
                }))
            },
        }
    }

    /// Terminal status and result of an analysis batch: the first infra error
    /// if there was one, else the counts; `cancelled` only for a user cancel.
    pub fn finish_analysis(self, cancel_flag: bool) -> (res: (&'static str, Result<AnalyzeSummary, AppError>))
        ensures
            res.0 == batch_status(self.infra_error is Some, cancel_flag),
            res.1 == (match self.infra_error {
                Some(e) => Err(e),
                None => Ok(AnalyzeSummary {
                    analyzed: self.ok,
                    failed: self.failed,
                    cancelled: cancel_flag,
                }),
            }),
    {
        match self.infra_error {
            Some(e) => (STATUS_ERROR, Err(e)),
            None => {
                let status = if cancel_flag { STATUS_CANCELLED } else { STATUS_DONE };
                (status, Ok(AnalyzeSummary { analyzed: self.ok, failed: self.failed, cancelled: cancel_flag }))
            },
        }
    }
}

} // verus!
