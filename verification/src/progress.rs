use vstd::prelude::*;
use crate::model::ProgressEvent;

verus! {

/// The event name the frontend listens on.
pub const EVENT: &'static str = "pipeline://progress";

pub const PHASE_IMPORT: &'static str = "import";
pub const PHASE_ANALYZE: &'static str = "analyze";
pub const PHASE_GROUP: &'static str = "group";
pub const PHASE_THUMBNAIL: &'static str = "thumbnail";

pub const STATUS_RUNNING: &'static str = "running";
pub const STATUS_DONE: &'static str = "done";
pub const STATUS_CANCELLED: &'static str = "cancelled";
/// Terminal tick for an infra/transport failure, distinct from a user cancel.
pub const STATUS_ERROR: &'static str = "error";

/// A determinate (`total = Some`) or indeterminate running tick.
pub fn running(phase: &'static str, done: u32, total: Option<u32>) -> (ev: ProgressEvent)
    ensures
        ev == (ProgressEvent { phase, done, total, status: STATUS_RUNNING }),
{
    ProgressEvent { phase, done, total, status: STATUS_RUNNING }
}

/// A terminal tick; `status` is one of `STATUS_DONE`, `STATUS_CANCELLED` or
/// `STATUS_ERROR`.
pub fn terminal(phase: &'static str, done: u32, total: Option<u32>, status: &'static str) -> (ev: ProgressEvent)
    ensures
        ev == (ProgressEvent { phase, done, total, status }),
{
    ProgressEvent { phase, done, total, status }
}

} // verus!
