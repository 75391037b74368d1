use vstd::prelude::*;
use crate::text::concat;

verus! {

broadcast use vstd::string::group_string_axioms;

/// Errors surfaced to the frontend, each with a human-readable message.
#[derive(Debug, PartialEq, Eq)]
pub enum AppError {
    Sidecar(String),
    Db(String),
    Io(String),
    NotFound(String),
    Validation(String),
}

impl AppError {
    /// `"<Kind>: <message>"`, e.g. `"NotFound: no photo with that id"`.
    pub open spec fn rendered(self) -> Seq<char> {
        match self {
            AppError::Sidecar(m) => "Sidecar: "@ + m@,
            AppError::Db(m) => "Db: "@ + m@,
            AppError::Io(m) => "Io: "@ + m@,
            AppError::NotFound(m) => "NotFound: "@ + m@,
            AppError::Validation(m) => "Validation: "@ + m@,
        }
    }

    /// The error as text, `"<Kind>: <message>"`.
    pub fn describe(&self) -> (s: String)
        ensures
            s@ == self.rendered(),
    {
        match self {
            AppError::Sidecar(m) => concat("Sidecar: ", m.as_str()),
            AppError::Db(m) => concat("Db: ", m.as_str()),
            AppError::Io(m) => concat("Io: ", m.as_str()),
            AppError::NotFound(m) => concat("NotFound: ", m.as_str()),
            AppError::Validation(m) => concat("Validation: ", m.as_str()),
        }
    }
}

/// Result of one analysis batch.
#[derive(Debug, PartialEq, Eq)]
pub struct AnalyzeSummary {
    pub analyzed: u32,
    pub failed: u32,
    /// The user cancelled mid-batch (remaining rows stay pending).
    pub cancelled: bool,
}

/// Result of one re-grouping run.
#[derive(Debug, PartialEq, Eq)]
pub struct GroupSummary {
    pub groups: u32,
    pub grouped_photos: u32,
}

/// One keep that could not be exported, and why.
#[derive(Debug, PartialEq, Eq)]
pub struct ExportFailure {
    pub source: String,
    pub reason: String,
}

/// Result of an export: keeps that landed, how many of those were renamed on
/// a name collision, keeps skipped because they already live in the
/// destination, and per-item failures.
#[derive(Debug, PartialEq, Eq)]
pub struct ExportSummary {
    pub exported: usize,
    pub renamed: usize,
    pub skipped: usize,
    pub failed: Vec<ExportFailure>,
}

/// One pipeline progress tick. `total = None` means indeterminate.
#[derive(Debug, PartialEq, Eq)]
pub struct ProgressEvent {
    pub phase: &'static str,
    pub done: u32,
    pub total: Option<u32>,
    pub status: &'static str,
}

/// A project row plus its photo count.
#[derive(Debug, PartialEq, Eq)]
pub struct ProjectSummary {
    pub id: String,
    pub name: String,
    pub created_at: String,
    pub last_opened_at: Option<String>,
    pub photo_count: i64,
}

/// Result of one thumbnail batch.
#[derive(Debug, PartialEq, Eq)]
pub struct ThumbnailSummary {
    pub generated: u32,
    /// Up-to-date cache hits + sources that vanished + photos skipped after a cancel.
    pub skipped: u32,
    pub failed: u32,
    pub cancelled: bool,
}

/// One imported photo with its current stored state.
#[derive(Debug, PartialEq, Eq)]
pub struct PhotoRow {
    pub id: String,
    pub path: String,
    pub status: String,
    pub created_at: String,
}

/// Result of a folder scan: every matched photo plus the count of unreadable
/// entries that were skipped.
#[derive(Debug, PartialEq, Eq)]
pub struct ScanOutcome {
    pub photos: Vec<PhotoRow>,
    pub skipped: u32,
}

} // verus!
