use photo_picker::batch::{BatchTally, Outcome};
use photo_picker::model::{AnalyzeSummary, AppError, ThumbnailSummary};
use photo_picker::progress::{STATUS_CANCELLED, STATUS_DONE, STATUS_ERROR};

#[test]
fn tally_counts_each_outcome() {
    let mut t = BatchTally::new(2);
    assert!(!t.record(Outcome::Stored));
    assert!(!t.record(Outcome::Stored));
    assert!(!t.record(Outcome::FileFailed));
    assert!(!t.record(Outcome::Skipped));
    let (status, result) = t.finish_thumbnails(false);
    assert_eq!(status, STATUS_DONE);
    assert_eq!(
        result,
        Ok(ThumbnailSummary { generated: 2, skipped: 3, failed: 1, cancelled: false })
    );
}

#[test]
fn user_cancel_reports_cancelled() {
    let mut t = BatchTally::new(0);
    t.record(Outcome::Stored);
    t.record(Outcome::Skipped);
    let (status, result) = t.finish_analysis(true);
    assert_eq!(status, STATUS_CANCELLED);
    assert_eq!(result, Ok(AnalyzeSummary { analyzed: 1, failed: 0, cancelled: true }));
}

#[test]
fn infra_failure_stops_and_reports_the_first_error() {
    let mut t = BatchTally::new(0);
    t.record(Outcome::Stored);
    assert!(t.record(Outcome::Transport(AppError::Sidecar("sidecar timeout (30s)".to_string()))));
    assert!(t.record(Outcome::Transport(AppError::Sidecar("sidecar reader dropped".to_string()))));
    t.record(Outcome::Skipped);
    // the stop flag is set too, but an infra stop never looks like a cancel
    let (status, result) = t.finish_analysis(true);
    assert_eq!(status, STATUS_ERROR);
    assert_eq!(result, Err(AppError::Sidecar("sidecar timeout (30s)".to_string())));
}

#[test]
fn empty_batch_is_done_with_zero_counts() {
    let t = BatchTally::new(0);
    let (status, result) = t.finish_thumbnails(false);
    assert_eq!(status, STATUS_DONE);
    assert_eq!(
        result,
        Ok(ThumbnailSummary { generated: 0, skipped: 0, failed: 0, cancelled: false })
    );
}
