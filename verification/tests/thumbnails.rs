use photo_picker::thumbnails::{needs_regen, plan_thumbnail_work, SourceStat, ThumbRow};

#[test]
fn pending_always_regenerates() {
    assert!(needs_regen("pending", None, 100, false));
    assert!(needs_regen("pending", Some(100), 100, true));
}

#[test]
fn done_skips_when_file_present_and_mtime_matches() {
    assert!(!needs_regen("done", Some(100), 100, true));
}

#[test]
fn done_regenerates_when_file_missing() {
    assert!(needs_regen("done", Some(100), 100, false));
}

#[test]
fn done_regenerates_when_source_mtime_changed() {
    assert!(needs_regen("done", Some(100), 200, true));
}

#[test]
fn failed_retries_only_when_source_changed() {
    assert!(!needs_regen("failed", Some(100), 100, false));
    assert!(needs_regen("failed", Some(100), 200, false));
    assert!(needs_regen("failed", None, 100, false));
}

#[test]
fn unexpected_status_regenerates() {
    assert!(needs_regen("weird", Some(100), 100, true));
}

fn row(id: &str, status: &str, stored: Option<i64>) -> ThumbRow {
    ThumbRow {
        id: id.to_string(),
        path: format!("/{id}.jpg"),
        thumb_status: status.to_string(),
        thumb_src_mtime: stored,
    }
}

#[test]
fn stat_filter_keeps_only_stale_thumbnails() {
    let rows = vec![
        row("fresh", "done", Some(100)),
        row("edited", "done", Some(100)),
        row("gone", "pending", None),
        row("new", "pending", None),
        row("bad", "failed", Some(7)),
    ];
    let stats = vec![
        Some(SourceStat { mtime_nanos: 100, dest_exists: true }),
        Some(SourceStat { mtime_nanos: 200, dest_exists: true }),
        None,
        Some(SourceStat { mtime_nanos: 5, dest_exists: false }),
        Some(SourceStat { mtime_nanos: 7, dest_exists: false }),
    ];
    let (work, skipped) = plan_thumbnail_work(&rows, &stats);
    let ids: Vec<&str> = work.iter().map(|w| w.id.as_str()).collect();
    assert_eq!(ids, vec!["edited", "new"]);
    assert_eq!(work[0].path, "/edited.jpg");
    assert_eq!(work[0].mtime_nanos, 200);
    assert_eq!(work[1].mtime_nanos, 5);
    assert_eq!(skipped, 3);
}

#[test]
fn stat_filter_of_nothing_is_empty() {
    let (work, skipped) = plan_thumbnail_work(&[], &[]);
    assert!(work.is_empty());
    assert_eq!(skipped, 0);
}
