use photo_picker::browse::cmp_opt_asc;
use photo_picker::db::migrations_to_apply;
use photo_picker::model::{AppError, ProgressEvent};
use photo_picker::progress::{running, terminal, PHASE_ANALYZE, PHASE_IMPORT, STATUS_DONE, STATUS_RUNNING};
use photo_picker::scanner::{insert_tick, walk_tick};
use photo_picker::sidecar::{flatten_reply, require_sidecars, response_payload, split_reply};
use std::cmp::Ordering;

#[test]
fn iso_timestamps_sort_ascending_with_missing_last() {
    assert_eq!(cmp_opt_asc(Some("2026-05-01T09:00:00"), Some("2026-05-01T10:00:00")), Ordering::Less);
    assert_eq!(cmp_opt_asc(Some("2026-05-02T10:00:00"), Some("2026-05-01T10:00:00")), Ordering::Greater);
    assert_eq!(cmp_opt_asc(Some("x"), Some("x")), Ordering::Equal);
    assert_eq!(cmp_opt_asc(Some("x"), None), Ordering::Less);
    assert_eq!(cmp_opt_asc(None, Some("x")), Ordering::Greater);
    assert_eq!(cmp_opt_asc(None, None), Ordering::Equal);
}

#[test]
fn migrations_run_only_the_missing_versions() {
    assert_eq!(migrations_to_apply(0, 4), vec![1, 2, 3, 4]);
    assert_eq!(migrations_to_apply(3, 5), vec![4, 5]);
    assert_eq!(migrations_to_apply(4, 4), Vec::<u32>::new());
    assert_eq!(migrations_to_apply(7, 4), Vec::<u32>::new());
}

#[test]
fn sidecar_response_prefers_result_then_error() {
    assert_eq!(response_payload(Some(7), Some("ignored".to_string())), Ok(7));
    assert_eq!(response_payload::<i32>(None, Some("bad file".to_string())), Err("bad file".to_string()));
    assert_eq!(response_payload::<i32>(None, None), Err("empty response".to_string()));
}

#[test]
fn empty_sidecar_pool_is_an_error() {
    assert_eq!(
        require_sidecars(0),
        Err(AppError::Sidecar("not started; check that uv and python are on PATH".to_string()))
    );
    assert_eq!(require_sidecars(3), Ok(()));
}

#[test]
fn progress_is_throttled() {
    assert!(!walk_tick(199));
    assert!(walk_tick(200));
    assert!(walk_tick(400));
    assert!(insert_tick(50, 120));
    assert!(!insert_tick(51, 120));
    assert!(insert_tick(120, 120));
}

#[test]
fn progress_events_carry_their_fields() {
    assert_eq!(
        running(PHASE_IMPORT, 200, None),
        ProgressEvent { phase: "import", done: 200, total: None, status: STATUS_RUNNING }
    );
    assert_eq!(
        terminal(PHASE_ANALYZE, 3, Some(3), STATUS_DONE),
        ProgressEvent { phase: "analyze", done: 3, total: Some(3), status: "done" }
    );
}

#[test]
fn errors_render_as_kind_and_message() {
    assert_eq!(AppError::NotFound("no photo with that id".to_string()).describe(), "NotFound: no photo with that id");
    assert_eq!(AppError::Sidecar("x".to_string()).describe(), "Sidecar: x");
    assert_eq!(AppError::Db("locked".to_string()).describe(), "Db: locked");
    assert_eq!(AppError::Io("denied".to_string()).describe(), "Io: denied");
    assert_eq!(AppError::Validation("v".to_string()).describe(), "Validation: v");
}

#[test]
fn batch_replies_keep_op_errors_and_stop_on_transport() {
    assert_eq!(split_reply::<i32>(Ok(Ok(1))), Ok(Ok(1)));
    assert_eq!(split_reply::<i32>(Ok(Err("bad file".to_string()))), Ok(Err("bad file".to_string())));
    assert_eq!(
        split_reply::<i32>(Err("sidecar timeout (30s)".to_string())),
        Err(AppError::Sidecar("sidecar timeout (30s)".to_string()))
    );
}

#[test]
fn single_shot_replies_fail_on_any_error() {
    assert_eq!(flatten_reply::<i32>(Ok(Ok(1))), Ok(1));
    assert_eq!(
        flatten_reply::<i32>(Ok(Err("unsupported file".to_string()))),
        Err(AppError::Sidecar("unsupported file".to_string()))
    );
    assert_eq!(
        flatten_reply::<i32>(Err("sidecar reader dropped".to_string())),
        Err(AppError::Sidecar("sidecar reader dropped".to_string()))
    );
}
