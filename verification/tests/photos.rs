use photo_picker::digest::transcode_cache_key;
use photo_picker::model::{AppError, ExportSummary};
use photo_picker::photos::{
    collision_name, next_target, split_file_name, status_update_result, target_name, validate_status,
    ExportStep, TargetStep, MAX_RENAMES, STATUSES,
};

#[test]
fn statuses_constant_accepts_only_known_values() {
    for ok in ["pending", "keep", "reject"] {
        assert!(STATUSES.contains(&ok), "{ok} must be valid");
    }
    for bad in ["", "Keep", "deleted", "unknown"] {
        assert!(!STATUSES.contains(&bad), "{bad} must be rejected");
    }
}

#[test]
fn cache_key_is_stable_for_same_inputs() {
    let k1 = transcode_cache_key("/photos/img.heic", 1_700_000_000_000_000_000);
    let k2 = transcode_cache_key("/photos/img.heic", 1_700_000_000_000_000_000);
    assert_eq!(k1, k2);
}

#[test]
fn cache_key_differs_when_mtime_changes() {
    let k1 = transcode_cache_key("/photos/img.heic", 1_000);
    let k2 = transcode_cache_key("/photos/img.heic", 2_000);
    assert_ne!(k1, k2, "different mtime must produce a different key");
}

#[test]
fn cache_key_differs_when_path_changes() {
    let k1 = transcode_cache_key("/photos/a.heic", 1_000);
    let k2 = transcode_cache_key("/photos/b.heic", 1_000);
    assert_ne!(k1, k2, "different path must produce a different key");
}

#[test]
fn cache_key_hex_is_64_chars() {
    let k = transcode_cache_key("/foo/bar.heic", 0);
    assert_eq!(k.len(), 64);
}

#[test]
fn cache_key_is_blake3_of_path_bar_mtime() {
    let k = transcode_cache_key("/photos/img.heic", 1234);
    let expected = blake3::hash(b"/photos/img.heic|1234").to_hex().to_string();
    assert_eq!(k, expected);
}

#[test]
fn validate_status_accepts_the_three_values() {
    for ok in ["pending", "keep", "reject"] {
        assert_eq!(validate_status(ok), Ok(()));
    }
}

#[test]
fn validate_status_names_the_bad_value() {
    assert_eq!(
        validate_status("bogus"),
        Err(AppError::Validation("invalid status: bogus".to_string()))
    );
    assert_eq!(
        validate_status("Keep"),
        Err(AppError::Validation("invalid status: Keep".to_string()))
    );
}

#[test]
fn zero_updated_rows_is_not_found() {
    assert_eq!(
        status_update_result(0),
        Err(AppError::NotFound("no photo with that id".to_string()))
    );
    assert_eq!(status_update_result(1), Ok(()));
}

#[test]
fn split_file_name_at_last_dot() {
    assert_eq!(split_file_name("a.jpg"), ("a".to_string(), Some("jpg".to_string())));
    assert_eq!(split_file_name("a.b.jpg"), ("a.b".to_string(), Some("jpg".to_string())));
    assert_eq!(split_file_name("noext"), ("noext".to_string(), None));
    assert_eq!(split_file_name(".bashrc"), (".bashrc".to_string(), None));
    assert_eq!(split_file_name("trailing."), ("trailing".to_string(), Some(String::new())));
    assert_eq!(split_file_name(".."), (String::new(), None));
    assert_eq!(split_file_name("."), (String::new(), None));
}

#[test]
fn collision_names_follow_stem_n_ext() {
    assert_eq!(collision_name("a", Some("jpg"), 1), "a (1).jpg");
    assert_eq!(collision_name("a", Some("jpg"), 2), "a (2).jpg");
    assert_eq!(collision_name("noext", None, 1), "noext (1)");
    assert_eq!(collision_name("x", Some("png"), 9999), "x (9999).png");
}

#[test]
fn target_names_start_with_the_original() {
    assert_eq!(target_name("a.jpg", 0), "a.jpg");
    assert_eq!(target_name("a.jpg", 1), "a (1).jpg");
    assert_eq!(target_name("a.jpg", 2), "a (2).jpg");
    assert_eq!(target_name("noext", 1), "noext (1)");
}

#[test]
fn free_original_name_is_kept() {
    match next_target("a.jpg", 0, false) {
        TargetStep::Chosen(name, renamed) => {
            assert_eq!(name, "a.jpg");
            assert!(!renamed);
        }
        _ => panic!("expected the original name"),
    }
}

#[test]
fn taken_names_probe_the_next_rename() {
    match next_target("a.jpg", 0, true) {
        TargetStep::Probe(name) => assert_eq!(name, "a (1).jpg"),
        _ => panic!("expected a probe"),
    }
    match next_target("a.jpg", 1, true) {
        TargetStep::Probe(name) => assert_eq!(name, "a (2).jpg"),
        _ => panic!("expected a probe"),
    }
    match next_target("a.jpg", 2, false) {
        TargetStep::Chosen(name, renamed) => {
            assert_eq!(name, "a (2).jpg");
            assert!(renamed);
        }
        _ => panic!("expected a renamed target"),
    }
    match next_target("noext", 0, true) {
        TargetStep::Probe(name) => assert_eq!(name, "noext (1)"),
        _ => panic!("expected a probe"),
    }
}

#[test]
fn all_renames_taken_is_exhausted() {
    assert!(matches!(next_target("a.jpg", MAX_RENAMES, true), TargetStep::Exhausted));
}

#[test]
fn export_summary_accounts_every_keep() {
    let mut s = ExportSummary::new();
    s.record("/src/a.jpg", ExportStep::Copied(false));
    s.record("/src/b.jpg", ExportStep::Copied(true));
    s.record("/dest/c.jpg", ExportStep::AlreadyInDest);
    s.record("/", ExportStep::NoFileName);
    s.record("/src/d.jpg", ExportStep::NoFreeName);
    s.record("/src/gone.jpg", ExportStep::CopyFailed("No such file".to_string()));
    assert_eq!(s.exported, 2);
    assert_eq!(s.renamed, 1);
    assert_eq!(s.skipped, 1);
    assert_eq!(s.failed.len(), 3);
    assert_eq!(s.failed[0].source, "/");
    assert_eq!(s.failed[0].reason, "source path has no file name");
    assert_eq!(s.failed[1].source, "/src/d.jpg");
    assert_eq!(s.failed[1].reason, "too many name collisions (>9999) at destination");
    assert_eq!(s.failed[2].source, "/src/gone.jpg");
    assert_eq!(s.failed[2].reason, "No such file");
}

#[test]
fn empty_export_summary_is_all_zero() {
    let s = ExportSummary::new();
    assert_eq!(s.exported, 0);
    assert_eq!(s.renamed, 0);
    assert_eq!(s.skipped, 0);
    assert!(s.failed.is_empty());
}

#[test]
fn rename_candidates_are_all_different() {
    let names: Vec<String> = (0..=12).map(|n| target_name("a (1).jpg", n)).collect();
    for i in 0..names.len() {
        for j in (i + 1)..names.len() {
            assert_ne!(names[i], names[j]);
        }
    }
    assert_eq!(names[1], "a (1) (1).jpg");
}
