use photo_picker::model::AppError;
use photo_picker::projects::{
    created_project, current_after_delete, project_found, require_open_project, trim, validate_project_name,
};

#[test]
fn trim_drops_surrounding_white_space() {
    assert_eq!(trim("  Trip \t\n"), "Trip");
    assert_eq!(trim("Trip"), "Trip");
    assert_eq!(trim("   "), "");
    assert_eq!(trim(""), "");
    assert_eq!(trim(" a b "), "a b");
    assert_eq!(trim("\u{3000}x\u{a0}"), "x");
}

#[test]
fn project_name_is_trimmed() {
    assert_eq!(validate_project_name("  Trip  "), Ok("Trip".to_string()));
}

#[test]
fn blank_project_name_is_rejected() {
    let expected = Err(AppError::Validation("project name must not be empty".to_string()));
    assert_eq!(validate_project_name(""), expected);
    assert_eq!(validate_project_name(" \t "), expected);
}

#[test]
fn created_project_has_zero_photo_count() {
    let p = created_project("id1".to_string(), "Trip".to_string(), "2026-01-01T00:00:00Z".to_string());
    assert_eq!(p.id, "id1");
    assert_eq!(p.name, "Trip");
    assert_eq!(p.created_at, "2026-01-01T00:00:00Z");
    assert_eq!(p.last_opened_at, None);
    assert_eq!(p.photo_count, 0);
}

#[test]
fn unknown_project_id_is_not_found() {
    assert_eq!(
        project_found(0, "nope"),
        Err(AppError::NotFound("no project with id: nope".to_string()))
    );
    assert_eq!(project_found(1, "p1"), Ok(()));
}

#[test]
fn deleting_the_open_project_closes_it() {
    assert_eq!(current_after_delete(Some("p1".to_string()), "p1"), None);
    assert_eq!(current_after_delete(Some("p1".to_string()), "p2"), Some("p1".to_string()));
    assert_eq!(current_after_delete(None, "p1"), None);
}

#[test]
fn photo_commands_need_an_open_project() {
    assert_eq!(require_open_project(Some("p1".to_string())), Ok("p1".to_string()));
    assert_eq!(
        require_open_project(None),
        Err(AppError::Validation("no project open".to_string()))
    );
}
