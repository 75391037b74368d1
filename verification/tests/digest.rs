use photo_picker::digest::{derive_id, photo_id};
use photo_picker::regroup::METHOD;

#[test]
fn derive_id_is_order_independent() {
    let a = derive_id(METHOD, &["x".to_string(), "y".to_string()]);
    let b = derive_id(METHOD, &["y".to_string(), "x".to_string()]);
    assert_eq!(a, b, "id depends on the set, not member order");
    assert_eq!(a.len(), 64, "blake3 hex digest");
}

#[test]
fn derive_id_hashes_method_and_sorted_members() {
    let id = derive_id("phash_burst", &["b".to_string(), "a".to_string()]);
    let expected = blake3::hash(b"phash_burst\na\nb").to_hex().to_string();
    assert_eq!(id, expected);
}

#[test]
fn derive_id_changes_with_membership() {
    let two = derive_id(METHOD, &["a".to_string(), "b".to_string()]);
    let three = derive_id(METHOD, &["a".to_string(), "b".to_string(), "c".to_string()]);
    assert_ne!(two, three);
}

#[test]
fn photo_id_is_blake3_of_project_newline_path() {
    let id = photo_id("proj", "/a.jpg");
    let expected = blake3::hash(b"proj\n/a.jpg").to_hex().to_string();
    assert_eq!(id, expected);
    assert_eq!(id.len(), 64);
    assert!(id.chars().all(|c| c.is_ascii_hexdigit() && !c.is_ascii_uppercase()));
}

#[test]
fn photo_id_is_stable_and_project_scoped() {
    assert_eq!(photo_id("p1", "/x/a.jpg"), photo_id("p1", "/x/a.jpg"));
    assert_ne!(photo_id("p1", "/x/a.jpg"), photo_id("p2", "/x/a.jpg"));
    assert_ne!(photo_id("p1", "/x/a.jpg"), photo_id("p1", "/x/b.jpg"));
}
