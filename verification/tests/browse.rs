use photo_picker::browse::order_groups;

fn key(shot: Option<&str>, id: &str) -> (Option<String>, String) {
    (shot.map(|s| s.to_string()), id.to_string())
}

#[test]
fn groups_sort_by_earliest_capture_time() {
    let keys = vec![
        key(Some("2026-05-02T10:00:00"), "g_late"),
        key(Some("2026-05-01T10:00:00"), "g_early"),
    ];
    assert_eq!(order_groups(&keys), vec![1, 0]);
}

#[test]
fn groups_without_capture_time_come_last_then_by_id() {
    let keys = vec![
        key(None, "g_b"),
        key(Some("2026-05-01T08:00:00"), "g_x"),
        key(None, "g_a"),
        key(Some("2026-05-01T08:00:00"), "g_c"),
        key(Some("2026-05-01T07:00:00"), "g_z"),
    ];
    assert_eq!(order_groups(&keys), vec![4, 3, 1, 2, 0]);
}

#[test]
fn no_groups_no_order() {
    assert!(order_groups(&[]).is_empty());
}

#[test]
fn browse_order_does_not_depend_on_input_order() {
    let a = vec![
        key(Some("2026-05-01T10:00:00"), "g2"),
        key(None, "g9"),
        key(Some("2026-05-01T10:00:00"), "g1"),
        key(Some("2026-04-30T10:00:00"), "g7"),
    ];
    let b = vec![a[3].clone(), a[1].clone(), a[0].clone(), a[2].clone()];
    let ids = |keys: &Vec<(Option<String>, String)>| -> Vec<String> {
        order_groups(keys).into_iter().map(|i| keys[i].1.clone()).collect()
    };
    assert_eq!(ids(&a), ids(&b));
    assert_eq!(ids(&a), vec!["g7", "g1", "g2", "g9"]);
}
