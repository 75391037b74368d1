use photo_picker::regroup::{parse_rows, plan_regroup, PlannedGroup};

fn rows(pairs: &[(&str, &str)]) -> Vec<(String, String)> {
    pairs.iter().map(|(id, h)| (id.to_string(), h.to_string())).collect()
}

fn partitions(plan: &[PlannedGroup]) -> Vec<Vec<String>> {
    plan.iter().map(|g| g.members.clone()).collect()
}

fn ids(plan: &[PlannedGroup]) -> Vec<String> {
    let mut v: Vec<String> = plan.iter().map(|g| g.id.clone()).collect();
    v.sort();
    v
}

#[test]
fn known_phashes_persist_expected_partition() {
    let raw = rows(&[
        ("a", "0000000000000000"),
        ("b", "0000000000000003"),
        ("c", "ffffffffffffffff"),
        ("d", "fffffffffffffffc"),
    ]);
    let (plan, summary) = plan_regroup(&raw);
    assert_eq!(summary.groups, 2);
    assert_eq!(summary.grouped_photos, 4);
    assert_eq!(plan.len(), 2);
    let parts = partitions(&plan);
    assert!(parts.contains(&vec!["a".to_string(), "b".to_string()]));
    assert!(parts.contains(&vec!["c".to_string(), "d".to_string()]));
}

#[test]
fn isolated_row_produces_no_member_row() {
    let raw = rows(&[
        ("a", "0000000000000000"),
        ("b", "0000000000000003"),
        ("lonely", "ffffffffffffffff"),
    ]);
    let (plan, summary) = plan_regroup(&raw);
    assert_eq!(summary.groups, 1);
    assert_eq!(summary.grouped_photos, 2);
    let count = plan
        .iter()
        .flat_map(|g| g.members.iter())
        .filter(|m| m.as_str() == "lonely")
        .count();
    assert_eq!(count, 0, "isolated photo never appears as a member");
}

#[test]
fn null_phash_rows_are_filtered() {
    // A NULL pHash never reaches the planner; an unparseable one is skipped.
    let raw = rows(&[
        ("a", "0000000000000000"),
        ("b", "0000000000000003"),
        ("bad_phash", "zzzz"),
    ]);
    let (plan, summary) = plan_regroup(&raw);
    assert_eq!(summary.groups, 1);
    assert_eq!(summary.grouped_photos, 2);
    for absent in ["no_phash", "bad_phash"] {
        let count = plan
            .iter()
            .flat_map(|g| g.members.iter())
            .filter(|m| m.as_str() == absent)
            .count();
        assert_eq!(count, 0, "{absent} must not be grouped");
    }
}

#[test]
fn rerun_is_byte_identical_and_leaves_no_stale_groups() {
    let raw = rows(&[
        ("a", "0000000000000000"),
        ("b", "0000000000000003"),
        ("c", "ffffffffffffffff"),
        ("d", "fffffffffffffffc"),
    ]);
    let (first, _) = plan_regroup(&raw);
    let (second, summary) = plan_regroup(&raw);
    assert_eq!(summary.groups, 2);
    assert_eq!(ids(&first), ids(&second), "group ids stable across re-run");
    assert_eq!(partitions(&first), partitions(&second), "memberships stable");
    assert_eq!(second.len(), 2, "no stale phash_burst groups remain");
}

#[test]
fn rerun_after_membership_change_drops_old_group() {
    let (first, _) = plan_regroup(&rows(&[("a", "0000000000000000"), ("b", "0000000000000003")]));
    assert_eq!(first.len(), 1);
    let (second, _) = plan_regroup(&rows(&[
        ("a", "0000000000000000"),
        ("b", "0000000000000003"),
        ("c", "0000000000000005"),
    ]));
    assert_eq!(second.len(), 1, "single group after re-cluster");
    assert_ne!(second[0].id, first[0].id, "membership change => new derived id");
    assert_eq!(
        second[0].members,
        vec!["a".to_string(), "b".to_string(), "c".to_string()]
    );
}

#[test]
fn reordered_rows_plan_the_same_groups() {
    let (p1, _) = plan_regroup(&rows(&[
        ("c", "ffffffffffffffff"),
        ("a", "0000000000000000"),
        ("d", "fffffffffffffffc"),
        ("b", "0000000000000003"),
    ]));
    let (p2, _) = plan_regroup(&rows(&[
        ("a", "0000000000000000"),
        ("b", "0000000000000003"),
        ("c", "ffffffffffffffff"),
        ("d", "fffffffffffffffc"),
    ]));
    assert_eq!(ids(&p1), ids(&p2));
    assert_eq!(partitions(&p1), partitions(&p2));
}

#[test]
fn parse_rows_keeps_parseable_rows_in_order() {
    let items = parse_rows(&rows(&[
        ("a", "0000000000000001"),
        ("x", "nope"),
        ("b", "000000000000000f"),
        ("plus", "+00000000000000f"),
        ("c", "FFFFFFFFFFFFFFFF"),
    ]));
    assert_eq!(
        items,
        vec![
            ("a".to_string(), 1u64),
            ("b".to_string(), 15u64),
            ("c".to_string(), u64::MAX),
        ]
    );
}
