use photo_picker::grouping::{cluster, hamming, parse_phash};

#[test]
fn parse_phash_accepts_valid_16_hex() {
    assert_eq!(parse_phash("ffc3a18000000000"), Some(0xffc3_a180_0000_0000));
    assert_eq!(parse_phash("0000000000000000"), Some(0));
}

#[test]
fn parse_phash_rejects_bad_input() {
    assert_eq!(parse_phash(""), None);
    assert_eq!(parse_phash("ff"), None, "too short");
    assert_eq!(parse_phash("ffc3a180000000000"), None, "17 chars, too long");
    assert_eq!(parse_phash("zzzzzzzzzzzzzzzz"), None, "non-hex garbage");
    assert_eq!(parse_phash("ffc3a1800000000g"), None, "trailing non-hex");
}

#[test]
fn hamming_counts_differing_bits() {
    assert_eq!(hamming(0, 0), 0);
    assert_eq!(hamming(0b0000, 0b1011), 3);
    assert_eq!(hamming(u64::MAX, 0), 64);
}

#[test]
fn pair_within_threshold_groups_together() {
    // distance 2 (two bits differ), threshold 8 => same group.
    let items = vec![("a".to_string(), 0b0000u64), ("b".to_string(), 0b0011u64)];
    let groups = cluster(&items, 8);
    assert_eq!(groups, vec![vec!["a".to_string(), "b".to_string()]]);
}

#[test]
fn transitive_closure_merges_chain() {
    // A~B and B~C are each within threshold, but A~C is beyond it, so A and C
    // can only land in one component via B.
    let a = 0x0000_0000_0000_0000u64;
    let b = 0x0000_0000_0000_000Fu64; // hamming(a,b) = 4 (<= 8)
    let c = 0x0000_0000_0000_1F0Fu64; // hamming(b,c) = 5 (<= 8)
    assert_eq!(hamming(a, b), 4);
    assert_eq!(hamming(b, c), 5);
    assert_eq!(hamming(a, c), 9, "endpoints A~C exceed threshold 8");
    let items = vec![
        ("c".to_string(), c),
        ("a".to_string(), a),
        ("b".to_string(), b),
    ];
    let groups = cluster(&items, 8);
    assert_eq!(
        groups,
        vec![vec!["a".to_string(), "b".to_string(), "c".to_string()]],
        "A~B~C transitive closure forms one group even though A~C alone exceeds the threshold"
    );
}

#[test]
fn beyond_threshold_splits() {
    let items = vec![
        ("a".to_string(), 0x0000_0000_0000_0000u64),
        ("b".to_string(), 0x0000_0000_0000_0FFFu64), // 12 bits
    ];
    let groups = cluster(&items, 8);
    assert!(groups.is_empty(), "no pair within threshold => no groups");
}

#[test]
fn isolated_photo_absent_from_output() {
    let items = vec![
        ("a".to_string(), 0b0000u64),
        ("b".to_string(), 0b0011u64),
        ("lonely".to_string(), u64::MAX),
    ];
    let groups = cluster(&items, 8);
    assert_eq!(groups, vec![vec!["a".to_string(), "b".to_string()]]);
    assert!(
        !groups.iter().any(|g| g.contains(&"lonely".to_string())),
        "isolated photo must not appear in any component"
    );
}

#[test]
fn shuffled_input_yields_identical_partition() {
    let a = 0x0000_0000_0000_0000u64;
    let b = 0x0000_0000_0000_0003u64;
    let c = 0xFFFF_FFFF_FFFF_FFFFu64;
    let d = 0xFFFF_FFFF_FFFF_FFFCu64;

    let order1 = vec![
        ("a".to_string(), a),
        ("b".to_string(), b),
        ("c".to_string(), c),
        ("d".to_string(), d),
    ];
    let order2 = vec![
        ("d".to_string(), d),
        ("a".to_string(), a),
        ("c".to_string(), c),
        ("b".to_string(), b),
    ];

    let g1 = cluster(&order1, 8);
    let g2 = cluster(&order2, 8);
    assert_eq!(g1, g2, "partition is independent of input order");
    assert_eq!(
        g1,
        vec![
            vec!["a".to_string(), "b".to_string()],
            vec!["c".to_string(), "d".to_string()],
        ]
    );
}

#[test]
fn hamming_is_symmetric_and_zero_only_on_equal_hashes() {
    let a = 0xffc3_a180_0000_0000u64;
    let b = 0x0000_0000_0000_0003u64;
    assert_eq!(hamming(a, b), hamming(b, a));
    assert_eq!(hamming(a, a), 0);
    assert_ne!(hamming(a, a ^ 1), 0);
}

#[test]
fn parse_phash_rejects_a_sign() {
    assert_eq!(parse_phash("+000000000000000"), None);
    assert_eq!(parse_phash("+00000000000000f"), None);
    assert_eq!(parse_phash("-00000000000000f"), None);
}

#[test]
fn sixteen_hex_digits_round_trip_in_either_case() {
    for h in [0u64, 1, 0xffc3_a180_0000_0000, 0x0123_4567_89ab_cdef, u64::MAX] {
        assert_eq!(parse_phash(&format!("{:016x}", h)), Some(h));
        assert_eq!(parse_phash(&format!("{:016X}", h)), Some(h));
    }
}

#[test]
fn hamming_obeys_the_triangle_inequality_and_common_masks() {
    let (a, b, c, k) = (0x00ffu64, 0x0f0fu64, 0xf0f0u64, 0xdead_beefu64);
    assert!(hamming(a, c) <= hamming(a, b) + hamming(b, c));
    assert_eq!(hamming(a ^ k, b ^ k), hamming(a, b));
    assert_eq!(hamming(a, !b), 64 - hamming(a, b));
}
