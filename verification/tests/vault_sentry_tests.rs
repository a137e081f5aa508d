use seedfinder_core::vault_sentries::VaultSentryPattern;

#[test]
fn laser_aims_at_its_single_target() {
    let laser = VaultSentryPattern::laser(12, 40, 3, 5, 2, true);
    assert_eq!(laser.cell, 12);
    assert_eq!(laser.initial_cooldown, 3);
    assert_eq!(laser.cooldown, 5);
    assert_eq!(laser.triggers, 2);
    assert!(laser.warning);
    assert_eq!(laser.directions, vec![vec![40]]);
    assert_eq!(laser.scan, None);
}

#[test]
fn cross_sweeps_the_four_neighbours_every_third_turn() {
    let cross = VaultSentryPattern::cross(50, 10);
    assert_eq!(cross.directions, vec![vec![49], vec![40], vec![51], vec![60]]);
    assert_eq!(cross.cooldown, 3);
    assert_eq!(cross.initial_cooldown, 1);
    assert_eq!(cross.triggers, 1);
    assert!(!cross.warning);
    assert_eq!(cross.scan, Some([90000, 4000]));
}

#[test]
fn full_ring_starts_west_and_turns_through_the_north() {
    let ring = VaultSentryPattern::circle(55, 10, 0);
    assert_eq!(
        ring.directions,
        vec![vec![54], vec![44], vec![45], vec![46], vec![56], vec![66], vec![65], vec![64]]
    );
    assert_eq!(ring.scan, Some([90000, 4490]));
    assert_eq!(ring.cooldown, 1);
}

#[test]
fn half_circle_patterns_also_hit_the_mirrored_cell() {
    let expected = vec![
        vec![53, 57],
        vec![43, 67],
        vec![33, 77],
        vec![34, 76],
        vec![35, 75],
        vec![36, 74],
        vec![37, 73],
        vec![47, 63],
    ];
    for pattern in [1, 2] {
        let sentry = VaultSentryPattern::circle(55, 10, pattern);
        assert_eq!(sentry.directions, expected);
        assert_eq!(sentry.scan, Some([45000, 4490]));
    }
}

#[test]
fn spiral_pattern_hits_four_quarter_turns_per_shot() {
    let spiral = VaultSentryPattern::circle(55, 10, 3);
    assert_eq!(spiral.directions.len(), 6);
    assert_eq!(spiral.directions[0], vec![52, 25, 58, 85]);
    assert_eq!(spiral.directions[1], vec![42, 26, 68, 84]);
    assert_eq!(spiral.directions[5], vec![55 - 1 - 30, 55 + 3 - 10, 55 + 1 + 30, 55 - 3 + 10]);
    assert_eq!(spiral.scan, Some([22500, 4490]));
}

#[test]
fn treasure_circle_sweeps_the_whole_ring_in_either_direction() {
    let clockwise = VaultSentryPattern::circle_treasure(55, 10, true);
    let expected: Vec<Vec<usize>> = vec![
        53, 43, 33, 34, 35, 36, 37, 47, 57, 67, 77, 76, 75, 74, 73, 63,
    ]
    .into_iter()
    .map(|cell| vec![cell])
    .collect();
    assert_eq!(clockwise.directions, expected);
    assert_eq!(clockwise.scan, Some([45000, 4490]));

    let counter = VaultSentryPattern::circle_treasure(55, 10, false);
    let mut reversed = expected.clone();
    reversed.reverse();
    assert_eq!(counter.directions, reversed);
}

#[test]
fn many_scans_repeat_one_target() {
    let sentry = VaultSentryPattern::many_scans(5, 9);
    assert_eq!(sentry.directions, vec![vec![9]]);
    assert_eq!(sentry.scan, Some([70000, 7000]));
    assert_eq!(sentry.cooldown, 1);
    assert_eq!(sentry.initial_cooldown, 1);
    assert_eq!(sentry.triggers, 1);
    assert!(!sentry.warning);
}
