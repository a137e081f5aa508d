use seedfinder_core::coverage::Coverages;

#[test]
fn matching_agrees_with_exhaustive_hall_conditions() {
    // Every possible three-requirement coverage, with zero, one or two
    // items of each. This includes cases where an earlier assignment
    // must move so that a more constrained requirement can take its slot.
    let wanted = 3;
    let size = 1 << wanted;
    let coverages = Coverages::new(
        size,
        (0..wanted)
            .map(|requirement| {
                (1..size)
                    .filter(|coverage| coverage & (1 << requirement) != 0)
                    .collect()
            })
            .collect(),
    );
    for mut encoded in 0..3_usize.pow(7) {
        let mut counts = vec![0; size];
        for count in counts.iter_mut().skip(1) {
            *count = encoded % 3;
            encoded /= 3;
        }
        let hall = (1..size).all(|group| {
            let held: usize = (1..size)
                .filter(|coverage| coverage & group != 0)
                .map(|coverage| counts[coverage])
                .sum();
            held >= group.count_ones() as usize
        });
        assert_eq!(coverages.matches(&counts), hall, "{counts:?}");
    }
}

#[test]
fn identical_requirements_consume_distinct_items() {
    let coverages = Coverages::new(2, vec![vec![1]; 128]);
    assert_eq!(coverages.len(), 2);
    assert!(!coverages.matches(&[0, 127]));
    assert!(coverages.matches(&[0, 128]));
    assert!(coverages.matches(&[5, 130]));
}

#[test]
fn an_earlier_requirement_moves_to_free_the_only_slot() {
    // Requirement 0 accepts coverages 0 and 1; requirement 1 only coverage 0.
    // First fit gives coverage 0 to requirement 0, which must then move.
    let coverages = Coverages::new(2, vec![vec![0, 1], vec![0]]);
    assert!(coverages.matches(&[1, 1]));
    assert!(!coverages.matches(&[1, 0]));
    assert!(!coverages.matches(&[0, 2]));
}

#[test]
fn requirements_without_choices_never_match() {
    let coverages = Coverages::new(1, vec![vec![], vec![0]]);
    assert!(!coverages.matches(&[5]));
    let empty = Coverages::new(1, Vec::new());
    assert!(empty.matches(&[0]));
}

#[test]
fn members_list_the_requirements_accepting_a_coverage() {
    let coverages = Coverages::new(3, vec![vec![0, 2], vec![1], vec![2], vec![]]);
    assert_eq!(coverages.members(2), vec![0, 2]);
    assert_eq!(coverages.members(1), vec![1]);
    assert_eq!(coverages.members(0), vec![0]);
}
