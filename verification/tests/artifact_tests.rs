use seedfinder_core::artifacts::{Placement, assignments};
use seedfinder_core::model::ItemSource;

fn placement(group: u8, scenarios: u64) -> Placement {
    Placement {
        depth: 1,
        source: ItemSource::Chest,
        cursed: false,
        group,
        scenarios,
    }
}

#[test]
fn assignment_counts_use_distinct_positions_and_respect_shared_choices() {
    let independent: Vec<_> = (0..5).map(|_| placement(0, 0)).collect();
    assert_eq!(
        assignments(&independent, &vec![vec![0, 1, 2, 3, 4]; 3], &mut Vec::new()),
        60
    );
    let exclusive = [placement(1, 1), placement(1, 2)];
    assert_eq!(
        assignments(&exclusive, &vec![vec![0, 1]; 2], &mut Vec::new()),
        0
    );
    // Pairwise overlap alone is insufficient: no scenario admits all three.
    let scenarios = [placement(1, 3), placement(1, 6), placement(1, 5)];
    assert_eq!(
        assignments(&scenarios, &[vec![0], vec![1], vec![2]], &mut Vec::new()),
        0
    );
}

#[test]
fn no_requirements_leave_exactly_one_way() {
    let world = [placement(0, 0)];
    assert_eq!(assignments(&world, &[], &mut Vec::new()), 1);
}

#[test]
fn shared_scenarios_admit_positions_of_one_group_together() {
    // Positions 0 and 1 share scenario bit 2; position 2 belongs to another
    // group and is always compatible with them.
    let world = [placement(1, 3), placement(1, 6), placement(2, 1)];
    assert_eq!(
        assignments(&world, &[vec![0, 1, 2], vec![0, 1, 2]], &mut Vec::new()),
        6
    );
    // Taking position 0 first rules out nothing else of its group here.
    let mut chosen = vec![0];
    assert_eq!(assignments(&world, &[vec![1, 2]], &mut chosen), 2);
    assert_eq!(chosen, vec![0]);
}

#[test]
fn chosen_positions_are_not_taken_twice() {
    let world: Vec<_> = (0..3).map(|_| placement(0, 0)).collect();
    let mut chosen = vec![1];
    assert_eq!(assignments(&world, &[vec![0, 1, 2], vec![0, 1, 2]], &mut chosen), 2);
    assert_eq!(chosen, vec![1]);
}
