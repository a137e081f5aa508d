use seedfinder_core::rng::{scramble_seed, seed_for_depth, JavaRandom, RandomStack};

#[test]
fn bounded_java_random_matches_openjdk_reference_vector() {
    let mut random = JavaRandom::new(0x1234_5678_9ABC_DEF0_i64);
    let actual: Vec<i32> = [1, 2, 3, 7, 16, 31, 100, 1_073_741_825]
        .into_iter()
        .map(|bound| random.next_i32_bound(bound))
        .collect();
    assert_eq!(actual, [0, 0, 1, 2, 12, 25, 88, 595_637_773]);
}

#[test]
fn java_random_matches_openjdk_reference_vector_for_seed_zero() {
    let mut random = JavaRandom::new(0);
    assert_eq!(random.next_i32(), -1_155_484_576);
    assert_eq!(random.next_i32(), -723_955_400);
    assert_eq!(random.next_i64(), 4_437_113_781_045_784_766);
    let bits = random.next_bits(24);
    assert_eq!((bits as f32 / 16_777_216.0_f32).to_bits(), 1_059_270_089);
}

#[test]
fn shattered_scramble_uses_wrapping_unsigned_mx3_math() {
    assert_eq!(scramble_seed(0), 0);
    assert_eq!(scramble_seed(1), 511_322_238_924_462_111);
    assert_eq!(scramble_seed(-1), -7_581_867_460_419_221_002);
}

#[test]
fn generator_stack_restores_parent_state() {
    let mut stack = RandomStack::with_base_seed(42);
    let first = stack.long();
    stack.push(99);
    let nested = stack.long();
    stack.pop();
    let second = stack.long();

    let mut reference = JavaRandom::new(42);
    assert_eq!(first, reference.next_i64());
    assert_eq!(second, reference.next_i64());

    let mut nested_reference = JavaRandom::new(scramble_seed(99));
    assert_eq!(nested, nested_reference.next_i64());
}

#[test]
fn depth_seeds_are_stable() {
    assert_eq!(seed_for_depth(0, 1, 0), 4_437_113_781_045_784_766);
    assert_eq!(seed_for_depth(1, 1, 0), 5_214_745_486_231_521_494);
    assert_eq!(seed_for_depth(1, 5, 0), -8_947_671_207_897_652_788);
    assert_eq!(seed_for_depth(1, 1, 1), -4_130_634_971_943_404_754);
}

#[test]
fn list_and_array_shuffle_match_their_distinct_java_algorithms() {
    let expected_list = [2, 4, 0, 9, 8, 7, 3, 1, 5, 6];
    let expected_array = [6, 0, 3, 1, 5, 2, 9, 7, 4, 8];

    let mut list_stack = RandomStack::with_base_seed(0);
    list_stack.push(42);
    let mut list = [0, 1, 2, 3, 4, 5, 6, 7, 8, 9];
    list_stack.shuffle_list(&mut list);
    assert_eq!(list, expected_list);

    let mut array_stack = RandomStack::with_base_seed(0);
    array_stack.push(42);
    let mut array = [0, 1, 2, 3, 4, 5, 6, 7, 8, 9];
    array_stack.shuffle_array(&mut array);
    assert_eq!(array, expected_array);
}

#[test]
fn int_bound_is_zero_for_non_positive_bounds_and_draws_nothing() {
    let mut stack = RandomStack::with_base_seed(7);
    let mut reference = stack.clone();
    assert_eq!(stack.int_bound(0), 0);
    assert_eq!(stack.int_bound(-5), 0);
    assert_eq!(stack.next_int(), reference.next_int());
}

#[test]
fn bounded_draws_stay_in_range() {
    let mut stack = RandomStack::with_base_seed(3);
    for bound in [1, 2, 3, 5, 7, 64, 1000, i32::MAX] {
        for _ in 0..50 {
            let value = stack.int_bound(bound);
            assert!((0..bound).contains(&value));
        }
    }
}

#[test]
fn long_bound_is_java_remainder_of_the_folded_long() {
    let mut stack = RandomStack::with_base_seed(11);
    let mut reference = JavaRandom::new(11);
    for max in [1_i64, 7, 1_000_000, -13] {
        let mut drawn = reference.next_i64();
        if drawn < 0 {
            drawn = drawn.wrapping_add(i64::MAX);
        }
        assert_eq!(stack.long_bound(max), drawn % max);
    }
}

#[test]
fn int_range_is_inclusive_and_int_between_exclusive() {
    let mut stack = RandomStack::with_base_seed(5);
    for _ in 0..200 {
        let inclusive = stack.int_range(2, 3);
        assert!((2..=3).contains(&inclusive));
        let exclusive = stack.int_between(2, 4);
        assert!((2..4).contains(&exclusive));
    }
}

#[test]
fn shuffles_keep_every_element() {
    let mut stack = RandomStack::with_base_seed(1);
    let mut values: Vec<u32> = (0..50).collect();
    stack.shuffle_array(&mut values);
    let mut sorted = values.clone();
    sorted.sort_unstable();
    assert_eq!(sorted, (0..50).collect::<Vec<_>>());
    stack.shuffle_list(&mut values);
    sorted = values.clone();
    sorted.sort_unstable();
    assert_eq!(sorted, (0..50).collect::<Vec<_>>());
}
