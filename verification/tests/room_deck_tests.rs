use seedfinder_core::level_prelude::LimitedDrops;
use seedfinder_core::rng::RandomStack;
use seedfinder_core::room_decks::{
    begin_special_floor, is_boss_depth, needs_chance_draw, reset_pit_room, select_secret_room,
    select_special_room, ConsumableSpecialRoom as C, EquipmentSpecialRoom as E, SecretRoomKind,
    SelectedSpecialRoom, SpecialRoomKind as S, SpecialRoomState,
};

/// `Random.chances(new float[]{6, 3, 1})` on the current generator, as the
/// game draws it in single precision.
fn weighted_draw(random: &mut RandomStack) -> usize {
    let value = (random.float_bits() as f32 / 16_777_216.0_f32) * 10.0_f32;
    if value < 6.0 {
        0
    } else if value < 9.0 {
        1
    } else {
        2
    }
}

/// A floor deck on a run whose laboratories are all placed already.
fn floor_without_laboratory(
    state: &SpecialRoomState,
    depth: i32,
    random: &mut RandomStack,
) -> seedfinder_core::room_decks::FloorSpecialDeck {
    let mut limited = LimitedDrops {
        laboratory_rooms: 99,
    };
    let floor = begin_special_floor(state, &mut limited, depth, random);
    assert_eq!(limited.laboratory_rooms, 99);
    floor
}

fn run_queue() -> Vec<S> {
    vec![
        S::Equipment(E::CrystalVault),
        S::Consumable(C::CrystalPath),
        S::Equipment(E::CrystalChoice),
        S::Equipment(E::Pool),
        S::Equipment(E::Sentry),
        S::Consumable(C::Storage),
        S::Consumable(C::ToxicGas),
        S::Consumable(C::MagicalFire),
        S::Consumable(C::Traps),
        S::Equipment(E::WeakFloor),
        S::Equipment(E::Crypt),
        S::Equipment(E::Armory),
        S::Equipment(E::Statue),
        S::Equipment(E::Sacrifice),
        S::Consumable(C::Runestone),
        S::Consumable(C::Garden),
        S::Consumable(C::Library),
        S::Consumable(C::Treasury),
        S::Consumable(C::MagicWell),
    ]
}

#[test]
fn laboratory_is_forced_before_the_scheduled_queue_and_counted() {
    let mut state = SpecialRoomState {
        run_specials: run_queue(),
        pit_needed_depth: -1,
    };
    let mut limited = LimitedDrops::default();
    let mut random = RandomStack::with_base_seed(123);
    let mut floor = begin_special_floor(&state, &mut limited, 4, &mut random);
    assert_eq!(floor.rooms()[0], SelectedSpecialRoom::Laboratory);
    assert_eq!(limited.laboratory_rooms, 1);
    assert_eq!(floor.rooms().len(), 20);
    let scheduled: Vec<SelectedSpecialRoom> =
        run_queue().into_iter().map(SelectedSpecialRoom::Scheduled).collect();
    assert_eq!(&floor.rooms()[1..], &scheduled[..]);
    assert!(!needs_chance_draw(&state, &floor, 4));

    assert_eq!(
        select_special_room(&mut state, &mut floor, 4, 0),
        SelectedSpecialRoom::Laboratory
    );
    assert!(!floor.rooms().contains(&SelectedSpecialRoom::Laboratory));
    assert_eq!(state.run_specials, run_queue());
}

#[test]
fn using_one_room_rotates_the_run_queue_and_applies_floor_exclusions() {
    let mut state = SpecialRoomState {
        run_specials: run_queue(),
        pit_needed_depth: -1,
    };
    let mut random = RandomStack::with_base_seed(0);
    let mut floor = floor_without_laboratory(&state, 2, &mut random);
    assert!(needs_chance_draw(&state, &floor, 2));
    let index = weighted_draw(&mut random);
    assert_eq!(
        select_special_room(&mut state, &mut floor, 2, index),
        SelectedSpecialRoom::Scheduled(S::Consumable(C::CrystalPath))
    );
    assert!(!floor.rooms().iter().any(|room| matches!(
        room,
        SelectedSpecialRoom::Pit
            | SelectedSpecialRoom::Scheduled(
                S::Equipment(E::CrystalVault | E::CrystalChoice) | S::Consumable(C::CrystalPath)
            )
    )));
    assert_eq!(state.run_specials[18], S::Consumable(C::CrystalPath));
}

#[test]
fn due_pit_preempts_the_floor_queue_and_can_be_reset() {
    let mut state = SpecialRoomState {
        run_specials: run_queue(),
        pit_needed_depth: 7,
    };
    let mut random = RandomStack::with_base_seed(0);
    let mut floor = floor_without_laboratory(&state, 7, &mut random);
    assert!(!needs_chance_draw(&state, &floor, 7));
    assert_eq!(
        select_special_room(&mut state, &mut floor, 7, 0),
        SelectedSpecialRoom::Pit
    );
    assert_eq!(state.pit_needed_depth, -1);

    state.pit_needed_depth = 8;
    reset_pit_room(&mut state, 8);
    assert_eq!(state.pit_needed_depth, -1);
}

#[test]
fn weak_floor_owes_a_pit_and_is_dropped_above_bosses() {
    let mut state = SpecialRoomState {
        run_specials: vec![
            S::Equipment(E::WeakFloor),
            S::Consumable(C::Garden),
            S::Equipment(E::Pool),
        ],
        pit_needed_depth: -1,
    };
    let mut random = RandomStack::with_base_seed(0);
    let mut floor = floor_without_laboratory(&state, 3, &mut random);
    assert_eq!(
        select_special_room(&mut state, &mut floor, 3, 0),
        SelectedSpecialRoom::Scheduled(S::Equipment(E::WeakFloor))
    );
    assert_eq!(state.pit_needed_depth, 4);
    assert_eq!(
        state.run_specials,
        vec![
            S::Consumable(C::Garden),
            S::Equipment(E::Pool),
            S::Equipment(E::WeakFloor)
        ]
    );
    // A pit room is crystal-keyed, so the weak floor itself is the only one
    // removed here; above a boss floor the weak floor is never offered.
    let mut above_boss = floor_without_laboratory(&state, 9, &mut random);
    assert_eq!(
        select_special_room(&mut state, &mut above_boss, 9, 2),
        SelectedSpecialRoom::Scheduled(S::Equipment(E::Pool))
    );
    assert!(is_boss_depth(10));
    assert!(!is_boss_depth(9));
    assert!(above_boss.rooms().iter().all(|room| *room
        != SelectedSpecialRoom::Scheduled(S::Equipment(E::WeakFloor))));
    // An index past the rooms left is clamped to the last one.
    let mut short = floor_without_laboratory(&state, 2, &mut random);
    let selected = select_special_room(&mut state, &mut short, 2, 2);
    assert_eq!(selected, SelectedSpecialRoom::Scheduled(S::Equipment(E::Pool)));
    assert!(!short.rooms().contains(&selected));
    assert!(!short.is_empty());
}

#[test]
fn secret_queue_rotation_is_persistent() {
    let mut queue = vec![
        SecretRoomKind::Garden,
        SecretRoomKind::Laboratory,
        SecretRoomKind::Library,
        SecretRoomKind::Larder,
        SecretRoomKind::Well,
        SecretRoomKind::Runestone,
        SecretRoomKind::Artillery,
        SecretRoomKind::ChestChasm,
        SecretRoomKind::Honeypot,
        SecretRoomKind::Hoard,
        SecretRoomKind::Maze,
        SecretRoomKind::Summoning,
    ];
    let before = queue.clone();
    let mut random = RandomStack::with_base_seed(0);
    let index = weighted_draw(&mut random);
    let room = select_secret_room(&mut queue, index);
    assert_eq!(queue[11], room);
    assert_eq!(room, before[index]);
    assert_ne!(queue, before);
    let head = queue[0];
    assert_eq!(select_secret_room(&mut queue, 0), head);
    assert_eq!(queue[11], head);
}

#[test]
fn laboratory_is_owed_once_per_region() {
    let state = SpecialRoomState {
        run_specials: vec![S::Consumable(C::Garden)],
        pit_needed_depth: -1,
    };
    // Early floors of a region never place one and draw nothing.
    let mut limited = LimitedDrops::default();
    let mut random = RandomStack::with_base_seed(5);
    let mut untouched = RandomStack::with_base_seed(5);
    for depth in [0, 1, 2, 5, 6, 7] {
        let floor = begin_special_floor(&state, &mut limited, depth, &mut random);
        assert_eq!(floor.rooms(), &[SelectedSpecialRoom::Scheduled(S::Consumable(C::Garden))]);
    }
    assert_eq!(limited.laboratory_rooms, 0);
    assert_eq!(random.next_int(), untouched.next_int());

    // The fifth floor of the first region owes it outright.
    let floor = begin_special_floor(&state, &mut limited, 4, &mut random);
    assert_eq!(floor.rooms()[0], SelectedSpecialRoom::Laboratory);
    assert_eq!(limited.laboratory_rooms, 1);
    // Once placed, the region owes no more.
    let floor = begin_special_floor(&state, &mut limited, 4, &mut random);
    assert_eq!(floor.rooms().len(), 1);
    assert_eq!(limited.laboratory_rooms, 1);

    // A third floor flips a coin on the current generator.
    let mut coin = RandomStack::with_base_seed(77);
    let heads = coin.int_bound(2) == 0;
    let mut random = RandomStack::with_base_seed(77);
    let mut limited = LimitedDrops { laboratory_rooms: 1 };
    let floor = begin_special_floor(&state, &mut limited, 8, &mut random);
    assert_eq!(floor.rooms()[0] == SelectedSpecialRoom::Laboratory, heads);
    assert_eq!(limited.laboratory_rooms, if heads { 2 } else { 1 });
    assert_eq!(random.next_int(), coin.next_int());

    // Negative depths owe nothing.
    let mut limited = LimitedDrops::default();
    let floor = begin_special_floor(&state, &mut limited, -1, &mut random);
    assert_eq!(floor.rooms().len(), 1);
}
