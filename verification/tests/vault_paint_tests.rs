use seedfinder_core::catalog::{ItemId, ItemKind};
use seedfinder_core::model::Challenges;
use seedfinder_core::rng::RandomStack;
use seedfinder_core::vault_floor::{Terrain, VaultHeapKind, VaultLevelState, VaultMob, VaultMobKind};
use seedfinder_core::vault_loot::{StoneKind, VaultConsumable, VaultEquipmentKind, VaultItem};
use seedfinder_core::vault_paint::{
    paint_circle, paint_circle_scan_treasure, paint_cross, paint_enemy_center, paint_entrance, paint_flame_path, guard_quadrant, paint_hallway, paint_laser_treasure_common, paint_lasers, paint_quadrants, paint_ring, place_treasure,
    Door, DoorType, Point, Rect, VaultRoom,
};
use seedfinder_core::vault_setup::{
    next_tier_to_set_up, SetupRequest, TierSetup, VaultCategory, VaultClassRules,
};

const WIDTH: i32 = 40;

fn plain(index: u16, kind: ItemKind) -> ItemId {
    ItemId {
        index,
        kind,
        tier: None,
        category: None,
    }
}

fn rules() -> VaultClassRules {
    VaultClassRules {
        armor_classes: [
            plain(200, ItemKind::Armor),
            plain(201, ItemKind::Armor),
            plain(202, ItemKind::Armor),
            plain(203, ItemKind::Armor),
        ],
        excluded_wands: [
            plain(300, ItemKind::Wand),
            plain(301, ItemKind::Wand),
            plain(302, ItemKind::Wand),
        ],
        excluded_rings: [
            plain(400, ItemKind::Ring),
            plain(401, ItemKind::Ring),
            plain(402, ItemKind::Ring),
        ],
    }
}

/// A vault floor whose equipment tiers are all rolled, with fresh classes.
fn floor(random: &mut RandomStack) -> VaultLevelState {
    let mut state = VaultLevelState::with_map(18, Challenges::none(), WIDTH, 40);
    let rules = rules();
    let mut next = 1000u16;
    while let Some(tier) = next_tier_to_set_up(&state.equipment) {
        let mut setup = TierSetup::begin(tier);
        loop {
            match setup.request() {
                SetupRequest::Candidate(category) => {
                    let kind = match category {
                        VaultCategory::Weapon(_) | VaultCategory::Missile(_) => ItemKind::Weapon,
                        VaultCategory::Wand => ItemKind::Wand,
                        VaultCategory::Ring => ItemKind::Ring,
                    };
                    next += 1;
                    setup.offer_candidate(&mut state.equipment, &rules, plain(next, kind), None, random);
                }
                SetupRequest::WeaponRarity | SetupRequest::ArmorRarity => {
                    setup.offer_rarity(&mut state.equipment, &rules, 0, random);
                }
                SetupRequest::Done => break,
            }
        }
    }
    state
}

fn at(state: &VaultLevelState, x: i32, y: i32) -> Terrain {
    state.map[(x + y * WIDTH) as usize]
}

#[test]
fn treasure_areas_hold_a_chest_a_solve_item_and_a_token_on_distinct_cells() {
    let mut random = RandomStack::with_base_seed(17);
    let mut state = floor(&mut random);
    let area = Rect {
        left: 3,
        top: 3,
        right: 5,
        bottom: 4,
    };
    let placement = place_treasure(&mut state, area, &mut random).unwrap();
    let cells: Vec<usize> = (3..=5)
        .flat_map(|x| (3..=4).map(move |y| (x + y * WIDTH) as usize))
        .collect();
    assert!(cells.contains(&placement.chest));
    assert!(cells.contains(&placement.solve_cell));
    assert!(cells.contains(&placement.token_cell));
    assert_ne!(placement.chest, placement.solve_cell);
    assert_ne!(placement.chest, placement.token_cell);
    assert_ne!(placement.solve_cell, placement.token_cell);
    assert_eq!(state.heaps.len(), 3);
    assert_eq!(state.heaps[0].kind, VaultHeapKind::Chest);
    assert_eq!(state.heaps[0].items, vec![VaultItem::Equipment(placement.equipment)]);
    // Tier one hands out its slots from the shared lower cursor: slot zero.
    assert_eq!(placement.equipment.kind, VaultEquipmentKind::MeleeWeapon);
    assert_eq!(placement.equipment.upgrade, 2);
    assert_eq!(state.heaps[1].items, vec![placement.solve_item]);
    assert_eq!(state.heaps[2].items, vec![VaultItem::DwarfToken]);
}

#[test]
fn circle_scan_room_walls_off_the_nook_on_the_entrance_side() {
    let mut random = RandomStack::with_base_seed(5);
    let mut state = floor(&mut random);
    let mut room = VaultRoom {
        bounds: Rect {
            left: 5,
            top: 5,
            right: 15,
            bottom: 15,
        },
        entrance: Point { x: 5, y: 8 },
        entrance_door: DoorType::Empty,
    };
    let placement = paint_circle_scan_treasure(&mut state, &mut room, &mut random).unwrap();
    assert_eq!(room.entrance_door, DoorType::Regular);
    // Outer wall, open ring, and the path in from the door.
    assert_eq!(at(&state, 5, 5), Terrain::Wall);
    assert_eq!(at(&state, 7, 7), Terrain::Empty);
    for x in 6..=8 {
        assert_eq!(at(&state, x, 8), Terrain::Empty);
    }
    // The pedestal between its statues, with the wall beyond.
    assert_eq!(at(&state, 10, 10), Terrain::Pedestal);
    assert_eq!(at(&state, 9, 10), Terrain::Statue);
    assert_eq!(at(&state, 11, 10), Terrain::Statue);
    assert_eq!(at(&state, 12, 10), Terrain::Wall);
    // The door is above the middle, so the nook keeps its lower two rows.
    for x in 6..=7 {
        assert_eq!(at(&state, x, 9), Terrain::Wall);
        assert_eq!(at(&state, x, 10), Terrain::EmptySp);
        assert_eq!(at(&state, x, 11), Terrain::EmptySp);
    }
    assert_eq!(at(&state, 8, 10), Terrain::Wall);
    assert_eq!(
        state.mobs,
        vec![VaultMob {
            kind: VaultMobKind::Sentry,
            cell: (10 + 10 * WIDTH) as usize
        }]
    );
    let nook: Vec<usize> = (6..=7)
        .flat_map(|x| (10..=11).map(move |y| (x + y * WIDTH) as usize))
        .collect();
    assert!(nook.contains(&placement.chest));
    assert!(nook.contains(&placement.solve_cell));
    assert!(nook.contains(&placement.token_cell));
    // Cells outside the room are untouched.
    assert_eq!(at(&state, 20, 20), Terrain::Wall);
    assert_eq!(at(&state, 0, 0), Terrain::Wall);
}

#[test]
fn flame_path_lines_three_sides_with_traps_and_floors_the_treasure_row() {
    let mut random = RandomStack::with_base_seed(23);
    let mut state = floor(&mut random);
    let mut room = VaultRoom {
        bounds: Rect {
            left: 5,
            top: 5,
            right: 15,
            bottom: 15,
        },
        entrance: Point { x: 5, y: 8 },
        entrance_door: DoorType::Empty,
    };
    let placement = paint_flame_path(&mut state, &mut room, &mut random).unwrap();
    assert_eq!(room.entrance_door, DoorType::Regular);
    // Three sides of three lines of nine cells each.
    assert_eq!(state.flame_traps.len(), 81);
    // The bottom side goes first, left to right along its top row.
    assert_eq!(state.flame_traps[0], (6 + 12 * WIDTH) as usize);
    assert_eq!(state.flame_traps[1], (7 + 12 * WIDTH) as usize);
    for x in 6..=14 {
        assert_eq!(at(&state, x, 13), Terrain::InactiveTrap);
        assert_eq!(at(&state, x, 6), Terrain::InactiveTrap);
    }
    for y in 6..=14 {
        assert_eq!(at(&state, 14, y), Terrain::InactiveTrap);
    }
    // The path's end and the treasure row.
    assert_eq!(at(&state, 6, 11), Terrain::EmptySp);
    for x in 6..=10 {
        assert_eq!(at(&state, x, 10), Terrain::EmptySp);
    }
    assert_eq!(at(&state, 5, 5), Terrain::Wall);
    let row: Vec<usize> = (6..=10).map(|x| (x + 10 * WIDTH) as usize).collect();
    assert!(row.contains(&placement.chest));
    assert!(row.contains(&placement.solve_cell));
    assert!(row.contains(&placement.token_cell));
    assert!(state.mobs.is_empty());
}

fn standard_room(entrance: Point) -> VaultRoom {
    VaultRoom {
        bounds: Rect {
            left: 5,
            top: 5,
            right: 15,
            bottom: 15,
        },
        entrance,
        entrance_door: DoorType::Empty,
    }
}

#[test]
fn laser_room_guards_the_lane_away_from_the_door() {
    let mut random = RandomStack::with_base_seed(31);
    let mut state = floor(&mut random);
    let mut room = standard_room(Point { x: 10, y: 5 });
    let placement = paint_laser_treasure_common(&mut state, &mut room, false, &mut random).unwrap();
    assert_eq!(room.entrance_door, DoorType::Regular);
    // The lane is five wide, centred on the door, with lasers on both sides
    // placed from the far end towards the door.
    assert_eq!(state.mobs.len(), 14);
    assert_eq!(state.mobs[0], VaultMob { kind: VaultMobKind::Laser, cell: (7 + 13 * WIDTH) as usize });
    assert_eq!(state.mobs[1], VaultMob { kind: VaultMobKind::Laser, cell: (13 + 13 * WIDTH) as usize });
    assert_eq!(state.mobs[13].cell, (13 + 7 * WIDTH) as usize);
    for y in 7..=13 {
        assert_eq!(at(&state, 7, y), Terrain::Pedestal);
        assert_eq!(at(&state, 13, y), Terrain::Pedestal);
    }
    assert_eq!(at(&state, 10, 6), Terrain::Empty);
    assert_eq!(at(&state, 8, 9), Terrain::Empty);
    for x in 8..=12 {
        assert_eq!(at(&state, x, 14), Terrain::EmptySp);
    }
    let row: Vec<usize> = (8..=12).map(|x| (x + 14 * WIDTH) as usize).collect();
    assert!(row.contains(&placement.chest));
    assert!(row.contains(&placement.solve_cell));
    assert!(row.contains(&placement.token_cell));
}

#[test]
fn hard_laser_room_hands_out_tier_three_and_queues_a_blink_stone() {
    let mut random = RandomStack::with_base_seed(47);
    let mut state = floor(&mut random);
    let mut room = standard_room(Point { x: 5, y: 10 });
    let placement = paint_laser_treasure_common(&mut state, &mut room, true, &mut random).unwrap();
    assert_eq!(state.mobs.len(), 14);
    assert_eq!(state.mobs[0].cell, (13 + 8 * WIDTH) as usize);
    assert_eq!(state.mobs[1].cell, (13 + 12 * WIDTH) as usize);
    assert_eq!(at(&state, 6, 10), Terrain::EmptySp);
    for y in 8..=12 {
        assert_eq!(at(&state, 14, y), Terrain::EmptySp);
    }
    assert_eq!(placement.equipment.upgrade, 4);
    assert_eq!(
        state.queue.items,
        vec![VaultItem::Consumable(VaultConsumable::Stone(StoneKind::Blink))]
    );
    let column: Vec<usize> = (8..=12).map(|y| (14 + y * WIDTH) as usize).collect();
    assert!(column.contains(&placement.chest));
    assert!(column.contains(&placement.solve_cell));
    assert!(column.contains(&placement.token_cell));
}

#[test]
fn entrance_room_lights_the_place_furthest_from_the_door_in_darkness() {
    let mut random = RandomStack::with_base_seed(3);
    let mut state = VaultLevelState::with_map(18, Challenges { mask: 32 }, WIDTH, 40);
    let bounds = Rect {
        left: 10,
        top: 10,
        right: 20,
        bottom: 20,
    };
    let mut doors = vec![Door {
        point: Point { x: 10, y: 15 },
        kind: DoorType::Empty,
    }];
    // The right-hand place is the one furthest from a door on the left.
    paint_entrance(&mut state, bounds, &mut doors, 1, &mut random);
    assert_eq!(doors[0].kind, DoorType::Regular);
    assert_eq!(state.entrance_cell, Some((15 + 15 * WIDTH) as usize));
    assert_eq!(at(&state, 10, 15), Terrain::Wall);
    assert_eq!(at(&state, 11, 15), Terrain::Empty);
    assert_eq!(at(&state, 12, 12), Terrain::Wall);
    assert_eq!(at(&state, 13, 13), Terrain::RegionDeco);
    assert_eq!(at(&state, 15, 15), Terrain::CustomDecoEmpty);
    assert_eq!(at(&state, 12, 13), Terrain::Empty);
    // A torch and two beacons stand in the column through the chosen place.
    let mut cells: Vec<usize> = state.heaps.iter().map(|h| h.cell).collect();
    cells.sort();
    let place = (18 + 15 * WIDTH) as usize;
    assert_eq!(cells, vec![place - WIDTH as usize, place, place + WIDTH as usize]);
    let torches = state.heaps.iter().filter(|h| h.items == vec![VaultItem::Torch]).count();
    let beacons = state.heaps.iter().filter(|h| h.items == vec![VaultItem::VaultBeacon]).count();
    assert_eq!((torches, beacons), (1, 2));
}

#[test]
fn entrance_room_without_darkness_drops_only_beacons() {
    let mut random = RandomStack::with_base_seed(3);
    let mut state = VaultLevelState::with_map(18, Challenges::none(), WIDTH, 40);
    let bounds = Rect {
        left: 10,
        top: 10,
        right: 20,
        bottom: 20,
    };
    let mut doors = vec![Door {
        point: Point { x: 15, y: 20 },
        kind: DoorType::Empty,
    }];
    paint_entrance(&mut state, bounds, &mut doors, 2, &mut random);
    // The top place lies in the middle column, so the beacons stand in its row.
    assert_eq!(at(&state, 15, 19), Terrain::Empty);
    assert_eq!(state.heaps.len(), 2);
    let top = (15 + 12 * WIDTH) as usize;
    for heap in &state.heaps {
        assert!(heap.cell + 1 >= top && heap.cell <= top + 1);
        assert_eq!(heap.items, vec![VaultItem::VaultBeacon]);
    }
}

#[test]
fn hallway_drops_its_loot_at_the_end_away_from_the_doors() {
    let mut random = RandomStack::with_base_seed(11);
    let mut state = VaultLevelState::with_map(18, Challenges::none(), WIDTH, 40);
    state.queue.items = vec![VaultItem::Consumable(VaultConsumable::Stone(StoneKind::Blink)), VaultItem::Dart];
    let bounds = Rect {
        left: 2,
        top: 5,
        right: 22,
        bottom: 15,
    };
    let mut doors = vec![
        Door {
            point: Point { x: 2, y: 10 },
            kind: DoorType::Empty,
        },
        Door {
            point: Point { x: 12, y: 5 },
            kind: DoorType::Empty,
        },
    ];
    paint_hallway(&mut state, bounds, &mut doors, VaultMobKind::Enemy(7), &mut random);
    assert!(doors.iter().all(|d| d.kind == DoorType::Regular));
    // The long corridor and the two cross corridors.
    assert_eq!(at(&state, 5, 10), Terrain::Empty);
    assert_eq!(at(&state, 8, 14), Terrain::Empty);
    assert_eq!(at(&state, 15, 6), Terrain::Empty);
    assert_eq!(at(&state, 10, 7), Terrain::Wall);
    assert_eq!(at(&state, 2, 10), Terrain::Wall);
    assert_eq!(at(&state, 3, 10), Terrain::Empty);
    // The door above the middle joins one of the cross corridors.
    assert_eq!(at(&state, 12, 6), Terrain::Empty);
    assert!((at(&state, 13, 6) == Terrain::Empty) != (at(&state, 11, 6) == Terrain::Empty));
    // The left loot place is too near the left door; the right one is used.
    assert_eq!(state.heaps.len(), 1);
    assert_eq!(state.heaps[0].cell, (20 + 10 * WIDTH) as usize);
    assert_eq!(state.heaps[0].items, vec![VaultItem::Dart]);
    assert_eq!(state.queue.items, vec![VaultItem::Consumable(VaultConsumable::Stone(StoneKind::Blink))]);
    assert_eq!(
        state.mobs,
        vec![VaultMob {
            kind: VaultMobKind::Enemy(7),
            cell: (12 + 10 * WIDTH) as usize
        }]
    );
}

#[test]
fn tall_hallway_with_no_far_loot_place_uses_the_middle() {
    let mut random = RandomStack::with_base_seed(13);
    let mut state = VaultLevelState::with_map(18, Challenges::none(), WIDTH, 40);
    state.queue.items = vec![VaultItem::Dart];
    let bounds = Rect {
        left: 5,
        top: 2,
        right: 15,
        bottom: 16,
    };
    let mut doors = vec![
        Door {
            point: Point { x: 5, y: 4 },
            kind: DoorType::Empty,
        },
        Door {
            point: Point { x: 15, y: 14 },
            kind: DoorType::Empty,
        },
    ];
    paint_hallway(&mut state, bounds, &mut doors, VaultMobKind::Enemy(2), &mut random);
    assert_eq!(state.heaps.len(), 1);
    assert_eq!(state.heaps[0].cell, (10 + 9 * WIDTH) as usize);
    // Doors near the ends walk five cells in.
    for x in 6..=10 {
        assert_eq!(at(&state, x, 4), Terrain::Empty);
    }
    for x in 10..=14 {
        assert_eq!(at(&state, x, 14), Terrain::Empty);
    }
}

fn eleven_by_eleven() -> Rect {
    Rect {
        left: 5,
        top: 5,
        right: 15,
        bottom: 15,
    }
}

#[test]
fn cross_room_guards_its_pedestal_with_a_sentry() {
    let mut state = VaultLevelState::with_map(18, Challenges::none(), WIDTH, 40);
    let mut doors = vec![Door {
        point: Point { x: 10, y: 5 },
        kind: DoorType::Empty,
    }];
    paint_cross(&mut state, eleven_by_eleven(), &mut doors);
    assert_eq!(doors[0].kind, DoorType::Regular);
    assert_eq!(at(&state, 10, 10), Terrain::Pedestal);
    assert_eq!(at(&state, 9, 6), Terrain::Empty);
    assert_eq!(at(&state, 6, 11), Terrain::Empty);
    assert_eq!(at(&state, 6, 6), Terrain::Wall);
    assert_eq!(at(&state, 8, 8), Terrain::Wall);
    assert_eq!(
        state.mobs,
        vec![VaultMob {
            kind: VaultMobKind::Sentry,
            cell: (10 + 10 * WIDTH) as usize
        }]
    );
}

#[test]
fn ring_room_starts_its_enemy_on_a_corner_of_the_ring() {
    let mut random = RandomStack::with_base_seed(9);
    let mut state = VaultLevelState::with_map(18, Challenges::none(), WIDTH, 40);
    let mut doors = vec![Door {
        point: Point { x: 15, y: 9 },
        kind: DoorType::Empty,
    }];
    paint_ring(&mut state, eleven_by_eleven(), &mut doors, VaultMobKind::Enemy(3), &mut random);
    assert_eq!(doors[0].kind, DoorType::Regular);
    assert_eq!(at(&state, 6, 6), Terrain::Empty);
    assert_eq!(at(&state, 8, 12), Terrain::Empty);
    assert_eq!(at(&state, 9, 9), Terrain::Wall);
    assert_eq!(at(&state, 5, 5), Terrain::Wall);
    assert_eq!(state.mobs.len(), 1);
    assert_eq!(state.mobs[0].kind, VaultMobKind::Enemy(3));
    let corners: Vec<usize> = [(7, 7), (13, 7), (13, 13), (7, 13)]
        .iter()
        .map(|&(x, y)| (x + y * WIDTH) as usize)
        .collect();
    assert!(corners.contains(&state.mobs[0].cell));
}

#[test]
fn enemy_centre_room_keeps_its_chest_in_the_middle() {
    let mut random = RandomStack::with_base_seed(23);
    let mut state = floor(&mut random);
    let mut doors = vec![Door {
        point: Point { x: 5, y: 8 },
        kind: DoorType::Empty,
    }];
    let treasure = paint_enemy_center(&mut state, eleven_by_eleven(), &mut doors, VaultMobKind::Enemy(5), 1, &mut random);
    assert_eq!(doors[0].kind, DoorType::Regular);
    assert_eq!(at(&state, 6, 6), Terrain::Empty);
    assert_eq!(at(&state, 7, 7), Terrain::Wall);
    assert_eq!(at(&state, 9, 9), Terrain::Empty);
    assert_eq!(at(&state, 8, 6), Terrain::Empty);
    assert_eq!(at(&state, 6, 12), Terrain::Empty);
    let beside: Vec<usize> = [(9, 9), (11, 9), (11, 11), (9, 11)]
        .iter()
        .map(|&(x, y)| (x + y * WIDTH) as usize)
        .collect();
    assert_eq!(state.mobs.len(), 1);
    assert!(beside.contains(&state.mobs[0].cell));
    assert_eq!(state.heaps.len(), 1);
    assert_eq!(state.heaps[0].cell, (10 + 10 * WIDTH) as usize);
    assert_eq!(state.heaps[0].kind, VaultHeapKind::Chest);
    assert_eq!(state.heaps[0].items, vec![VaultItem::Equipment(treasure)]);
}

#[test]
fn quadrants_room_leaves_the_corner_by_the_door_and_chests_behind_its_enemy() {
    let mut random = RandomStack::with_base_seed(29);
    let mut state = floor(&mut random);
    let mut doors = vec![Door {
        point: Point { x: 5, y: 8 },
        kind: DoorType::Empty,
    }];
    let corners = paint_quadrants(&mut state, eleven_by_eleven(), &mut doors);
    assert_eq!(doors[0].kind, DoorType::Regular);
    assert_eq!(
        corners,
        vec![Point { x: 13, y: 7 }, Point { x: 13, y: 13 }, Point { x: 7, y: 13 }]
    );
    for x in 6..=8 {
        assert_eq!(at(&state, x, 10), Terrain::Wall);
    }
    assert_eq!(at(&state, 10, 7), Terrain::Wall);
    assert_eq!(at(&state, 10, 9), Terrain::Empty);
    assert_eq!(at(&state, 10, 10), Terrain::Statue);
    assert_eq!(at(&state, 6, 6), Terrain::Empty);

    let treasure = guard_quadrant(&mut state, eleven_by_eleven(), &corners, VaultMobKind::Enemy(1), 1, &mut random);
    assert_eq!(state.mobs.len(), 1);
    let behind = [((13, 7), (14, 6)), ((13, 13), (14, 14)), ((7, 13), (6, 14))];
    let (_, chest) = behind
        .iter()
        .find(|((x, y), _)| state.mobs[0].cell == (x + y * WIDTH) as usize)
        .expect("the enemy stands on an open corner");
    assert_eq!(state.heaps.len(), 1);
    assert_eq!(state.heaps[0].cell, (chest.0 + chest.1 * WIDTH) as usize);
    assert_eq!(state.heaps[0].kind, VaultHeapKind::Chest);
    assert_eq!(state.heaps[0].items, vec![VaultItem::Equipment(treasure)]);
}

#[test]
fn circle_room_walks_a_path_in_from_each_door_to_its_sentry() {
    let mut random = RandomStack::with_base_seed(2);
    let mut state = VaultLevelState::with_map(18, Challenges::none(), WIDTH, 40);
    let mut doors = vec![Door {
        point: Point { x: 15, y: 7 },
        kind: DoorType::Empty,
    }];
    paint_circle(&mut state, eleven_by_eleven(), &mut doors, &mut random);
    assert_eq!(doors[0].kind, DoorType::Regular);
    assert_eq!(at(&state, 10, 10), Terrain::Pedestal);
    assert_eq!(at(&state, 6, 6), Terrain::Wall);
    assert_eq!(at(&state, 7, 7), Terrain::Empty);
    assert_eq!(at(&state, 10, 6), Terrain::Empty);
    assert_eq!(at(&state, 14, 7), Terrain::Empty);
    assert_eq!(at(&state, 14, 8), Terrain::Wall);
    assert_eq!(at(&state, 15, 7), Terrain::Wall);
    assert_eq!(
        state.mobs,
        vec![VaultMob {
            kind: VaultMobKind::Sentry,
            cell: (10 + 10 * WIDTH) as usize
        }]
    );
}

#[test]
fn lasers_room_puts_a_laser_on_every_column_and_row_its_door_leaves_walled() {
    let mut random = RandomStack::with_base_seed(8);
    let mut state = VaultLevelState::with_map(18, Challenges::none(), WIDTH, 40);
    let mut doors = vec![Door {
        point: Point { x: 10, y: 5 },
        kind: DoorType::Empty,
    }];
    paint_lasers(&mut state, eleven_by_eleven(), &mut doors, &mut random);
    assert_eq!(doors[0].kind, DoorType::Regular);
    assert_eq!(at(&state, 10, 6), Terrain::Empty);
    assert_eq!(at(&state, 10, 14), Terrain::Wall);
    // Six columns (all but the door's) and seven rows get a laser each.
    assert_eq!(state.mobs.len(), 13);
    for (index, mob) in state.mobs.iter().enumerate() {
        assert_eq!(mob.kind, VaultMobKind::Laser);
        assert_eq!(state.map[mob.cell], Terrain::Pedestal);
        let (x, y) = ((mob.cell as i32) % WIDTH, (mob.cell as i32) / WIDTH);
        if index < 6 {
            assert!(y == 6 || y == 14);
            assert_ne!(x, 10);
        } else {
            assert!(x == 6 || x == 14);
            assert_eq!(y, 7 + index as i32 - 6);
        }
    }
}
