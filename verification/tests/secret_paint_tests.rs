use seedfinder_core::rng::RandomStack;
use seedfinder_core::secret_paint::{paint_runestone, SecretItem, SecretRoomState};
use seedfinder_core::vault_floor::Terrain;
use seedfinder_core::vault_paint::{DoorType, Point, Rect};

const WIDTH: i32 = 40;

fn level() -> SecretRoomState<u32> {
    SecretRoomState {
        map: vec![Terrain::Wall; (WIDTH * WIDTH) as usize],
        map_width: WIDTH,
        heaps: Vec::new(),
        spawned: Vec::new(),
        entrance_door: DoorType::Empty,
    }
}

fn at(state: &SecretRoomState<u32>, x: i32, y: i32) -> Terrain {
    state.map[(x + y * WIDTH) as usize]
}

#[test]
fn runestone_room_shelves_off_the_far_half_and_hides_its_door() {
    let mut random = RandomStack::with_base_seed(21);
    let mut state = level();
    let bounds = Rect {
        left: 5,
        top: 5,
        right: 15,
        bottom: 15,
    };
    let mut paint = paint_runestone(&mut state, bounds, Point { x: 5, y: 10 }, &mut random).unwrap();
    assert_eq!(state.spawned, vec![SecretItem::LiquidFlamePotion]);
    for y in 6..=14 {
        assert_eq!(at(&state, 10, y), Terrain::Bookshelf);
        assert_eq!(at(&state, 7, y), Terrain::Empty);
        assert_eq!(at(&state, 13, y), Terrain::EmptySp);
    }
    assert_eq!(at(&state, 5, 5), Terrain::Wall);
    assert_eq!(paint.stones, 0);
    let first = paint.cell;
    assert_eq!(state.map[first], Terrain::Empty);

    assert_eq!(paint.offer_stone(&mut state, 7, &mut random), Ok(false));
    assert_eq!(state.heaps, vec![(first, SecretItem::Generated(7))]);
    assert_eq!(state.map[paint.cell], Terrain::Empty);
    assert_ne!(paint.cell, first);
    let second = paint.cell;
    assert_eq!(state.entrance_door, DoorType::Empty);

    assert_eq!(paint.offer_stone(&mut state, 8, &mut random), Ok(true));
    assert_eq!(state.heaps.len(), 3);
    assert_eq!(state.heaps[1], (second, SecretItem::Generated(8)));
    assert_eq!(state.heaps[2].1, SecretItem::EnchantmentStone);
    assert_eq!(state.map[state.heaps[2].0], Terrain::EmptySp);
    assert_eq!(state.entrance_door, DoorType::Hidden);
}

#[test]
fn runestone_room_entered_from_above_shelves_a_row() {
    let mut random = RandomStack::with_base_seed(4);
    let mut state = level();
    // An even span each way: the centre moves by a draw in both directions.
    let bounds = Rect {
        left: 5,
        top: 5,
        right: 16,
        bottom: 16,
    };
    paint_runestone(&mut state, bounds, Point { x: 9, y: 5 }, &mut random).unwrap();
    let shelf_rows: Vec<i32> = (6..=15).filter(|&y| at(&state, 6, y) == Terrain::Bookshelf).collect();
    assert_eq!(shelf_rows.len(), 1);
    let row = shelf_rows[0];
    assert!(row == 10 || row == 11);
    for x in 6..=15 {
        assert_eq!(at(&state, x, row), Terrain::Bookshelf);
        assert_eq!(at(&state, x, row - 1), Terrain::Empty);
        assert_eq!(at(&state, x, row + 1), Terrain::EmptySp);
    }
}
