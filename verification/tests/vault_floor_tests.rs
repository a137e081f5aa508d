use seedfinder_core::model::Challenges;
use seedfinder_core::vault_floor::{VaultError, VaultHeapKind, VaultLevelState};
use seedfinder_core::vault_loot::{FoodKind, VaultItem};

fn floor() -> VaultLevelState {
    VaultLevelState::new(18, Challenges::none(), 48)
}

#[test]
fn first_drop_on_a_cell_makes_a_plain_heap() {
    let mut state = floor();
    assert_eq!(state.heap_at(100), None);
    let index = state.drop(VaultItem::Torch, 100);
    assert_eq!(index, 0);
    assert_eq!(state.heap_at(100), Some(0));
    assert_eq!(state.heaps[0].cell, 100);
    assert_eq!(state.heaps[0].kind, VaultHeapKind::Heap);
    assert_eq!(state.heaps[0].items, vec![VaultItem::Torch]);
}

#[test]
fn drops_go_to_the_front_and_stackables_merge() {
    let mut state = floor();
    state.drop(VaultItem::Torch, 7);
    state.drop(VaultItem::VaultBeacon, 7);
    assert_eq!(state.heaps[0].items, vec![VaultItem::VaultBeacon, VaultItem::Torch]);
    // A second torch merges with the first and moves to the front.
    let index = state.drop(VaultItem::Torch, 7);
    assert_eq!(index, 0);
    assert_eq!(state.heaps[0].items, vec![VaultItem::Torch, VaultItem::VaultBeacon]);
    // Items that do not stack are kept twice.
    state.drop(VaultItem::VaultBeacon, 7);
    assert_eq!(
        state.heaps[0].items,
        vec![VaultItem::VaultBeacon, VaultItem::Torch, VaultItem::VaultBeacon]
    );
    assert_eq!(state.heaps.len(), 1);
}

#[test]
fn heaps_on_other_cells_are_left_alone() {
    let mut state = floor();
    state.drop(VaultItem::Food(FoodKind::Ration), 3);
    let second = state.drop(VaultItem::Dart, 9);
    assert_eq!(second, 1);
    state.drop(VaultItem::Food(FoodKind::Ration), 3);
    assert_eq!(state.heaps[0].items, vec![VaultItem::Food(FoodKind::Ration)]);
    assert_eq!(state.heaps[1].items, vec![VaultItem::Dart]);
    assert_eq!(state.heap_at(9), Some(1));
}

#[test]
fn heap_kind_can_become_a_chest() {
    let mut state = floor();
    let index = state.drop(VaultItem::ImpStatue, 20);
    state.set_heap_kind(index, VaultHeapKind::Chest);
    assert_eq!(state.heaps[index].kind, VaultHeapKind::Chest);
    assert_eq!(state.heaps[index].items, vec![VaultItem::ImpStatue]);
}

#[test]
fn cell_index_wraps_like_java_int_arithmetic() {
    let state = floor();
    assert_eq!(state.width(), 48);
    assert_eq!(state.cell_index(5, 3), 149);
    assert_eq!(state.cell_index(-1, 0), -1);
    assert_eq!(state.cell_index(0, -1), -48);
    let wide = VaultLevelState::new(18, Challenges::none(), i32::MAX);
    assert_eq!(wide.cell_index(1, 2), -1);
}

#[test]
fn vault_errors_explain_themselves() {
    assert_eq!(
        VaultError::InvalidDepth(16).message(),
        "the Imp's vault depth must be 17..=19, got 16"
    );
    assert_eq!(
        VaultError::NoDoorCandidate { room: 3, neighbour: 10 }.message(),
        "vault rooms 3 and 10 have no valid door point"
    );
    assert_eq!(
        VaultError::NoDropCell.message(),
        "vault item placement found no drop cell"
    );
}

#[test]
fn distance_uses_java_truncating_division() {
    let state = floor();
    assert_eq!(state.distance(0, 49), 1);
    assert_eq!(state.distance(100, 3), 2);
    // Cell -1 sits in row zero at column -1, so a cell of row zero is one
    // column further from it than from cell zero.
    assert_eq!(state.distance(5, -1), 6);
    assert_eq!(state.distance(-1, 5), 6);
    assert_eq!(state.distance(48 * 10 + 7, 7), 10);
}
