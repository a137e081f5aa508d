//! Painting vault rooms onto the floor: terrain fills and cells, the
//! sentinels, and the treasure placed in each room's treasure area, with the
//! generator draws in the game's order.
//!
//! The map is written row by row as `Painter.fill` does (one run of cells
//! per row), a room's `width()` and `height()` count both edges, and a
//! rectangle's points are listed column by column, as `Rect.getPoints()`
//! lists them.

use vstd::prelude::*;

use crate::rng::{int_bound_from, top, with_top, RandomStack};
use crate::vault_floor::{
    cell_distance, cell_distance_fits, first_heap_on, heaps_after_drop, is_first_on, heaps_view,
    magnitude, Terrain, VaultError, VaultHeapKind, VaultLevelState, VaultMob, VaultMobKind,
};
use crate::vault_loot::{
    consumable_taken, equipment_handed, first_match, holds_item, t2_found, PrizeFilter, StoneKind,
    VaultConsumable, VaultEquipment, VaultItem, TIER_COUNT,
};

verus! {

/// A cell position.
#[derive(Clone, Copy, Debug, PartialEq, Eq, Structural)]
pub struct Point {
    pub x: i32,
    pub y: i32,
}

/// A rectangle of cells; all four edges are part of it.
#[derive(Clone, Copy, Debug, PartialEq, Eq, Structural)]
pub struct Rect {
    pub left: i32,
    pub top: i32,
    pub right: i32,
    pub bottom: i32,
}

/// The door types the vault painters give a room's doors.
#[derive(Clone, Copy, Debug, PartialEq, Eq, Structural)]
pub enum DoorType {
    /// Not yet decided.
    Empty,
    Regular,
    /// A secret room's door.
    Hidden,
}

/// A vault room as a painter sees it: its bounds, the door it is entered by
/// and that door's type.
#[derive(Clone, Copy, Debug, PartialEq, Eq, Structural)]
pub struct VaultRoom {
    pub bounds: Rect,
    pub entrance: Point,
    pub entrance_door: DoorType,
}

/// The middle cell of a room.
pub open spec fn room_center(b: Rect) -> Point {
    Point { x: ((b.left + b.right) / 2) as i32, y: ((b.top + b.bottom) / 2) as i32 }
}

/// `x + y * width`.
pub open spec fn cell_at(width: int, x: int, y: int) -> int {
    x + y * width
}

/// The map with `len` cells from `start` on set to `value`.
pub open spec fn run_filled(map: Seq<Terrain>, start: int, len: int, value: Terrain) -> Seq<Terrain> {
    Seq::new(map.len(), |i: int| if start <= i < start + len { value } else { map[i] })
}

/// `Painter.fill(level, x, y, w, h, value)`: one run of `w` cells in each
/// of the `h` rows from row `y` on.
pub open spec fn filled(
    map: Seq<Terrain>,
    width: int,
    x: int,
    y: int,
    w: int,
    h: int,
    value: Terrain,
) -> Seq<Terrain>
    decreases h,
{
    if h <= 0 {
        map
    } else {
        filled(run_filled(map, cell_at(width, x, y), w, value), width, x, y + 1, w, h - 1, value)
    }
}

/// `Painter.set(level, x, y, value)`.
pub open spec fn set_at(map: Seq<Terrain>, width: int, x: int, y: int, value: Terrain) -> Seq<Terrain> {
    map.update(cell_at(width, x, y), value)
}

/// `n` steps of `Painter.drawInside` from `(x, y)` in direction `(dx, dy)`.
pub open spec fn drawn_inside(
    map: Seq<Terrain>,
    width: int,
    x: int,
    y: int,
    dx: int,
    dy: int,
    n: nat,
    value: Terrain,
) -> Seq<Terrain>
    decreases n,
{
    if n == 0 {
        map
    } else {
        drawn_inside(set_at(map, width, x + dx, y + dy, value), width, x + dx, y + dy, dx, dy, (n - 1) as nat, value)
    }
}

/// The direction `Painter.drawInside` walks from a door into the room.
pub open spec fn inward(b: Rect, door: Point) -> (int, int) {
    if door.x == b.left {
        (1, 0)
    } else if door.x == b.right {
        (-1, 0)
    } else if door.y == b.top {
        (0, 1)
    } else {
        (0, -1)
    }
}

/// A map of `width` columns holds row `bottom`.
pub open spec fn rows_fit(map_len: int, width: int, bottom: int) -> bool {
    0 < width && 0 <= bottom && (bottom + 1) * width <= map_len && map_len <= i32::MAX
}

/// Cells of a row lie in a map that holds that row.
pub(crate) proof fn lemma_cell_fits(x: int, y: int, width: int, bottom: int, map_len: int)
    requires
        0 <= x <= width,
        0 <= y <= bottom,
        rows_fit(map_len, width, bottom),
    ensures
        0 <= cell_at(width, x, y),
        cell_at(width, x, y) + width - x <= map_len,
        y * width <= cell_at(width, x, y),
{
    assert((y + 1) * width <= (bottom + 1) * width) by (nonlinear_arith)
        requires
            y <= bottom,
            0 < width,
    ;
    assert(0 <= y * width) by (nonlinear_arith)
        requires
            0 <= y,
            0 < width,
    ;
    assert((y + 1) * width == y * width + width) by (nonlinear_arith);
}

/// Fills `h` rows of `w` cells from `(x, y)` on.
fn fill(map: &mut Vec<Terrain>, width: i32, x: i32, y: i32, w: i32, h: i32, value: Terrain)
    requires
        0 <= x,
        0 <= w,
        x + w <= width,
        0 <= y,
        0 <= h,
        y + h <= i32::MAX,
        rows_fit(old(map)@.len() as int, width as int, (y + h - 1) as int) || h == 0,
    ensures
        final(map)@ == filled(old(map)@, width as int, x as int, y as int, w as int, h as int, value),
        final(map)@.len() == old(map)@.len(),
{
    let mut row: i32 = y;
    let end: i32 = y + h;
    let ghost mut remaining: int = h as int;
    while row < end
        invariant
            end == y + h,
            0 <= y <= row <= y + h,
            remaining == y + h - row,
            0 <= x,
            0 <= w,
            x + w <= width,
            h > 0 ==> rows_fit(map@.len() as int, width as int, (y + h - 1) as int),
            map@.len() == old(map)@.len(),
            filled(old(map)@, width as int, x as int, y as int, w as int, h as int, value) == filled(
                map@,
                width as int,
                x as int,
                row as int,
                w as int,
                remaining,
                value,
            ),
        decreases y + h - row,
    {
        proof {
            lemma_cell_fits(x as int, row as int, width as int, (y + h - 1) as int, map@.len() as int);
        }
        let start: i32 = x + row * width;
        let ghost before = map@;
        let mut col: i32 = 0;
        while col < w
            invariant
                0 <= col <= w,
                0 <= start,
                start + w <= map@.len(),
                map@.len() <= i32::MAX,
                map@.len() == before.len(),
                map@ == run_filled(before, start as int, col as int, value),
            decreases w - col,
        {
            map.set((start + col) as usize, value);
            col = col + 1;
            assert(map@ =~= run_filled(before, start as int, col as int, value));
        }
        row = row + 1;
        proof {
            remaining = remaining - 1;
        }
    }
}

/// Sets one cell.
fn set_xy(map: &mut Vec<Terrain>, width: i32, x: i32, y: i32, value: Terrain)
    requires
        0 <= x < width,
        0 <= y,
        rows_fit(old(map)@.len() as int, width as int, y as int),
    ensures
        final(map)@ == set_at(old(map)@, width as int, x as int, y as int, value),
        final(map)@.len() == old(map)@.len(),
{
    proof {
        lemma_cell_fits(x as int, y as int, width as int, y as int, map@.len() as int);
    }
    map.set((x + y * width) as usize, value);
}

/// The columns and rows of a rectangle.
pub open spec fn rect_columns(r: Rect) -> int {
    r.right - r.left + 1
}

pub open spec fn rect_rows(r: Rect) -> int {
    r.bottom - r.top + 1
}

/// A rectangle that lies on the map and holds at most 64 by 64 cells.
pub open spec fn rect_on_map(r: Rect, width: int, map_len: int) -> bool {
    &&& 0 <= r.left <= r.right < width
    &&& 0 <= r.top <= r.bottom
    &&& rect_columns(r) <= 64
    &&& rect_rows(r) <= 64
    &&& rows_fit(map_len, width, r.bottom as int)
}

/// The `k`-th point of `Rect.getPoints()`: column by column, each column
/// top to bottom.
pub open spec fn rect_point(r: Rect, k: int) -> (int, int) {
    (r.left + k / rect_rows(r), r.top + k % rect_rows(r))
}

/// `Random.element(rect.getPoints())` as a cell, and the generator state
/// after the draw.
pub open spec fn drawn_cell(r: Rect, width: int, state: u64) -> (usize, u64) {
    let d = int_bound_from(state, (rect_columns(r) * rect_rows(r)) as i32);
    let (x, y) = rect_point(r, d.0 as int);
    (cell_at(width, x, y) as usize, d.1)
}

/// Draws cells of `r` until one holds no heap: the cell and the state after
/// it, or nothing once `fuel` draws found none.
pub open spec fn free_draw(
    heaps: Seq<(usize, VaultHeapKind, Seq<VaultItem>)>,
    r: Rect,
    width: int,
    state: u64,
    fuel: nat,
) -> Option<(usize, u64)>
    decreases fuel,
{
    if fuel == 0 {
        None
    } else {
        let (cell, next) = drawn_cell(r, width, state);
        if first_heap_on(heaps, cell) is None {
            Some((cell, next))
        } else {
            free_draw(heaps, r, width, next, (fuel - 1) as nat)
        }
    }
}

/// Draws a free cell may take: every state of the 48-bit generator once,
/// and one more. A search that finds none in that many draws has met a
/// state twice, so it would repeat the same draws forever.
pub const SEARCH_FUEL: u64 = 0x1_0000_0000_0001;

/// Where a treasure area's items went.
#[derive(Clone, Copy, Debug, PartialEq, Eq, Structural)]
pub struct TreasurePlacement {
    /// The chest holding the equipment.
    pub chest: usize,
    pub equipment: VaultEquipment,
    /// The tier-two solve item, or a tier-one consumable when none is queued.
    pub solve_item: VaultItem,
    pub solve_cell: usize,
    /// The cell of the dwarf token.
    pub token_cell: usize,
}

/// The heaps after the equipment chest is dropped on `chest`.
pub open spec fn with_chest(
    heaps: Seq<(usize, VaultHeapKind, Seq<VaultItem>)>,
    equipment: VaultEquipment,
    chest: usize,
) -> Seq<(usize, VaultHeapKind, Seq<VaultItem>)> {
    let index = match first_heap_on(heaps, chest) {
        Some(i) => i,
        None => heaps.len() as int,
    };
    let dropped = heaps_after_drop(heaps, VaultItem::Equipment(equipment), chest);
    dropped.update(index, (dropped[index].0, VaultHeapKind::Chest, dropped[index].2))
}

/// Everything but the heaps, the loot and the queue is as it was.
pub open spec fn floor_kept(before: VaultLevelState, after: VaultLevelState) -> bool {
    &&& after.depth == before.depth
    &&& after.challenges == before.challenges
    &&& after.map_width == before.map_width
    &&& after.flame_traps == before.flame_traps
    &&& after.entrance_cell == before.entrance_cell
    &&& after.map == before.map
    &&& after.mobs == before.mobs
}

/// The first part of stocking a treasure area: a chest with the next tier-one
/// equipment on a drawn cell, then the solve item (or a consumable).
pub open spec fn treasure_opened(
    before: VaultLevelState,
    after: VaultLevelState,
    r: Rect,
    states: Seq<u64>,
    chest: usize,
    equipment: VaultEquipment,
    solve_item: VaultItem,
    found: Option<VaultItem>,
    after_lookup: Seq<u64>,
    after_solve: Seq<u64>,
) -> bool {
    let (drawn, next) = drawn_cell(r, before.map_width as int, top(states));
    &&& chest == drawn
    &&& equipment_handed(before.equipment, after.equipment, 1, equipment)
    &&& t2_found(before.queue.items@, after.queue.items@, found, with_top(states, next), after_lookup)
    &&& match found {
        Some(item) => solve_item == item && after.consumables == before.consumables
            && after_solve == after_lookup,
        None => consumable_taken(before.consumables, after.consumables, 1, solve_item, after_lookup, after_solve),
    }
}

/// `VaultTreasureRoom`'s stocking of a treasure area `r`: the chest, the
/// solve item on a free drawn cell, and a dwarf token on another.
pub open spec fn treasure_placed(
    before: VaultLevelState,
    after: VaultLevelState,
    r: Rect,
    states: Seq<u64>,
    states_after: Seq<u64>,
    p: TreasurePlacement,
    found: Option<VaultItem>,
    after_lookup: Seq<u64>,
    after_solve: Seq<u64>,
) -> bool {
    let width = before.map_width as int;
    let chested = with_chest(heaps_view(before.heaps@), p.equipment, p.chest);
    let first = free_draw(chested, r, width, top(after_solve), SEARCH_FUEL as nat);
    let solved = heaps_after_drop(chested, p.solve_item, p.solve_cell);
    let after_first = with_top(after_solve, first->Some_0.1);
    let second = free_draw(solved, r, width, top(after_first), SEARCH_FUEL as nat);
    &&& treasure_opened(before, after, r, states, p.chest, p.equipment, p.solve_item, found, after_lookup, after_solve)
    &&& first is Some
    &&& first->Some_0.0 == p.solve_cell
    &&& second is Some
    &&& second->Some_0.0 == p.token_cell
    &&& states_after == with_top(after_first, second->Some_0.1)
    &&& heaps_view(after.heaps@) == heaps_after_drop(solved, VaultItem::DwarfToken, p.token_cell)
    &&& floor_kept(before, after)
}

/// The free-cell search came up empty, which the game would never leave.
pub open spec fn treasure_unplaceable(
    before: VaultLevelState,
    r: Rect,
    chest: usize,
    equipment: VaultEquipment,
    solve_item: VaultItem,
    after_solve: Seq<u64>,
) -> bool {
    let width = before.map_width as int;
    let chested = with_chest(heaps_view(before.heaps@), equipment, chest);
    let first = free_draw(chested, r, width, top(after_solve), SEARCH_FUEL as nat);
    let solved = heaps_after_drop(chested, solve_item, first->Some_0.0);
    ||| first is None
    ||| free_draw(solved, r, width, top(with_top(after_solve, first->Some_0.1)), SEARCH_FUEL as nat) is None
}

/// Picks a random point of `r` and returns its cell.
fn random_rect_cell(width: i32, map_len: usize, r: Rect, random: &mut RandomStack) -> (cell: usize)
    requires
        old(random).wf(),
        rect_on_map(r, width as int, map_len as int),
    ensures
        final(random).wf(),
        (cell, top(final(random)@)) == drawn_cell(r, width as int, top(old(random)@)),
        final(random)@ == with_top(old(random)@, top(final(random)@)),
        (cell as int) < map_len,
{
    let ghost before = random@;
    proof {
        random.lemma_wf_view();
    }
    let columns: i32 = r.right - r.left + 1;
    let rows: i32 = r.bottom - r.top + 1;
    assert(columns * rows <= 64 * 64) by (nonlinear_arith)
        requires
            1 <= columns <= 64,
            1 <= rows <= 64,
    ;
    assert(columns * rows >= 1) by (nonlinear_arith)
        requires
            1 <= columns,
            1 <= rows,
    ;
    let k = random.int_bound(columns * rows);
    let ghost after = random@;
    proof {
        random.lemma_wf_view();
    }
    let column = k / rows;
    let row = k % rows;
    assert(0 <= column < columns) by (nonlinear_arith)
        requires
            0 <= k < columns * rows,
            1 <= rows,
            column == k / rows,
    ;
    let x = r.left + column;
    let y = r.top + row;
    proof {
        lemma_cell_fits(x as int, y as int, width as int, r.bottom as int, map_len as int);
    }
    let cell = (x + y * width) as usize;
    let ghost d = int_bound_from(top(before), (rect_columns(r) * rect_rows(r)) as i32);
    assert(k == d.0);
    assert(after == with_top(before, d.1));
    assert(top(after) == d.1);
    assert(rect_point(r, k as int) == (x as int, y as int));
    assert(cell == cell_at(width as int, x as int, y as int) as usize);
    cell
}

/// Draws cells of `r` until one holds no heap.
fn find_free_cell(state: &VaultLevelState, r: Rect, random: &mut RandomStack) -> (cell: Option<usize>)
    requires
        old(random).wf(),
        rect_on_map(r, state.map_width as int, state.map@.len() as int),
    ensures
        final(random).wf(),
        match free_draw(heaps_view(state.heaps@), r, state.map_width as int, top(old(random)@), SEARCH_FUEL as nat) {
            Some((found, next)) => cell == Some(found) && final(random)@ == with_top(old(random)@, next),
            None => cell is None,
        },
{
    let ghost heaps = heaps_view(state.heaps@);
    let ghost width = state.map_width as int;
    proof {
        random.lemma_wf_view();
        assert(random@ =~= with_top(old(random)@, top(random@)));
    }
    let mut fuel: u64 = SEARCH_FUEL;
    while fuel > 0
        invariant
            random.wf(),
            old(random)@.len() >= 1,
            random@.len() == old(random)@.len(),
            rect_on_map(r, state.map_width as int, state.map@.len() as int),
            heaps == heaps_view(state.heaps@),
            width == state.map_width as int,
            random@ == with_top(old(random)@, top(random@)),
            free_draw(heaps, r, width, top(random@), fuel as nat) == free_draw(
                heaps,
                r,
                width,
                top(old(random)@),
                SEARCH_FUEL as nat,
            ),
        decreases fuel,
    {
        let ghost before = random@;
        let cell = random_rect_cell(state.map_width, state.map.len(), r, random);
        proof {
            random.lemma_wf_view();
            assert(random@ =~= with_top(old(random)@, top(random@)));
        }
        if state.heap_at(cell).is_none() {
            return Some(cell);
        }
        fuel = fuel - 1;
    }
    None
}

/// Stocks the treasure area `r` as the vault's treasure rooms do: a chest
/// with the next tier-one equipment on a drawn cell, then the tier-two solve
/// item (a tier-one consumable when none is queued) and a dwarf token, each
/// on a drawn cell that holds no heap yet.
pub fn place_treasure(state: &mut VaultLevelState, r: Rect, random: &mut RandomStack) -> (result: Result<
    TreasurePlacement,
    VaultError,
>)
    requires
        old(random).wf(),
        old(state).equipment.wf(),
        holds_item(old(state).equipment.slots(1)),
        old(state).consumables.wf(),
        rect_on_map(r, old(state).map_width as int, old(state).map@.len() as int),
    ensures
        final(random).wf(),
        final(state).equipment.wf(),
        final(state).consumables.wf(),
        match result {
            Ok(p) => exists|found: Option<VaultItem>, after_lookup: Seq<u64>, after_solve: Seq<u64>|
                #[trigger] treasure_placed(
                    *old(state),
                    *final(state),
                    r,
                    old(random)@,
                    final(random)@,
                    p,
                    found,
                    after_lookup,
                    after_solve,
                ),
            Err(e) => e == VaultError::NoDropCell && exists|
                chest: usize,
                equipment: VaultEquipment,
                solve_item: VaultItem,
                found: Option<VaultItem>,
                after_lookup: Seq<u64>,
                after_solve: Seq<u64>,
            |
                #[trigger] treasure_opened(
                    *old(state),
                    *final(state),
                    r,
                    old(random)@,
                    chest,
                    equipment,
                    solve_item,
                    found,
                    after_lookup,
                    after_solve,
                ) && treasure_unplaceable(*old(state), r, chest, equipment, solve_item, after_solve),
        },
{
    let ghost start = *state;
    let ghost states = random@;
    let chest = random_rect_cell(state.map_width, state.map.len(), r, random);
    let equipment = state.equipment.create_equipment(1);
    let heap = state.drop(VaultItem::Equipment(equipment), chest);
    proof {
        let h0 = heaps_view(start.heaps@);
        assert(h0.len() == start.heaps@.len());
        assert(heaps_view(state.heaps@).len() == state.heaps@.len());
        match first_heap_on(h0, chest) {
            Some(i) => {
                assert(is_first_on(h0, chest, i));
            },
            None => {},
        }
    }
    state.set_heap_kind(heap, VaultHeapKind::Chest);
    assert(heaps_view(state.heaps@) == with_chest(heaps_view(start.heaps@), equipment, chest));
    let found = state.queue.find_t2_solve_item(random);
    let ghost after_lookup = random@;
    let solve_item = match found {
        Some(item) => item,
        None => state.consumables.create_consumable(1, random),
    };
    let ghost after_solve = random@;
    let ghost opened = *state;
    assert(treasure_opened(
        start,
        opened,
        r,
        states,
        chest,
        equipment,
        solve_item,
        found,
        after_lookup,
        after_solve,
    ));
    let solve_cell = match find_free_cell(state, r, random) {
        Some(cell) => cell,
        None => {
            assert(treasure_unplaceable(start, r, chest, equipment, solve_item, after_solve));
            return Err(VaultError::NoDropCell);
        },
    };
    state.drop(solve_item, solve_cell);
    let token_cell = match find_free_cell(state, r, random) {
        Some(cell) => cell,
        None => {
            assert(treasure_opened(
                start,
                *state,
                r,
                states,
                chest,
                equipment,
                solve_item,
                found,
                after_lookup,
                after_solve,
            ));
            assert(treasure_unplaceable(start, r, chest, equipment, solve_item, after_solve));
            return Err(VaultError::NoDropCell);
        },
    };
    state.drop(VaultItem::DwarfToken, token_cell);
    let placement = TreasurePlacement { chest, equipment, solve_item, solve_cell, token_cell };
    assert(treasure_placed(
        start,
        *state,
        r,
        states,
        random@,
        placement,
        found,
        after_lookup,
        after_solve,
    ));
    Ok(placement)
}

/// A room lying on the map, nine to sixty-four cells across each way.
pub open spec fn room_on_map(b: Rect, width: int, map_len: int) -> bool {
    &&& 0 <= b.left
    &&& b.right < width
    &&& 0 <= b.top
    &&& rows_fit(map_len, width, b.bottom as int)
    &&& 9 <= rect_columns(b) <= 64
    &&& 9 <= rect_rows(b) <= 64
}

/// The door lies on an edge of the room, off its corners.
pub open spec fn door_on_edge(b: Rect, door: Point) -> bool {
    ||| (door.x == b.left || door.x == b.right) && b.top < door.y < b.bottom
    ||| (door.y == b.top || door.y == b.bottom) && b.left < door.x < b.right
}

/// A map that holds row `bottom` holds every row above it.
proof fn lemma_rows_fit_above(map_len: int, width: int, y: int, bottom: int)
    requires
        rows_fit(map_len, width, bottom),
        0 <= y <= bottom,
    ensures
        rows_fit(map_len, width, y),
{
    assert((y + 1) * width <= (bottom + 1) * width) by (nonlinear_arith)
        requires
            y <= bottom,
            0 < width,
    ;
}

/// A room on the map has coordinates far from `i32`'s limits.
pub(crate) proof fn lemma_room_small(b: Rect, width: int, map_len: int)
    requires
        room_on_map(b, width, map_len),
    ensures
        b.right < width <= 0x1000_0000,
        b.bottom < 0x1000_0000,
{
    assert(width <= 0x1000_0000 && b.bottom + 1 <= 0x1000_0000) by (nonlinear_arith)
        requires
            (b.bottom + 1) * width <= 0x7fff_ffff,
            width >= 9,
            b.bottom + 1 >= 9,
    ;
}

/// Sets a cell of the room `b`.
fn set_in(map: &mut Vec<Terrain>, width: i32, b: Rect, x: i32, y: i32, value: Terrain)
    requires
        room_on_map(b, width as int, old(map)@.len() as int),
        b.left <= x <= b.right,
        b.top <= y <= b.bottom,
    ensures
        final(map)@ == set_at(old(map)@, width as int, x as int, y as int, value),
        final(map)@.len() == old(map)@.len(),
{
    proof {
        lemma_rows_fit_above(map@.len() as int, width as int, y as int, b.bottom as int);
    }
    set_xy(map, width, x, y, value);
}

/// Fills a block of the room `b`.
pub(crate) fn fill_in(map: &mut Vec<Terrain>, width: i32, b: Rect, x: i32, y: i32, w: i32, h: i32, value: Terrain)
    requires
        room_on_map(b, width as int, old(map)@.len() as int),
        b.left <= x,
        0 <= w,
        x + w <= b.right + 1,
        b.top <= y,
        0 <= h,
        y + h <= b.bottom + 1,
    ensures
        final(map)@ == filled(old(map)@, width as int, x as int, y as int, w as int, h as int, value),
        final(map)@.len() == old(map)@.len(),
{
    proof {
        if h > 0 {
            lemma_rows_fit_above(map@.len() as int, width as int, (y + h - 1) as int, b.bottom as int);
        }
        assert(b.bottom + 1 <= (b.bottom + 1) * width) by (nonlinear_arith)
            requires
                b.bottom >= 0,
                width >= 1,
        ;
    }
    fill(map, width, x, y, w, h, value);
}

/// The terrain of a `VaultCircleScanTreasureRoom` and its treasure area:
/// walls, an open ring and cross, three cells walked in from the entrance, a
/// pedestal in the middle between two statues, and the walled-off treasure
/// nook on the entrance's side, floored as treasure.
pub open spec fn circle_scan_terrain(map: Seq<Terrain>, width: int, b: Rect, door: Point) -> (Seq<Terrain>, Rect) {
    let cols = rect_columns(b);
    let rows = rect_rows(b);
    let m1 = filled(map, width, b.left as int, b.top as int, cols, rows, Terrain::Wall);
    let m2 = filled(m1, width, b.left + 2, b.top + 2, cols - 4, rows - 4, Terrain::Empty);
    let m3 = filled(m2, width, b.left + 4, b.top + 1, cols - 8, rows - 2, Terrain::Empty);
    let m4 = filled(m3, width, b.left + 1, b.top + 4, cols - 2, rows - 8, Terrain::Empty);
    let (dx, dy) = inward(b, door);
    let m5 = drawn_inside(m4, width, door.x as int, door.y as int, dx, dy, 3, Terrain::Empty);
    let c = room_center(b);
    let (cx, cy) = (c.x as int, c.y as int);
    let m6 = set_at(m5, width, cx, cy, Terrain::Pedestal);
    if door.x == b.left {
        let m7 = set_at(set_at(set_at(m6, width, cx + 2, cy, Terrain::Wall), width, cx + 1, cy, Terrain::Statue), width, cx - 1, cy, Terrain::Statue);
        let m8 = filled(m7, width, b.left + 1, cy - 1, cx - 2 - b.left, 3, Terrain::Wall);
        let t = Rect {
            left: (b.left + 1) as i32,
            top: if door.y < cy { cy as i32 } else { (cy - 1) as i32 },
            right: (cx - 3) as i32,
            bottom: if door.y < cy { (cy + 1) as i32 } else { cy as i32 },
        };
        (filled(m8, width, t.left as int, t.top as int, rect_columns(t), rect_rows(t), Terrain::EmptySp), t)
    } else if door.y == b.top {
        let m7 = set_at(set_at(set_at(m6, width, cx, cy + 2, Terrain::Wall), width, cx, cy + 1, Terrain::Statue), width, cx, cy - 1, Terrain::Statue);
        let m8 = filled(m7, width, cx - 1, b.top + 1, 3, 3, Terrain::Wall);
        let t = Rect {
            left: if door.x < cx { cx as i32 } else { (cx - 1) as i32 },
            top: (b.top + 1) as i32,
            right: if door.x < cx { (cx + 1) as i32 } else { cx as i32 },
            bottom: (b.top + 2) as i32,
        };
        (filled(m8, width, t.left as int, t.top as int, rect_columns(t), rect_rows(t), Terrain::EmptySp), t)
    } else if door.x == b.right {
        let m7 = set_at(set_at(set_at(m6, width, cx - 2, cy, Terrain::Wall), width, cx - 1, cy, Terrain::Statue), width, cx + 1, cy, Terrain::Statue);
        let m8 = filled(m7, width, b.right - 3, cy - 1, 3, 3, Terrain::Wall);
        let t = Rect {
            left: (b.right - 2) as i32,
            top: if door.y < cy { cy as i32 } else { (cy - 1) as i32 },
            right: (b.right - 1) as i32,
            bottom: if door.y < cy { (cy + 1) as i32 } else { cy as i32 },
        };
        (filled(m8, width, t.left as int, t.top as int, rect_columns(t), rect_rows(t), Terrain::EmptySp), t)
    } else {
        let m7 = set_at(set_at(set_at(m6, width, cx, cy - 2, Terrain::Wall), width, cx, cy - 1, Terrain::Statue), width, cx, cy + 1, Terrain::Statue);
        let m8 = filled(m7, width, cx - 1, b.bottom - 3, 3, 3, Terrain::Wall);
        let t = Rect {
            left: if door.x < cx { cx as i32 } else { (cx - 1) as i32 },
            top: (b.bottom - 2) as i32,
            right: if door.x < cx { (cx + 1) as i32 } else { cx as i32 },
            bottom: (b.bottom - 1) as i32,
        };
        (filled(m8, width, t.left as int, t.top as int, rect_columns(t), rect_rows(t), Terrain::EmptySp), t)
    }
}

/// Walks `n` cells into the room from its door, setting each.
fn draw_in(map: &mut Vec<Terrain>, width: i32, b: Rect, door: Point, n: i32, value: Terrain)
    requires
        room_on_map(b, width as int, old(map)@.len() as int),
        door_on_edge(b, door),
        0 <= n <= 5,
    ensures
        final(map)@ == drawn_inside(
            old(map)@,
            width as int,
            door.x as int,
            door.y as int,
            inward(b, door).0,
            inward(b, door).1,
            n as nat,
            value,
        ),
        final(map)@.len() == old(map)@.len(),
{
    let (dx, dy): (i32, i32) = if door.x == b.left {
        (1, 0)
    } else if door.x == b.right {
        (-1, 0)
    } else if door.y == b.top {
        (0, 1)
    } else {
        (0, -1)
    };
    let mut x: i32 = door.x;
    let mut y: i32 = door.y;
    let mut step: i32 = 0;
    while step < n
        invariant
            0 <= step <= n <= 5,
            map@.len() == old(map)@.len(),
            room_on_map(b, width as int, map@.len() as int),
            door_on_edge(b, door),
            (dx as int, dy as int) == inward(b, door),
            dx == 1 ==> x == door.x + step,
            dx == -1 ==> x == door.x - step,
            dx == 0 ==> x == door.x,
            dy == 1 ==> y == door.y + step,
            dy == -1 ==> y == door.y - step,
            dy == 0 ==> y == door.y,
            drawn_inside(old(map)@, width as int, door.x as int, door.y as int, dx as int, dy as int, n as nat, value)
                == drawn_inside(map@, width as int, x as int, y as int, dx as int, dy as int, (n - step) as nat, value),
        decreases n - step,
    {
        proof {
            lemma_room_small(b, width as int, map@.len() as int);
        }
        x = x + dx;
        y = y + dy;
        set_in(map, width, b, x, y, value);
        step = step + 1;
    }
}

/// Paints the terrain of a circle-scan treasure room and returns its
/// treasure area.
fn paint_circle_scan_terrain(map: &mut Vec<Terrain>, width: i32, b: Rect, door: Point) -> (treasure: Rect)
    requires
        room_on_map(b, width as int, old(map)@.len() as int),
        door_on_edge(b, door),
    ensures
        (final(map)@, treasure) == circle_scan_terrain(old(map)@, width as int, b, door),
        rect_on_map(treasure, width as int, old(map)@.len() as int),
        final(map)@.len() == old(map)@.len(),
{
    let cols = b.right - b.left + 1;
    let rows = b.bottom - b.top + 1;
    fill_in(map, width, b, b.left, b.top, cols, rows, Terrain::Wall);
    fill_in(map, width, b, b.left + 2, b.top + 2, cols - 4, rows - 4, Terrain::Empty);
    fill_in(map, width, b, b.left + 4, b.top + 1, cols - 8, rows - 2, Terrain::Empty);
    fill_in(map, width, b, b.left + 1, b.top + 4, cols - 2, rows - 8, Terrain::Empty);
    draw_in(map, width, b, door, 3, Terrain::Empty);
    proof {
        lemma_room_small(b, width as int, map@.len() as int);
    }
    let cx = (b.left + b.right) / 2;
    let cy = (b.top + b.bottom) / 2;
    set_in(map, width, b, cx, cy, Terrain::Pedestal);
    let treasure = if door.x == b.left {
        set_in(map, width, b, cx + 2, cy, Terrain::Wall);
        set_in(map, width, b, cx + 1, cy, Terrain::Statue);
        set_in(map, width, b, cx - 1, cy, Terrain::Statue);
        fill_in(map, width, b, b.left + 1, cy - 1, cx - 2 - b.left, 3, Terrain::Wall);
        if door.y < cy {
            Rect { left: b.left + 1, top: cy, right: cx - 3, bottom: cy + 1 }
        } else {
            Rect { left: b.left + 1, top: cy - 1, right: cx - 3, bottom: cy }
        }
    } else if door.y == b.top {
        set_in(map, width, b, cx, cy + 2, Terrain::Wall);
        set_in(map, width, b, cx, cy + 1, Terrain::Statue);
        set_in(map, width, b, cx, cy - 1, Terrain::Statue);
        fill_in(map, width, b, cx - 1, b.top + 1, 3, 3, Terrain::Wall);
        if door.x < cx {
            Rect { left: cx, top: b.top + 1, right: cx + 1, bottom: b.top + 2 }
        } else {
            Rect { left: cx - 1, top: b.top + 1, right: cx, bottom: b.top + 2 }
        }
    } else if door.x == b.right {
        set_in(map, width, b, cx - 2, cy, Terrain::Wall);
        set_in(map, width, b, cx - 1, cy, Terrain::Statue);
        set_in(map, width, b, cx + 1, cy, Terrain::Statue);
        fill_in(map, width, b, b.right - 3, cy - 1, 3, 3, Terrain::Wall);
        if door.y < cy {
            Rect { left: b.right - 2, top: cy, right: b.right - 1, bottom: cy + 1 }
        } else {
            Rect { left: b.right - 2, top: cy - 1, right: b.right - 1, bottom: cy }
        }
    } else {
        set_in(map, width, b, cx, cy - 2, Terrain::Wall);
        set_in(map, width, b, cx, cy - 1, Terrain::Statue);
        set_in(map, width, b, cx, cy + 1, Terrain::Statue);
        fill_in(map, width, b, cx - 1, b.bottom - 3, 3, 3, Terrain::Wall);
        if door.x < cx {
            Rect { left: cx, top: b.bottom - 2, right: cx + 1, bottom: b.bottom - 1 }
        } else {
            Rect { left: cx - 1, top: b.bottom - 2, right: cx, bottom: b.bottom - 1 }
        }
    };
    fill_in(
        map,
        width,
        b,
        treasure.left,
        treasure.top,
        treasure.right - treasure.left + 1,
        treasure.bottom - treasure.top + 1,
        Terrain::EmptySp,
    );
    proof {
        lemma_rows_fit_above(old(map)@.len() as int, width as int, treasure.bottom as int, b.bottom as int);
    }
    treasure
}

/// The floor once a room's terrain is painted and a mob stands on `cell`,
/// before its treasure: nothing else has changed.
pub open spec fn prepared(
    before: VaultLevelState,
    mid: VaultLevelState,
    terrain: Seq<Terrain>,
    mob: VaultMob,
) -> bool {
    &&& mid.map@ == terrain
    &&& mid.mobs@ == before.mobs@.push(mob)
    &&& mid.depth == before.depth
    &&& mid.challenges == before.challenges
    &&& mid.map_width == before.map_width
    &&& mid.equipment == before.equipment
    &&& mid.consumables == before.consumables
    &&& mid.queue == before.queue
    &&& mid.heaps == before.heaps
    &&& mid.flame_traps == before.flame_traps
    &&& mid.entrance_cell == before.entrance_cell
}

/// The sentry in the middle of a circle-scan room.
pub open spec fn middle_sentry(b: Rect, width: int) -> VaultMob {
    let c = room_center(b);
    VaultMob { kind: VaultMobKind::Sentry, cell: cell_at(width, c.x as int, c.y as int) as usize }
}

/// `VaultCircleScanTreasureRoom.paint`: the room's terrain, its entrance
/// made a regular door, a sentry on the pedestal, and the treasure area
/// stocked. The treasure tier must already hold items.
pub fn paint_circle_scan_treasure(
    state: &mut VaultLevelState,
    room: &mut VaultRoom,
    random: &mut RandomStack,
) -> (result: Result<TreasurePlacement, VaultError>)
    requires
        old(random).wf(),
        old(state).equipment.wf(),
        holds_item(old(state).equipment.slots(1)),
        old(state).consumables.wf(),
        room_on_map(old(room).bounds, old(state).map_width as int, old(state).map@.len() as int),
        door_on_edge(old(room).bounds, old(room).entrance),
    ensures
        *final(room) == (VaultRoom { entrance_door: DoorType::Regular, ..*old(room) }),
        final(random).wf(),
        final(state).equipment.wf(),
        final(state).consumables.wf(),
        ({
            let b = old(room).bounds;
            let width = old(state).map_width as int;
            let (terrain, treasure) = circle_scan_terrain(old(state).map@, width, b, old(room).entrance);
            match result {
                Ok(p) => exists|
                    mid: VaultLevelState,
                    found: Option<VaultItem>,
                    after_lookup: Seq<u64>,
                    after_solve: Seq<u64>,
                |
                    prepared(*old(state), mid, terrain, middle_sentry(b, width)) && #[trigger] treasure_placed(
                        mid,
                        *final(state),
                        treasure,
                        old(random)@,
                        final(random)@,
                        p,
                        found,
                        after_lookup,
                        after_solve,
                    ),
                Err(e) => e == VaultError::NoDropCell && exists|
                    mid: VaultLevelState,
                    chest: usize,
                    equipment: VaultEquipment,
                    solve_item: VaultItem,
                    found: Option<VaultItem>,
                    after_lookup: Seq<u64>,
                    after_solve: Seq<u64>,
                |
                    prepared(*old(state), mid, terrain, middle_sentry(b, width)) && #[trigger] treasure_opened(
                        mid,
                        *final(state),
                        treasure,
                        old(random)@,
                        chest,
                        equipment,
                        solve_item,
                        found,
                        after_lookup,
                        after_solve,
                    ) && treasure_unplaceable(mid, treasure, chest, equipment, solve_item, after_solve),
            }
        }),
{
    let b = room.bounds;
    let door = room.entrance;
    room.entrance_door = DoorType::Regular;
    let width = state.map_width;
    let treasure = paint_circle_scan_terrain(&mut state.map, width, b, door);
    proof {
        lemma_room_small(b, width as int, state.map@.len() as int);
        lemma_cell_fits(
            ((b.left + b.right) / 2) as int,
            ((b.top + b.bottom) / 2) as int,
            width as int,
            b.bottom as int,
            state.map@.len() as int,
        );
    }
    let cx = (b.left + b.right) / 2;
    let cy = (b.top + b.bottom) / 2;
    state.mobs.push(VaultMob { kind: VaultMobKind::Sentry, cell: (cx + cy * width) as usize });
    let ghost mid = *state;
    let ghost terrain = circle_scan_terrain(old(state).map@, width as int, b, door).0;
    assert(treasure == circle_scan_terrain(old(state).map@, width as int, b, door).1);
    assert(prepared(*old(state), mid, terrain, middle_sentry(b, width as int)));
    let result = place_treasure(state, treasure, random);
    proof {
        match result {
            Ok(p) => {
                let (f, l, so) = choose|found: Option<VaultItem>, after_lookup: Seq<u64>, after_solve: Seq<u64>|
                    #[trigger] treasure_placed(mid, *state, treasure, old(random)@, random@, p, found, after_lookup, after_solve);
                assert(prepared(*old(state), mid, terrain, middle_sentry(b, width as int))
                    && treasure_placed(mid, *state, treasure, old(random)@, random@, p, f, l, so));
            },
            Err(_) => {
                let (c, e, si, f, l, so) = choose|
                    chest: usize,
                    equipment: VaultEquipment,
                    solve_item: VaultItem,
                    found: Option<VaultItem>,
                    after_lookup: Seq<u64>,
                    after_solve: Seq<u64>,
                | #[trigger] treasure_opened(mid, *state, treasure, old(random)@, chest, equipment, solve_item, found, after_lookup, after_solve)
                    && treasure_unplaceable(mid, treasure, chest, equipment, solve_item, after_solve);
                assert(prepared(*old(state), mid, terrain, middle_sentry(b, width as int))
                    && treasure_opened(mid, *state, treasure, old(random)@, c, e, si, f, l, so)
                    && treasure_unplaceable(mid, treasure, c, e, si, so));
            },
        }
    }
    result
}

/// The offset a flame line starts with: draws of five until one that no
/// earlier line of the group used, and the state after it; nothing once
/// `fuel` draws found none.
pub open spec fn fresh_offset(state: u64, prior: Seq<i32>, fuel: nat) -> Option<(i32, u64)>
    decreases fuel,
{
    if fuel == 0 {
        None
    } else {
        let d = int_bound_from(state, 5);
        if !prior.contains(d.0) {
            Some((d.0, d.1))
        } else {
            fresh_offset(d.1, prior, (fuel - 1) as nat)
        }
    }
}

/// Whether a flame group runs along rows (directions 0 and 2) or columns.
pub open spec fn rows_first(direction: u8) -> bool {
    direction == 0 || direction == 2
}

/// The number of lines of a flame group.
pub open spec fn group_lines(space: Rect, direction: u8) -> int {
    if rows_first(direction) {
        rect_rows(space)
    } else {
        rect_columns(space)
    }
}

/// The cells of line `i` of a flame group, in the order their traps are set:
/// right to left for direction 0, left to right for 2, bottom to top for 1
/// and top to bottom for 3.
pub open spec fn line_cells(space: Rect, direction: u8, width: int, i: int) -> Seq<int> {
    if rows_first(direction) {
        let line = space.top + i;
        Seq::new(
            rect_columns(space) as nat,
            |k: int| cell_at(width, if direction == 0 { space.right - k } else { space.left + k }, line),
        )
    } else {
        let line = space.left + i;
        Seq::new(
            rect_rows(space) as nat,
            |k: int| cell_at(width, line, if direction == 1 { space.bottom - k } else { space.top + k }),
        )
    }
}

/// Setting flame traps on `cells`, in order.
pub open spec fn trapped(map: Seq<Terrain>, cells: Seq<int>) -> Seq<Terrain>
    decreases cells.len(),
{
    if cells.len() == 0 {
        map
    } else {
        trapped(map, cells.drop_last()).update(cells.last(), Terrain::InactiveTrap)
    }
}

/// `fillFlameGroup` from line `i` on: each line draws a fresh offset, then
/// sets its traps. The map, the trap list and the generator state after it,
/// or nothing if an offset search came up empty.
pub open spec fn flame_lines(
    map: Seq<Terrain>,
    traps: Seq<usize>,
    width: int,
    space: Rect,
    direction: u8,
    state: u64,
    prior: Seq<i32>,
    i: int,
) -> Option<(Seq<Terrain>, Seq<usize>, u64)>
    decreases group_lines(space, direction) - i,
{
    if i >= group_lines(space, direction) {
        Some((map, traps, state))
    } else {
        match fresh_offset(state, prior, SEARCH_FUEL as nat) {
            None => None,
            Some((offset, next)) => {
                let cells = line_cells(space, direction, width, i);
                flame_lines(
                    trapped(map, cells),
                    traps + cells.map_values(|c: int| c as usize),
                    width,
                    space,
                    direction,
                    next,
                    prior.push(offset),
                    i + 1,
                )
            },
        }
    }
}

/// Draws the offset of one flame line.
fn draw_fresh_offset(prior: &Vec<i32>, random: &mut RandomStack) -> (offset: Option<i32>)
    requires
        old(random).wf(),
    ensures
        final(random).wf(),
        match fresh_offset(top(old(random)@), prior@, SEARCH_FUEL as nat) {
            Some((o, next)) => offset == Some(o) && final(random)@ == with_top(old(random)@, next),
            None => offset is None,
        },
{
    proof {
        random.lemma_wf_view();
        assert(random@ =~= with_top(old(random)@, top(random@)));
    }
    let mut fuel: u64 = SEARCH_FUEL;
    while fuel > 0
        invariant
            random.wf(),
            old(random)@.len() >= 1,
            random@.len() == old(random)@.len(),
            random@ == with_top(old(random)@, top(random@)),
            fresh_offset(top(random@), prior@, fuel as nat) == fresh_offset(
                top(old(random)@),
                prior@,
                SEARCH_FUEL as nat,
            ),
        decreases fuel,
    {
        let ghost before = random@;
        let o = random.int_bound(5);
        proof {
            random.lemma_wf_view();
            assert(random@ =~= with_top(old(random)@, top(random@)));
        }
        let mut used = false;
        let mut j: usize = 0;
        while j < prior.len()
            invariant
                j <= prior@.len(),
                used == exists|k: int| 0 <= k < j && prior@[k] == o,
            decreases prior@.len() - j,
        {
            if prior[j] == o {
                used = true;
            }
            j = j + 1;
        }
        proof {
            if used {
                let k = choose|k: int| 0 <= k < prior@.len() && prior@[k] == o;
                assert(prior@.contains(o));
            } else {
                assert(!prior@.contains(o));
            }
        }
        if !used {
            return Some(o);
        }
        fuel = fuel - 1;
    }
    None
}

/// `fillFlameGroup`: for each line of `space` a fresh offset, then a flame
/// trap on every cell of the line, in the direction's order.
fn fill_flame_group(state: &mut VaultLevelState, space: Rect, direction: u8, random: &mut RandomStack) -> (done: bool)
    requires
        old(random).wf(),
        rect_on_map(space, old(state).map_width as int, old(state).map@.len() as int),
        direction < 4,
    ensures
        final(random).wf(),
        match flame_lines(
            old(state).map@,
            old(state).flame_traps@,
            old(state).map_width as int,
            space,
            direction,
            top(old(random)@),
            Seq::empty(),
            0,
        ) {
            Some((map, traps, next)) => done && final(state).map@ == map && final(state).flame_traps@ == traps
                && final(random)@ == with_top(old(random)@, next),
            None => !done,
        },
        final(state).map@.len() == old(state).map@.len(),
        final(state).depth == old(state).depth,
        final(state).challenges == old(state).challenges,
        final(state).map_width == old(state).map_width,
        final(state).equipment == old(state).equipment,
        final(state).consumables == old(state).consumables,
        final(state).queue == old(state).queue,
        final(state).heaps == old(state).heaps,
        final(state).entrance_cell == old(state).entrance_cell,
        final(state).mobs == old(state).mobs,
{
    let width = state.map_width;
    let ghost len = state.map@.len();
    proof {
        random.lemma_wf_view();
        assert(random@ =~= with_top(old(random)@, top(random@)));
    }
    let lines: i32 = if direction == 0 || direction == 2 {
        space.bottom - space.top + 1
    } else {
        space.right - space.left + 1
    };
    let mut prior: Vec<i32> = Vec::new();
    let mut i: i32 = 0;
    while i < lines
        invariant
            0 <= i <= lines,
            lines == group_lines(space, direction),
            direction < 4,
            width == state.map_width,
            width == old(state).map_width,
            state.map@.len() == len,
            len == old(state).map@.len(),
            rect_on_map(space, width as int, len as int),
            random.wf(),
            old(random)@.len() >= 1,
            random@.len() == old(random)@.len(),
            random@ == with_top(old(random)@, top(random@)),
            flame_lines(state.map@, state.flame_traps@, width as int, space, direction, top(random@), prior@, i as int)
                == flame_lines(
                old(state).map@,
                old(state).flame_traps@,
                width as int,
                space,
                direction,
                top(old(random)@),
                Seq::empty(),
                0,
            ),
            state.depth == old(state).depth,
            state.challenges == old(state).challenges,
            state.equipment == old(state).equipment,
            state.consumables == old(state).consumables,
            state.queue == old(state).queue,
            state.heaps == old(state).heaps,
            state.entrance_cell == old(state).entrance_cell,
            state.mobs == old(state).mobs,
        decreases lines - i,
    {
        let ghost line_start = random@;
        let offset = match draw_fresh_offset(&prior, random) {
            Some(o) => o,
            None => {
                assert(fresh_offset(top(line_start), prior@, SEARCH_FUEL as nat) is None);
                assert(flame_lines(state.map@, state.flame_traps@, width as int, space, direction, top(line_start), prior@, i as int) is None);
                return false;
            },
        };
        proof {
            random.lemma_wf_view();
            assert(random@ =~= with_top(old(random)@, top(random@)));
        }
        let ghost cells = line_cells(space, direction, width as int, i as int);
        let ghost map_start = state.map@;
        let ghost traps_start = state.flame_traps@;
        let count: i32 = if direction == 0 || direction == 2 {
            space.right - space.left + 1
        } else {
            space.bottom - space.top + 1
        };
        let mut k: i32 = 0;
        while k < count
            invariant
                0 <= k <= count,
                count == cells.len(),
                0 <= i < lines,
                lines == group_lines(space, direction),
                direction < 4,
                width == state.map_width,
                state.map@.len() == len,
                rect_on_map(space, width as int, len as int),
                cells == line_cells(space, direction, width as int, i as int),
                state.map@ == trapped(map_start, cells.take(k as int)),
                state.flame_traps@ == traps_start + cells.take(k as int).map_values(|c: int| c as usize),
                state.depth == old(state).depth,
                state.challenges == old(state).challenges,
                state.equipment == old(state).equipment,
                state.consumables == old(state).consumables,
                state.queue == old(state).queue,
                state.heaps == old(state).heaps,
                state.entrance_cell == old(state).entrance_cell,
                state.mobs == old(state).mobs,
            decreases count - k,
        {
            let (x, y) = if direction == 0 || direction == 2 {
                (if direction == 0 { space.right - k } else { space.left + k }, space.top + i)
            } else {
                (space.left + i, if direction == 1 { space.bottom - k } else { space.top + k })
            };
            proof {
                lemma_cell_fits(x as int, y as int, width as int, space.bottom as int, len as int);
            }
            let cell = (x + y * width) as usize;
            assert(cell as int == cells[k as int]);
            state.map.set(cell, Terrain::InactiveTrap);
            state.flame_traps.push(cell);
            proof {
                assert(cells.take(k + 1).drop_last() =~= cells.take(k as int));
                assert(cells.take(k + 1).last() == cells[k as int]);
                assert(state.flame_traps@ =~= traps_start + cells.take(k + 1).map_values(|c: int| c as usize));
            }
            k = k + 1;
        }
        proof {
            assert(cells.take(count as int) =~= cells);
        }
        prior.push(offset);
        i = i + 1;
    }
    true
}

/// The flame groups of a flame-path room in painting order, the cell at the
/// path's end that is floored as treasure, and the treasure area. The path
/// runs along three sides, starting from the side across from the door.
pub open spec fn flame_path_plan(b: Rect, door: Point) -> (Seq<(Rect, u8)>, (int, int), Rect) {
    let c = room_center(b);
    let left_side = Rect { left: (b.left + 1) as i32, top: (b.top + 1) as i32, right: (b.left + 3) as i32, bottom: (b.bottom - 1) as i32 };
    let top_side = Rect { left: (b.left + 1) as i32, top: (b.top + 1) as i32, right: (b.right - 1) as i32, bottom: (b.top + 3) as i32 };
    let right_side = Rect { left: (b.right - 3) as i32, top: (b.top + 1) as i32, right: (b.right - 1) as i32, bottom: (b.bottom - 1) as i32 };
    let bottom_side = Rect { left: (b.left + 1) as i32, top: (b.bottom - 3) as i32, right: (b.right - 1) as i32, bottom: (b.bottom - 1) as i32 };
    if door.x == b.left {
        let t = Rect { left: (b.left + 1) as i32, top: (b.top + 5) as i32, right: (b.left + 5) as i32, bottom: (b.top + 5) as i32 };
        if door.y < c.y {
            (seq![(bottom_side, 2u8), (right_side, 1u8), (top_side, 0u8)], (b.left + 1, b.top + 6), t)
        } else {
            (seq![(top_side, 2u8), (right_side, 3u8), (bottom_side, 0u8)], (b.left + 1, b.top + 4), t)
        }
    } else if door.y == b.top {
        let t = Rect { left: (b.left + 5) as i32, top: (b.top + 1) as i32, right: (b.left + 5) as i32, bottom: (b.top + 5) as i32 };
        if door.x < c.x {
            (seq![(right_side, 3u8), (bottom_side, 0u8), (left_side, 1u8)], (b.left + 6, b.top + 1), t)
        } else {
            (seq![(left_side, 3u8), (bottom_side, 2u8), (right_side, 1u8)], (b.left + 4, b.top + 1), t)
        }
    } else if door.x == b.right {
        let t = Rect { left: (b.right - 5) as i32, top: (b.top + 5) as i32, right: (b.right - 1) as i32, bottom: (b.top + 5) as i32 };
        if door.y < c.y {
            (seq![(bottom_side, 0u8), (left_side, 1u8), (top_side, 2u8)], (b.right - 1, b.top + 6), t)
        } else {
            (seq![(top_side, 0u8), (left_side, 3u8), (bottom_side, 2u8)], (b.right - 1, b.top + 4), t)
        }
    } else {
        let t = Rect { left: (b.left + 5) as i32, top: (b.bottom - 5) as i32, right: (b.left + 5) as i32, bottom: (b.bottom - 1) as i32 };
        if door.x < c.x {
            (seq![(right_side, 1u8), (top_side, 0u8), (left_side, 3u8)], (b.left + 6, b.bottom - 1), t)
        } else {
            (seq![(left_side, 1u8), (top_side, 2u8), (right_side, 3u8)], (b.left + 4, b.bottom - 1), t)
        }
    }
}

/// Flame groups painted one after another, each with its own offsets.
pub open spec fn flame_groups(
    map: Seq<Terrain>,
    traps: Seq<usize>,
    width: int,
    groups: Seq<(Rect, u8)>,
    state: u64,
) -> Option<(Seq<Terrain>, Seq<usize>, u64)>
    decreases groups.len(),
{
    if groups.len() == 0 {
        Some((map, traps, state))
    } else {
        match flame_lines(map, traps, width, groups[0].0, groups[0].1, state, Seq::empty(), 0) {
            None => None,
            Some((m, t, next)) => flame_groups(m, t, width, groups.drop_first(), next),
        }
    }
}

/// The floor once a flame-path room's terrain and traps are in place,
/// before its treasure: nothing else has changed.
pub open spec fn trapped_floor(
    before: VaultLevelState,
    mid: VaultLevelState,
    map: Seq<Terrain>,
    traps: Seq<usize>,
) -> bool {
    &&& mid.map@ == map
    &&& mid.flame_traps@ == traps
    &&& mid.mobs == before.mobs
    &&& mid.depth == before.depth
    &&& mid.challenges == before.challenges
    &&& mid.map_width == before.map_width
    &&& mid.equipment == before.equipment
    &&& mid.consumables == before.consumables
    &&& mid.queue == before.queue
    &&& mid.heaps == before.heaps
    &&& mid.entrance_cell == before.entrance_cell
}

/// The flame-path plan, as values.
fn flame_plan(b: Rect, door: Point) -> (plan: (Vec<(Rect, u8)>, i32, i32, Rect))
    requires
        0 <= b.left <= b.right,
        0 <= b.top <= b.bottom,
        b.right < 0x1000_0000,
        b.bottom < 0x1000_0000,
    ensures
        (plan.0@, (plan.1 as int, plan.2 as int), plan.3) == flame_path_plan(b, door),
{
    let cx = (b.left + b.right) / 2;
    let cy = (b.top + b.bottom) / 2;
    let left_side = Rect { left: b.left + 1, top: b.top + 1, right: b.left + 3, bottom: b.bottom - 1 };
    let top_side = Rect { left: b.left + 1, top: b.top + 1, right: b.right - 1, bottom: b.top + 3 };
    let right_side = Rect { left: b.right - 3, top: b.top + 1, right: b.right - 1, bottom: b.bottom - 1 };
    let bottom_side = Rect { left: b.left + 1, top: b.bottom - 3, right: b.right - 1, bottom: b.bottom - 1 };
    let plan = if door.x == b.left {
        let t = Rect { left: b.left + 1, top: b.top + 5, right: b.left + 5, bottom: b.top + 5 };
        if door.y < cy {
            (vec![(bottom_side, 2u8), (right_side, 1u8), (top_side, 0u8)], b.left + 1, b.top + 6, t)
        } else {
            (vec![(top_side, 2u8), (right_side, 3u8), (bottom_side, 0u8)], b.left + 1, b.top + 4, t)
        }
    } else if door.y == b.top {
        let t = Rect { left: b.left + 5, top: b.top + 1, right: b.left + 5, bottom: b.top + 5 };
        if door.x < cx {
            (vec![(right_side, 3u8), (bottom_side, 0u8), (left_side, 1u8)], b.left + 6, b.top + 1, t)
        } else {
            (vec![(left_side, 3u8), (bottom_side, 2u8), (right_side, 1u8)], b.left + 4, b.top + 1, t)
        }
    } else if door.x == b.right {
        let t = Rect { left: b.right - 5, top: b.top + 5, right: b.right - 1, bottom: b.top + 5 };
        if door.y < cy {
            (vec![(bottom_side, 0u8), (left_side, 1u8), (top_side, 2u8)], b.right - 1, b.top + 6, t)
        } else {
            (vec![(top_side, 0u8), (left_side, 3u8), (bottom_side, 2u8)], b.right - 1, b.top + 4, t)
        }
    } else {
        let t = Rect { left: b.left + 5, top: b.bottom - 5, right: b.left + 5, bottom: b.bottom - 1 };
        if door.x < cx {
            (vec![(right_side, 1u8), (top_side, 0u8), (left_side, 3u8)], b.left + 6, b.bottom - 1, t)
        } else {
            (vec![(left_side, 1u8), (top_side, 2u8), (right_side, 3u8)], b.left + 4, b.bottom - 1, t)
        }
    };
    assert(plan.0@ =~= flame_path_plan(b, door).0);
    plan
}

/// What painting a flame-path room does, given the floor, the room, the
/// generator stack and the result.
pub open spec fn flame_path_painted(
    before: VaultLevelState,
    after: VaultLevelState,
    room: VaultRoom,
    states: Seq<u64>,
    states_after: Seq<u64>,
    result: Result<TreasurePlacement, VaultError>,
) -> bool {
    let b = room.bounds;
    let width = before.map_width as int;
    let plan = flame_path_plan(b, room.entrance);
    let walled = filled(before.map@, width, b.left as int, b.top as int, rect_columns(b), rect_rows(b), Terrain::Wall);
    match flame_groups(walled, before.flame_traps@, width, plan.0, top(states)) {
        None => result == Err::<TreasurePlacement, VaultError>(VaultError::NoDropCell),
        Some(trapped) => flame_path_stocked(before, after, plan.1, plan.2, trapped.0, trapped.1, with_top(states, trapped.2), states_after, result),
    }
}

/// The rest of a flame-path room once its traps are set: the path's end
/// and the treasure area floored as treasure, then the treasure stocked.
pub open spec fn flame_path_stocked(
    before: VaultLevelState,
    after: VaultLevelState,
    end: (int, int),
    treasure: Rect,
    trapped_map: Seq<Terrain>,
    traps: Seq<usize>,
    painted: Seq<u64>,
    states_after: Seq<u64>,
    result: Result<TreasurePlacement, VaultError>,
) -> bool {
    let width = before.map_width as int;
    let floor = filled(
        set_at(trapped_map, width, end.0, end.1, Terrain::EmptySp),
        width,
        treasure.left as int,
        treasure.top as int,
        rect_columns(treasure),
        rect_rows(treasure),
        Terrain::EmptySp,
    );
    match result {
        Ok(p) => exists|mid: VaultLevelState, found: Option<VaultItem>, after_lookup: Seq<u64>, after_solve: Seq<u64>|
            trapped_floor(before, mid, floor, traps) && #[trigger] treasure_placed(
                mid,
                after,
                treasure,
                painted,
                states_after,
                p,
                found,
                after_lookup,
                after_solve,
            ),
        Err(e) => e == VaultError::NoDropCell && exists|
            mid: VaultLevelState,
            chest: usize,
            equipment: VaultEquipment,
            solve_item: VaultItem,
            found: Option<VaultItem>,
            after_lookup: Seq<u64>,
            after_solve: Seq<u64>,
        |
            trapped_floor(before, mid, floor, traps) && #[trigger] treasure_opened(
                mid,
                after,
                treasure,
                painted,
                chest,
                equipment,
                solve_item,
                found,
                after_lookup,
                after_solve,
            ) && treasure_unplaceable(mid, treasure, chest, equipment, solve_item, after_solve),
    }
}

/// `VaultFlamePathRoom.paint`: walls, then flame traps along three sides in
/// the order the door decides, the path's end floored as treasure, the
/// treasure area, the entrance made a regular door, and the treasure area
/// stocked. The treasure tier must already hold items.
#[verifier::spinoff_prover]
pub fn paint_flame_path(
    state: &mut VaultLevelState,
    room: &mut VaultRoom,
    random: &mut RandomStack,
) -> (result: Result<TreasurePlacement, VaultError>)
    requires
        old(random).wf(),
        old(state).equipment.wf(),
        holds_item(old(state).equipment.slots(1)),
        old(state).consumables.wf(),
        room_on_map(old(room).bounds, old(state).map_width as int, old(state).map@.len() as int),
        door_on_edge(old(room).bounds, old(room).entrance),
    ensures
        *final(room) == (VaultRoom { entrance_door: DoorType::Regular, ..*old(room) }),
        final(random).wf(),
        final(state).equipment.wf(),
        final(state).consumables.wf(),
        flame_path_painted(*old(state), *final(state), *old(room), old(random)@, final(random)@, result),

{
    let b = room.bounds;
    let door = room.entrance;
    room.entrance_door = DoorType::Regular;
    let width = state.map_width;
    let ghost len = state.map@.len();
    proof {
        lemma_room_small(b, width as int, len as int);
    }
    fill_in(&mut state.map, width, b, b.left, b.top, b.right - b.left + 1, b.bottom - b.top + 1, Terrain::Wall);
    let (groups, end_x, end_y, treasure) = flame_plan(b, door);
    let ghost walled = state.map@;
    let ghost traps0 = state.flame_traps@;
    proof {
        assert(groups@.skip(0) =~= groups@);
        random.lemma_wf_view();
        assert(random@ =~= with_top(old(random)@, top(random@)));
        assert forall|j: int| 0 <= j < groups@.len() implies rect_on_map(#[trigger] groups@[j].0, width as int, len as int) && groups@[j].1 < 4 by {
            let r = groups@[j].0;
            lemma_rows_fit_above(len as int, width as int, r.bottom as int, b.bottom as int);
        }
    }
    let mut j: usize = 0;
    while j < groups.len()
        invariant
            j <= groups@.len(),
            groups@.len() == 3,
            width == state.map_width,
            width == old(state).map_width,
            state.map@.len() == len,
            len == old(state).map@.len(),
            room_on_map(b, width as int, len as int),
            forall|k: int| 0 <= k < groups@.len() ==> rect_on_map(#[trigger] groups@[k].0, width as int, len as int) && groups@[k].1 < 4,
            random.wf(),
            old(random)@.len() >= 1,
            random@.len() == old(random)@.len(),
            random@ == with_top(old(random)@, top(random@)),
            flame_groups(state.map@, state.flame_traps@, width as int, groups@.skip(j as int), top(random@))
                == flame_groups(walled, traps0, width as int, groups@, top(old(random)@)),
            state.depth == old(state).depth,
            state.challenges == old(state).challenges,
            state.equipment == old(state).equipment,
            state.consumables == old(state).consumables,
            state.queue == old(state).queue,
            state.heaps == old(state).heaps,
            state.entrance_cell == old(state).entrance_cell,
            state.mobs == old(state).mobs,
            state.equipment.wf(),
            state.consumables.wf(),
            *room == (VaultRoom { entrance_door: DoorType::Regular, ..*old(room) }),
            b == old(room).bounds,
            door == old(room).entrance,
            (groups@, (end_x as int, end_y as int), treasure) == flame_path_plan(b, door),
            walled == filled(old(state).map@, width as int, b.left as int, b.top as int, rect_columns(b), rect_rows(b), Terrain::Wall),
            traps0 == old(state).flame_traps@,
        decreases groups@.len() - j,
    {
        let (space, direction) = groups[j];
        proof {
            assert(groups@.skip(j as int)[0] == groups@[j as int]);
            assert(groups@.skip(j as int).drop_first() =~= groups@.skip(j + 1));
        }
        if !fill_flame_group(state, space, direction, random) {
            assert(flame_path_painted(*old(state), *state, *old(room), old(random)@, random@, Err(VaultError::NoDropCell)));
            return Err(VaultError::NoDropCell);
        }
        proof {
            random.lemma_wf_view();
            assert(random@ =~= with_top(old(random)@, top(random@)));
        }
        j = j + 1;
    }
    let ghost trapped_map = state.map@;
    let ghost traps = state.flame_traps@;
    let ghost next = top(random@);
    proof {
        assert(groups@.skip(3) =~= Seq::<(Rect, u8)>::empty());
        assert(flame_groups(walled, traps0, width as int, groups@, top(old(random)@)) == Some((trapped_map, traps, next)));
    }
    set_in(&mut state.map, width, b, end_x, end_y, Terrain::EmptySp);
    fill_in(
        &mut state.map,
        width,
        b,
        treasure.left,
        treasure.top,
        treasure.right - treasure.left + 1,
        treasure.bottom - treasure.top + 1,
        Terrain::EmptySp,
    );
    proof {
        lemma_rows_fit_above(len as int, width as int, treasure.bottom as int, b.bottom as int);
    }
    let ghost mid = *state;
    let ghost painted = random@;
    assert(painted == with_top(old(random)@, next));
    assert(mid.map@ == filled(
        set_at(trapped_map, width as int, end_x as int, end_y as int, Terrain::EmptySp),
        width as int,
        treasure.left as int,
        treasure.top as int,
        rect_columns(treasure),
        rect_rows(treasure),
        Terrain::EmptySp,
    ));
    assert(trapped_floor(*old(state), mid, mid.map@, traps));
    proof {
        let plan = flame_path_plan(old(room).bounds, old(room).entrance);
        assert(plan.2 == treasure);
        assert(plan.1 == (end_x as int, end_y as int));
        assert(plan.0 == groups@);
        let walled_s = filled(
            old(state).map@,
            old(state).map_width as int,
            old(room).bounds.left as int,
            old(room).bounds.top as int,
            rect_columns(old(room).bounds),
            rect_rows(old(room).bounds),
            Terrain::Wall,
        );
        assert(walled_s == walled);
        assert(flame_groups(walled_s, old(state).flame_traps@, old(state).map_width as int, plan.0, top(old(random)@))
            == Some((trapped_map, traps, next)));
        assert(mid.flame_traps@ == traps);
    }
    let result = place_treasure(state, treasure, random);
    proof {
        match result {
            Ok(p) => {
                let (f, l, so) = choose|found: Option<VaultItem>, after_lookup: Seq<u64>, after_solve: Seq<u64>|
                    #[trigger] treasure_placed(mid, *state, treasure, painted, random@, p, found, after_lookup, after_solve);
                assert(trapped_floor(*old(state), mid, mid.map@, mid.flame_traps@)
                    && treasure_placed(mid, *state, treasure, painted, random@, p, f, l, so));
                let plan = flame_path_plan(old(room).bounds, old(room).entrance);
                let w = old(state).map_width as int;
                let floor_s = filled(
                    set_at(trapped_map, w, plan.1.0, plan.1.1, Terrain::EmptySp),
                    w,
                    plan.2.left as int,
                    plan.2.top as int,
                    rect_columns(plan.2),
                    rect_rows(plan.2),
                    Terrain::EmptySp,
                );
                assert(floor_s == mid.map@);
                assert(trapped_floor(*old(state), mid, floor_s, traps)
                    && treasure_placed(mid, *state, plan.2, with_top(old(random)@, next), random@, p, f, l, so));
                assert(exists|
                    mid2: VaultLevelState,
                    found: Option<VaultItem>,
                    after_lookup: Seq<u64>,
                    after_solve: Seq<u64>,
                |
                    trapped_floor(*old(state), mid2, floor_s, traps) && #[trigger] treasure_placed(
                        mid2,
                        *state,
                        plan.2,
                        with_top(old(random)@, next),
                        random@,
                        p,
                        found,
                        after_lookup,
                        after_solve,
                    ));
                let walled_s = filled(
                    old(state).map@,
                    w,
                    old(room).bounds.left as int,
                    old(room).bounds.top as int,
                    rect_columns(old(room).bounds),
                    rect_rows(old(room).bounds),
                    Terrain::Wall,
                );
                assert(flame_groups(walled_s, old(state).flame_traps@, w, plan.0, top(old(random)@)) == Some((trapped_map, traps, next)));
                assert(flame_path_stocked(*old(state), *state, plan.1, plan.2, trapped_map, traps, with_top(old(random)@, next), random@, result));
                assert(flame_path_painted(*old(state), *state, *old(room), old(random)@, random@, result));
            },
            Err(_) => {
                let (c, e, si, f, l, so) = choose|
                    chest: usize,
                    equipment: VaultEquipment,
                    solve_item: VaultItem,
                    found: Option<VaultItem>,
                    after_lookup: Seq<u64>,
                    after_solve: Seq<u64>,
                | #[trigger] treasure_opened(mid, *state, treasure, painted, chest, equipment, solve_item, found, after_lookup, after_solve)
                    && treasure_unplaceable(mid, treasure, chest, equipment, solve_item, after_solve);
                assert(trapped_floor(*old(state), mid, mid.map@, mid.flame_traps@)
                    && treasure_opened(mid, *state, treasure, painted, c, e, si, f, l, so)
                    && treasure_unplaceable(mid, treasure, c, e, si, so));
                assert(exists|
                    mid2: VaultLevelState,
                    chest: usize,
                    equipment: VaultEquipment,
                    solve_item: VaultItem,
                    found: Option<VaultItem>,
                    after_lookup: Seq<u64>,
                    after_solve: Seq<u64>,
                |
                    trapped_floor(*old(state), mid2, mid.map@, traps) && #[trigger] treasure_opened(
                        mid2,
                        *state,
                        treasure,
                        painted,
                        chest,
                        equipment,
                        solve_item,
                        found,
                        after_lookup,
                        after_solve,
                    ) && treasure_unplaceable(mid2, treasure, chest, equipment, solve_item, after_solve));
                let plan = flame_path_plan(old(room).bounds, old(room).entrance);
                let w = old(state).map_width as int;
                let floor_s = filled(
                    set_at(trapped_map, w, plan.1.0, plan.1.1, Terrain::EmptySp),
                    w,
                    plan.2.left as int,
                    plan.2.top as int,
                    rect_columns(plan.2),
                    rect_rows(plan.2),
                    Terrain::EmptySp,
                );
                assert(floor_s == mid.map@);
                assert(trapped_floor(*old(state), mid, floor_s, traps)
                    && treasure_opened(mid, *state, plan.2, with_top(old(random)@, next), c, e, si, f, l, so)
                    && treasure_unplaceable(mid, plan.2, c, e, si, so));
                assert(flame_path_stocked(*old(state), *state, plan.1, plan.2, trapped_map, traps, with_top(old(random)@, next), random@, result));
                assert(flame_path_painted(*old(state), *state, *old(room), old(random)@, random@, result));
            },
        }
    }
    result
}

/// `VaultHardLaserTreasureRoom`'s stocking of its treasure area `r`: a chest
/// with the next tier-three equipment on a drawn cell, a tier-three
/// consumable and a dwarf token on free drawn cells, and a Stone of Blink
/// queued to spawn elsewhere.
pub open spec fn hard_treasure_placed(
    before: VaultLevelState,
    after: VaultLevelState,
    r: Rect,
    states: Seq<u64>,
    states_after: Seq<u64>,
    p: TreasurePlacement,
    after_solve: Seq<u64>,
) -> bool {
    let width = before.map_width as int;
    let (drawn, next) = drawn_cell(r, width, top(states));
    let chested = with_chest(heaps_view(before.heaps@), p.equipment, p.chest);
    let first = free_draw(chested, r, width, top(after_solve), SEARCH_FUEL as nat);
    let solved = heaps_after_drop(chested, p.solve_item, p.solve_cell);
    let after_first = with_top(after_solve, first->Some_0.1);
    let second = free_draw(solved, r, width, top(after_first), SEARCH_FUEL as nat);
    &&& p.chest == drawn
    &&& equipment_handed(before.equipment, after.equipment, 3, p.equipment)
    &&& consumable_taken(before.consumables, after.consumables, 3, p.solve_item, with_top(states, next), after_solve)
    &&& first is Some
    &&& first->Some_0.0 == p.solve_cell
    &&& second is Some
    &&& second->Some_0.0 == p.token_cell
    &&& states_after == with_top(after_first, second->Some_0.1)
    &&& heaps_view(after.heaps@) == heaps_after_drop(solved, VaultItem::DwarfToken, p.token_cell)
    &&& after.queue.items@ == before.queue.items@.push(
        VaultItem::Consumable(VaultConsumable::Stone(StoneKind::Blink)),
    )
    &&& floor_kept(before, after)
}

/// Stocks the treasure area of a hard laser room.
pub fn place_hard_treasure(state: &mut VaultLevelState, r: Rect, random: &mut RandomStack) -> (result: Result<
    TreasurePlacement,
    VaultError,
>)
    requires
        old(random).wf(),
        old(state).equipment.wf(),
        holds_item(old(state).equipment.slots(3)),
        old(state).consumables.wf(),
        rect_on_map(r, old(state).map_width as int, old(state).map@.len() as int),
    ensures
        final(random).wf(),
        final(state).equipment.wf(),
        final(state).consumables.wf(),
        match result {
            Ok(p) => exists|after_solve: Seq<u64>|
                #[trigger] hard_treasure_placed(*old(state), *final(state), r, old(random)@, final(random)@, p, after_solve),
            Err(e) => e == VaultError::NoDropCell,
        },
{
    let ghost start = *state;
    let ghost states = random@;
    let chest = random_rect_cell(state.map_width, state.map.len(), r, random);
    let equipment = state.equipment.create_equipment(3);
    let heap = state.drop(VaultItem::Equipment(equipment), chest);
    proof {
        let h0 = heaps_view(start.heaps@);
        assert(h0.len() == start.heaps@.len());
        assert(heaps_view(state.heaps@).len() == state.heaps@.len());
        match first_heap_on(h0, chest) {
            Some(i) => {
                assert(is_first_on(h0, chest, i));
            },
            None => {},
        }
    }
    state.set_heap_kind(heap, VaultHeapKind::Chest);
    assert(heaps_view(state.heaps@) == with_chest(heaps_view(start.heaps@), equipment, chest));
    let solve_item = state.consumables.create_consumable(3, random);
    let ghost after_solve = random@;
    let solve_cell = match find_free_cell(state, r, random) {
        Some(cell) => cell,
        None => return Err(VaultError::NoDropCell),
    };
    state.drop(solve_item, solve_cell);
    let token_cell = match find_free_cell(state, r, random) {
        Some(cell) => cell,
        None => return Err(VaultError::NoDropCell),
    };
    state.drop(VaultItem::DwarfToken, token_cell);
    state.queue.add(VaultItem::Consumable(VaultConsumable::Stone(StoneKind::Blink)));
    let placement = TreasurePlacement { chest, equipment, solve_item, solve_cell, token_cell };
    assert(hard_treasure_placed(start, *state, r, states, random@, placement, after_solve));
    Ok(placement)
}

/// `GameMath.gate(min, value, max)` on integers.
pub open spec fn gate(minimum: int, value: int, maximum: int) -> int {
    if value < minimum {
        minimum
    } else if value > maximum {
        maximum
    } else {
        value
    }
}

/// Setting `cells` to `value`, in order.
pub open spec fn set_cells(map: Seq<Terrain>, cells: Seq<int>, value: Terrain) -> Seq<Terrain>
    decreases cells.len(),
{
    if cells.len() == 0 {
        map
    } else {
        set_cells(map, cells.drop_last(), value).update(cells.last(), value)
    }
}

/// The laser room's plan: the guarded area's fill, the laser cells in the
/// order their pedestals and lasers are placed (two per line, the lines
/// walked away from the door), and the item area at the far end.
pub open spec fn laser_plan(b: Rect, door: Point, hard: bool, width: int) -> ((int, int, int, int), Seq<int>, Rect) {
    let inset = if hard { 1int } else { 2int };
    let off = if hard { 0int } else { 1int };
    let lines = 7int;
    if door.x != b.left && door.x != b.right {
        let area_left = gate(b.left + inset, door.x - 2, b.right - 4 - inset);
        let line = |k: int| if door.y == b.top { b.bottom - 2 - k } else { b.top + 2 + k };
        let cells = Seq::new(
            2 * lines as nat,
            |k: int| if k % 2 == 0 {
                cell_at(width, area_left - off, line(k / 2))
            } else {
                cell_at(width, area_left + 4 + off, line(k / 2))
            },
        );
        let place = if door.y == b.top {
            Rect { left: area_left as i32, top: (b.bottom - 1) as i32, right: (area_left + 4) as i32, bottom: (b.bottom - 1) as i32 }
        } else {
            Rect { left: area_left as i32, top: (b.top + 1) as i32, right: (area_left + 4) as i32, bottom: (b.top + 1) as i32 }
        };
        ((area_left, b.top + 1, 5, 9), cells, place)
    } else {
        let area_top = gate(b.top + inset, door.y - 2, b.bottom - 4 - inset);
        let column = |k: int| if door.x == b.left { b.right - 2 - k } else { b.left + 2 + k };
        let cells = Seq::new(
            2 * lines as nat,
            |k: int| if k % 2 == 0 {
                cell_at(width, column(k / 2), area_top - off)
            } else {
                cell_at(width, column(k / 2), area_top + 4 + off)
            },
        );
        let place = if door.x == b.left {
            Rect { left: (b.right - 1) as i32, top: area_top as i32, right: (b.right - 1) as i32, bottom: (area_top + 4) as i32 }
        } else {
            Rect { left: (b.left + 1) as i32, top: area_top as i32, right: (b.left + 1) as i32, bottom: (area_top + 4) as i32 }
        };
        ((b.left + 1, area_top, 9, 5), cells, place)
    }
}

/// The terrain of a laser treasure room: walls, the guarded area, the
/// pedestals, the step in from the door (easy rooms only), and the item
/// area floored as treasure.
pub open spec fn laser_terrain(map: Seq<Terrain>, width: int, b: Rect, door: Point, hard: bool) -> Seq<Terrain> {
    let (area, cells, place) = laser_plan(b, door, hard, width);
    let walled = filled(map, width, b.left as int, b.top as int, rect_columns(b), rect_rows(b), Terrain::Wall);
    let guarded = filled(walled, width, area.0, area.1, area.2, area.3, if hard { Terrain::EmptySp } else { Terrain::Empty });
    let lasered = set_cells(guarded, cells, Terrain::Pedestal);
    let (dx, dy) = inward(b, door);
    let stepped = if hard {
        lasered
    } else {
        drawn_inside(lasered, width, door.x as int, door.y as int, dx, dy, 1, Terrain::Empty)
    };
    filled(stepped, width, place.left as int, place.top as int, rect_columns(place), rect_rows(place), Terrain::EmptySp)
}

/// A standard vault room: eleven cells each way.
pub open spec fn standard_room(b: Rect) -> bool {
    rect_columns(b) == 11 && rect_rows(b) == 11
}

/// The lasers of a laser room, one on each laser cell, in order.
pub open spec fn lasers(cells: Seq<int>) -> Seq<VaultMob> {
    cells.map_values(|c: int| VaultMob { kind: VaultMobKind::Laser, cell: c as usize })
}

/// The floor once a room's terrain is painted and `added` mobs placed,
/// before its treasure: nothing else has changed.
pub open spec fn guarded_floor(
    before: VaultLevelState,
    mid: VaultLevelState,
    terrain: Seq<Terrain>,
    added: Seq<VaultMob>,
) -> bool {
    &&& mid.map@ == terrain
    &&& mid.mobs@ == before.mobs@ + added
    &&& mid.depth == before.depth
    &&& mid.challenges == before.challenges
    &&& mid.map_width == before.map_width
    &&& mid.equipment == before.equipment
    &&& mid.consumables == before.consumables
    &&& mid.queue == before.queue
    &&& mid.heaps == before.heaps
    &&& mid.flame_traps == before.flame_traps
    &&& mid.entrance_cell == before.entrance_cell
}

/// What painting a laser treasure room does.
pub open spec fn laser_painted(
    before: VaultLevelState,
    after: VaultLevelState,
    room: VaultRoom,
    hard: bool,
    states: Seq<u64>,
    states_after: Seq<u64>,
    result: Result<TreasurePlacement, VaultError>,
) -> bool {
    let width = before.map_width as int;
    let plan = laser_plan(room.bounds, room.entrance, hard, width);
    let terrain = laser_terrain(before.map@, width, room.bounds, room.entrance, hard);
    let place = plan.2;
    match result {
        Ok(p) => if hard {
            exists|mid: VaultLevelState, after_solve: Seq<u64>|
                guarded_floor(before, mid, terrain, lasers(plan.1)) && #[trigger] hard_treasure_placed(
                    mid,
                    after,
                    place,
                    states,
                    states_after,
                    p,
                    after_solve,
                )
        } else {
            exists|mid: VaultLevelState, found: Option<VaultItem>, after_lookup: Seq<u64>, after_solve: Seq<u64>|
                guarded_floor(before, mid, terrain, lasers(plan.1)) && #[trigger] treasure_placed(
                    mid,
                    after,
                    place,
                    states,
                    states_after,
                    p,
                    found,
                    after_lookup,
                    after_solve,
                )
        },
        Err(e) => e == VaultError::NoDropCell,
    }
}

/// Places the pedestals and lasers of a laser room.
#[verifier::rlimit(40)]
fn place_lasers(state: &mut VaultLevelState, b: Rect, door: Point, hard: bool)
    requires
        room_on_map(b, old(state).map_width as int, old(state).map@.len() as int),
        standard_room(b),
        door_on_edge(b, door),
    ensures
        final(state).map@ == set_cells(old(state).map@, laser_plan(b, door, hard, old(state).map_width as int).1, Terrain::Pedestal),
        final(state).mobs@ == old(state).mobs@ + lasers(laser_plan(b, door, hard, old(state).map_width as int).1),
        final(state).map@.len() == old(state).map@.len(),
        final(state).depth == old(state).depth,
        final(state).challenges == old(state).challenges,
        final(state).map_width == old(state).map_width,
        final(state).equipment == old(state).equipment,
        final(state).consumables == old(state).consumables,
        final(state).queue == old(state).queue,
        final(state).heaps == old(state).heaps,
        final(state).flame_traps == old(state).flame_traps,
        final(state).entrance_cell == old(state).entrance_cell,
{
    let width = state.map_width;
    let ghost len = state.map@.len();
    let ghost cells = laser_plan(b, door, hard, width as int).1;
    let ghost map0 = state.map@;
    let ghost mobs0 = state.mobs@;
    proof {
        lemma_room_small(b, width as int, len as int);
    }
    let inset: i32 = if hard { 1 } else { 2 };
    let off: i32 = if hard { 0 } else { 1 };
    let across = door.x != b.left && door.x != b.right;
    let anchor: i32 = if across {
        let v = door.x - 2;
        if v < b.left + inset {
            b.left + inset
        } else if v > b.right - 4 - inset {
            b.right - 4 - inset
        } else {
            v
        }
    } else {
        let v = door.y - 2;
        if v < b.top + inset {
            b.top + inset
        } else if v > b.bottom - 4 - inset {
            b.bottom - 4 - inset
        } else {
            v
        }
    };
    let mut k: i32 = 0;
    while k < 7
        invariant
            0 <= k <= 7,
            width == state.map_width,
            width == old(state).map_width,
            state.map@.len() == len,
            len == old(state).map@.len(),
            room_on_map(b, width as int, len as int),
            standard_room(b),
            door_on_edge(b, door),
            b.right < 0x1000_0000,
            b.bottom < 0x1000_0000,
            inset == (if hard { 1int } else { 2int }),
            off == (if hard { 0int } else { 1int }),
            across == (door.x != b.left && door.x != b.right),
            across ==> anchor == gate(b.left + inset, door.x - 2, b.right - 4 - inset),
            !across ==> anchor == gate(b.top + inset, door.y - 2, b.bottom - 4 - inset),
            cells == laser_plan(b, door, hard, width as int).1,
            map0 == old(state).map@,
            mobs0 == old(state).mobs@,
            state.map@ == set_cells(map0, cells.take(2 * k), Terrain::Pedestal),
            state.mobs@ == mobs0 + lasers(cells.take(2 * k)),
            state.depth == old(state).depth,
            state.challenges == old(state).challenges,
            state.equipment == old(state).equipment,
            state.consumables == old(state).consumables,
            state.queue == old(state).queue,
            state.heaps == old(state).heaps,
            state.flame_traps == old(state).flame_traps,
            state.entrance_cell == old(state).entrance_cell,
        decreases 7 - k,
    {
        let (x1, y1, x2, y2) = if across {
            let y = if door.y == b.top { b.bottom - 2 - k } else { b.top + 2 + k };
            (anchor - off, y, anchor + 4 + off, y)
        } else {
            let x = if door.x == b.left { b.right - 2 - k } else { b.left + 2 + k };
            (x, anchor - off, x, anchor + 4 + off)
        };
        assert(cells[2 * k] == cell_at(width as int, x1 as int, y1 as int));
        assert(cells[2 * k + 1] == cell_at(width as int, x2 as int, y2 as int));
        proof {
            lemma_rows_fit_above(len as int, width as int, y1 as int, b.bottom as int);
            lemma_rows_fit_above(len as int, width as int, y2 as int, b.bottom as int);
            lemma_cell_fits(x1 as int, y1 as int, width as int, y1 as int, len as int);
            lemma_cell_fits(x2 as int, y2 as int, width as int, y2 as int, len as int);
        }
        set_in(&mut state.map, width, b, x1, y1, Terrain::Pedestal);
        state.mobs.push(VaultMob { kind: VaultMobKind::Laser, cell: (x1 + y1 * width) as usize });
        set_in(&mut state.map, width, b, x2, y2, Terrain::Pedestal);
        state.mobs.push(VaultMob { kind: VaultMobKind::Laser, cell: (x2 + y2 * width) as usize });
        proof {
            let t0 = cells.take(2 * k);
            let t1 = cells.take(2 * k + 1);
            let t2 = cells.take(2 * k + 2);
            assert(t1.drop_last() =~= t0);
            assert(t2.drop_last() =~= t1);
            assert(t1.last() == cells[2 * k]);
            assert(t2.last() == cells[2 * k + 1]);
            assert(set_cells(map0, t1, Terrain::Pedestal) == set_cells(map0, t0, Terrain::Pedestal).update(
                cells[2 * k],
                Terrain::Pedestal,
            ));
            assert(set_cells(map0, t2, Terrain::Pedestal) == set_cells(map0, t1, Terrain::Pedestal).update(
                cells[2 * k + 1],
                Terrain::Pedestal,
            ));
            assert(lasers(t2) =~= lasers(t0).push(VaultMob { kind: VaultMobKind::Laser, cell: cells[2 * k] as usize }).push(
                VaultMob { kind: VaultMobKind::Laser, cell: cells[2 * k + 1] as usize },
            ));
            assert(state.mobs@ =~= mobs0 + lasers(t2));
        }
        k = k + 1;
    }
    assert(cells.take(14) =~= cells);
}

/// The guarded area and the item area of a laser room.
fn laser_layout(b: Rect, door: Point, hard: bool, width: Ghost<int>) -> (layout: ((i32, i32, i32, i32), Rect))
    requires
        door_on_edge(b, door),
        0 <= b.left,
        0 <= b.top,
        b.right < 0x1000_0000,
        b.bottom < 0x1000_0000,
        standard_room(b),
    ensures
        ((layout.0.0 as int, layout.0.1 as int, layout.0.2 as int, layout.0.3 as int), layout.1) == (
            laser_plan(b, door, hard, width@).0,
            laser_plan(b, door, hard, width@).2,
        ),
{
    let inset: i32 = if hard { 1 } else { 2 };
    if door.x != b.left && door.x != b.right {
        let v = door.x - 2;
        let area_left = if v < b.left + inset {
            b.left + inset
        } else if v > b.right - 4 - inset {
            b.right - 4 - inset
        } else {
            v
        };
        let place = if door.y == b.top {
            Rect { left: area_left, top: b.bottom - 1, right: area_left + 4, bottom: b.bottom - 1 }
        } else {
            Rect { left: area_left, top: b.top + 1, right: area_left + 4, bottom: b.top + 1 }
        };
        ((area_left, b.top + 1, 5, 9), place)
    } else {
        let v = door.y - 2;
        let area_top = if v < b.top + inset {
            b.top + inset
        } else if v > b.bottom - 4 - inset {
            b.bottom - 4 - inset
        } else {
            v
        };
        let place = if door.x == b.left {
            Rect { left: b.right - 1, top: area_top, right: b.right - 1, bottom: area_top + 4 }
        } else {
            Rect { left: b.left + 1, top: area_top, right: b.left + 1, bottom: area_top + 4 }
        };
        ((b.left + 1, area_top, 9, 5), place)
    }
}

/// `VaultLaserTreasureRoom.paint` (and, with `hard`,
/// `VaultHardLaserTreasureRoom.paint`): walls, a guarded area flanked by two
/// rows of lasers on pedestals, a step in from the door for the easy room,
/// and the item area at the far end stocked. The treasure tier (three when
/// hard, one otherwise) must already hold items.
pub fn paint_laser_treasure_common(
    state: &mut VaultLevelState,
    room: &mut VaultRoom,
    hard: bool,
    random: &mut RandomStack,
) -> (result: Result<TreasurePlacement, VaultError>)
    requires
        old(random).wf(),
        old(state).equipment.wf(),
        holds_item(old(state).equipment.slots(if hard { 3 } else { 1 })),
        old(state).consumables.wf(),
        room_on_map(old(room).bounds, old(state).map_width as int, old(state).map@.len() as int),
        standard_room(old(room).bounds),
        door_on_edge(old(room).bounds, old(room).entrance),
    ensures
        *final(room) == (VaultRoom { entrance_door: DoorType::Regular, ..*old(room) }),
        final(random).wf(),
        final(state).equipment.wf(),
        final(state).consumables.wf(),
        laser_painted(*old(state), *final(state), *old(room), hard, old(random)@, final(random)@, result),
{
    let b = room.bounds;
    let door = room.entrance;
    room.entrance_door = DoorType::Regular;
    let width = state.map_width;
    let ghost len = state.map@.len();
    proof {
        lemma_room_small(b, width as int, len as int);
    }
    let ghost plan = laser_plan(b, door, hard, width as int);
    fill_in(&mut state.map, width, b, b.left, b.top, 11, 11, Terrain::Wall);
    let (area, place) = laser_layout(b, door, hard, Ghost(width as int));
    fill_in(
        &mut state.map,
        width,
        b,
        area.0,
        area.1,
        area.2,
        area.3,
        if hard { Terrain::EmptySp } else { Terrain::Empty },
    );
    place_lasers(state, b, door, hard);
    if !hard {
        let (dx, dy): (i32, i32) = if door.x == b.left {
            (1, 0)
        } else if door.x == b.right {
            (-1, 0)
        } else if door.y == b.top {
            (0, 1)
        } else {
            (0, -1)
        };
        let ghost before_step = state.map@;
        set_in(&mut state.map, width, b, door.x + dx, door.y + dy, Terrain::Empty);
        proof {
            let stepped = set_at(before_step, width as int, (door.x + dx) as int, (door.y + dy) as int, Terrain::Empty);
            assert(drawn_inside(stepped, width as int, (door.x + dx) as int, (door.y + dy) as int, dx as int, dy as int, 0, Terrain::Empty) == stepped);
            assert(state.map@ == drawn_inside(before_step, width as int, door.x as int, door.y as int, dx as int, dy as int, 1, Terrain::Empty));
        }
    }
    fill_in(
        &mut state.map,
        width,
        b,
        place.left,
        place.top,
        place.right - place.left + 1,
        place.bottom - place.top + 1,
        Terrain::EmptySp,
    );
    proof {
        lemma_rows_fit_above(len as int, width as int, place.bottom as int, b.bottom as int);
    }
    let ghost mid = *state;
    assert(mid.map@ == laser_terrain(old(state).map@, width as int, b, door, hard));
    assert(guarded_floor(*old(state), mid, mid.map@, lasers(plan.1)));
    let result = if hard {
        place_hard_treasure(state, place, random)
    } else {
        place_treasure(state, place, random)
    };
    proof {
        match result {
            Ok(p) => {
                if hard {
                    let so = choose|after_solve: Seq<u64>|
                        #[trigger] hard_treasure_placed(mid, *state, place, old(random)@, random@, p, after_solve);
                    assert(guarded_floor(*old(state), mid, mid.map@, lasers(plan.1))
                        && hard_treasure_placed(mid, *state, place, old(random)@, random@, p, so));
                } else {
                    let (f, l, so) = choose|found: Option<VaultItem>, after_lookup: Seq<u64>, after_solve: Seq<u64>|
                        #[trigger] treasure_placed(mid, *state, place, old(random)@, random@, p, found, after_lookup, after_solve);
                    assert(guarded_floor(*old(state), mid, mid.map@, lasers(plan.1))
                        && treasure_placed(mid, *state, place, old(random)@, random@, p, f, l, so));
                }
            },
            Err(_) => {},
        }
        assert(laser_painted(*old(state), *state, *old(room), hard, old(random)@, random@, result));
    }
    result
}

/// A door of a room and its type.
#[derive(Clone, Copy, Debug, PartialEq, Eq, Structural)]
pub struct Door {
    pub point: Point,
    pub kind: DoorType,
}

/// The Into Darkness challenge's bit.
pub const DARKNESS: u32 = 32;

/// The four places of an entrance room the beacons may stand around:
/// left, right, top and bottom of the middle.
pub open spec fn entrance_candidates(b: Rect) -> Seq<(int, int)> {
    let c = room_center(b);
    seq![
        (b.left + 2, c.y as int),
        (b.right - 2, c.y as int),
        (c.x as int, b.top + 2),
        (c.x as int, b.bottom - 2),
    ]
}

/// Walking three cells in from each door, in order.
pub open spec fn doors_drawn(map: Seq<Terrain>, width: int, b: Rect, doors: Seq<Point>) -> Seq<Terrain>
    decreases doors.len(),
{
    if doors.len() == 0 {
        map
    } else {
        let door = doors.last();
        let (dx, dy) = inward(b, door);
        drawn_inside(doors_drawn(map, width, b, doors.drop_last()), width, door.x as int, door.y as int, dx, dy, 3, Terrain::Empty)
    }
}

/// The entrance room's terrain: walls, an open middle with wall corners,
/// paths in from every door, decorated corners and a decorated cross.
pub open spec fn entrance_terrain(map: Seq<Terrain>, width: int, b: Rect, doors: Seq<Point>) -> Seq<Terrain> {
    let c = room_center(b);
    let (cx, cy) = (c.x as int, c.y as int);
    let m1 = filled(map, width, b.left as int, b.top as int, 11, 11, Terrain::Wall);
    let m2 = filled(m1, width, b.left + 2, b.top + 2, 7, 7, Terrain::Empty);
    let m3 = set_at(set_at(set_at(set_at(m2, width, cx - 3, cy - 3, Terrain::Wall), width, cx + 3, cy - 3, Terrain::Wall), width, cx - 3, cy + 3, Terrain::Wall), width, cx + 3, cy + 3, Terrain::Wall);
    let m4 = doors_drawn(m3, width, b, doors);
    let m5 = set_at(set_at(set_at(set_at(m4, width, cx - 2, cy - 2, Terrain::RegionDeco), width, cx + 2, cy - 2, Terrain::RegionDeco), width, cx - 2, cy + 2, Terrain::RegionDeco), width, cx + 2, cy + 2, Terrain::RegionDeco);
    let m6 = filled(m5, width, b.left + 2, b.top + 4, 7, 3, Terrain::CustomDecoEmpty);
    filled(m6, width, b.left + 4, b.top + 2, 3, 7, Terrain::CustomDecoEmpty)
}

/// The beacons (and, in darkness, a torch) dropped around the chosen place:
/// a draw of three decides which of the three cells along it the torch
/// takes; the beacons take the other two.
pub open spec fn entrance_drops(drawn: int, torch: bool, center: int, offset: int) -> Seq<(VaultItem, int)> {
    if drawn == 0 {
        (if torch { seq![(VaultItem::Torch, center - offset)] } else { Seq::empty() }) + seq![
            (VaultItem::VaultBeacon, center),
            (VaultItem::VaultBeacon, center + offset),
        ]
    } else if drawn == 1 {
        seq![(VaultItem::VaultBeacon, center - offset)] + (if torch { seq![(VaultItem::Torch, center)] } else { Seq::empty() })
            + seq![(VaultItem::VaultBeacon, center + offset)]
    } else {
        seq![(VaultItem::VaultBeacon, center - offset), (VaultItem::VaultBeacon, center)] + (if torch {
            seq![(VaultItem::Torch, center + offset)]
        } else {
            Seq::empty()
        })
    }
}

/// The heaps after dropping each item on its cell, in order.
pub open spec fn dropped_all(
    heaps: Seq<(usize, VaultHeapKind, Seq<VaultItem>)>,
    drops: Seq<(VaultItem, int)>,
) -> Seq<(usize, VaultHeapKind, Seq<VaultItem>)>
    decreases drops.len(),
{
    if drops.len() == 0 {
        heaps
    } else {
        heaps_after_drop(dropped_all(heaps, drops.drop_last()), drops.last().0, drops.last().1 as usize)
    }
}

/// `VaultEntranceRoom.paint`. The beacons stand around the candidate place
/// furthest from the doors; that choice is made by Euclidean distance and
/// handed in as `furthest`, an index into `entrance_candidates`. Every door
/// becomes a regular door, and the middle cell becomes the floor's entrance.
pub fn paint_entrance(
    state: &mut VaultLevelState,
    bounds: Rect,
    doors: &mut Vec<Door>,
    furthest: usize,
    random: &mut RandomStack,
)
    requires
        old(random).wf(),
        room_on_map(bounds, old(state).map_width as int, old(state).map@.len() as int),
        standard_room(bounds),
        forall|i: int| 0 <= i < old(doors)@.len() ==> door_on_edge(bounds, #[trigger] old(doors)@[i].point),
        furthest < 4,
        forall|i: int|
            0 <= i < old(state).mobs@.len() ==> (#[trigger] old(state).mobs@[i]).cell != cell_at(
                old(state).map_width as int,
                room_center(bounds).x as int,
                room_center(bounds).y as int,
            ),
    ensures
        final(random).wf(),
        final(doors)@.len() == old(doors)@.len(),
        forall|i: int|
            0 <= i < old(doors)@.len() ==> #[trigger] final(doors)@[i] == (Door { point: old(doors)@[i].point, kind: DoorType::Regular }),
        final(state).map@ == entrance_terrain(
            old(state).map@,
            old(state).map_width as int,
            bounds,
            old(doors)@.map_values(|d: Door| d.point),
        ),
        ({
            let width = old(state).map_width as int;
            let place = entrance_candidates(bounds)[furthest as int];
            let offset = if place.0 == room_center(bounds).x { 1 } else { width };
            let drawn = int_bound_from(top(old(random)@), 3);
            &&& final(random)@ == with_top(old(random)@, drawn.1)
            &&& heaps_view(final(state).heaps@) == dropped_all(
                heaps_view(old(state).heaps@),
                entrance_drops(drawn.0 as int, old(state).challenges.mask & DARKNESS != 0, cell_at(width, place.0, place.1), offset),
            )
        }),
        final(state).entrance_cell == Some(
            cell_at(old(state).map_width as int, room_center(bounds).x as int, room_center(bounds).y as int) as usize,
        ),
        final(state).mobs == old(state).mobs,
        final(state).depth == old(state).depth,
        final(state).challenges == old(state).challenges,
        final(state).map_width == old(state).map_width,
        final(state).equipment == old(state).equipment,
        final(state).consumables == old(state).consumables,
        final(state).queue == old(state).queue,
        final(state).flame_traps == old(state).flame_traps,
{
    let b = bounds;
    let width = state.map_width;
    let ghost len = state.map@.len();
    proof {
        lemma_room_small(b, width as int, len as int);
    }
    let cx = (b.left + b.right) / 2;
    let cy = (b.top + b.bottom) / 2;
    fill_in(&mut state.map, width, b, b.left, b.top, 11, 11, Terrain::Wall);
    fill_in(&mut state.map, width, b, b.left + 2, b.top + 2, 7, 7, Terrain::Empty);
    set_in(&mut state.map, width, b, cx - 3, cy - 3, Terrain::Wall);
    set_in(&mut state.map, width, b, cx + 3, cy - 3, Terrain::Wall);
    set_in(&mut state.map, width, b, cx - 3, cy + 3, Terrain::Wall);
    set_in(&mut state.map, width, b, cx + 3, cy + 3, Terrain::Wall);
    let ghost cornered = state.map@;
    let ghost points = old(doors)@.map_values(|d: Door| d.point);
    let ghost before = *state;
    let mut i: usize = 0;
    while i < doors.len()
        invariant
            i <= doors@.len(),
            doors@.len() == old(doors)@.len(),
            points == old(doors)@.map_values(|d: Door| d.point),
            forall|k: int| 0 <= k < old(doors)@.len() ==> door_on_edge(b, #[trigger] old(doors)@[k].point),
            forall|k: int| 0 <= k < i ==> #[trigger] doors@[k] == (Door { point: old(doors)@[k].point, kind: DoorType::Regular }),
            forall|k: int| i <= k < doors@.len() ==> #[trigger] doors@[k] == old(doors)@[k],
            width == state.map_width,
            state.map@.len() == len,
            room_on_map(b, width as int, len as int),
            state.map@ == doors_drawn(cornered, width as int, b, points.take(i as int)),
            state.heaps == before.heaps,
            state.mobs == before.mobs,
            state.depth == before.depth,
            state.challenges == before.challenges,
            state.map_width == before.map_width,
            state.equipment == before.equipment,
            state.consumables == before.consumables,
            state.queue == before.queue,
            state.flame_traps == before.flame_traps,
        decreases doors@.len() - i,
    {
        let door = doors[i];
        draw_in(&mut state.map, width, b, door.point, 3, Terrain::Empty);
        doors.set(i, Door { point: door.point, kind: DoorType::Regular });
        proof {
            assert(points.take(i + 1).drop_last() =~= points.take(i as int));
            assert(points.take(i + 1).last() == door.point);
        }
        i = i + 1;
    }
    proof {
        assert(points.take(doors@.len() as int) =~= points);
    }
    set_in(&mut state.map, width, b, cx - 2, cy - 2, Terrain::RegionDeco);
    set_in(&mut state.map, width, b, cx + 2, cy - 2, Terrain::RegionDeco);
    set_in(&mut state.map, width, b, cx - 2, cy + 2, Terrain::RegionDeco);
    set_in(&mut state.map, width, b, cx + 2, cy + 2, Terrain::RegionDeco);
    fill_in(&mut state.map, width, b, b.left + 2, b.top + 4, 7, 3, Terrain::CustomDecoEmpty);
    fill_in(&mut state.map, width, b, b.left + 4, b.top + 2, 3, 7, Terrain::CustomDecoEmpty);
    let (px, py): (i32, i32) = if furthest == 0 {
        (b.left + 2, cy)
    } else if furthest == 1 {
        (b.right - 2, cy)
    } else if furthest == 2 {
        (cx, b.top + 2)
    } else {
        (cx, b.bottom - 2)
    };
    proof {
        lemma_cell_fits(px as int, py as int, width as int, b.bottom as int, len as int);
        lemma_cell_fits(px as int, py + 1, width as int, b.bottom as int, len as int);
        assert(cell_at(width as int, px as int, py + 1) == cell_at(width as int, px as int, py as int) + width) by (nonlinear_arith);
        lemma_cell_fits(px as int, py - 1, width as int, b.bottom as int, len as int);
        assert(cell_at(width as int, px as int, py - 1) == cell_at(width as int, px as int, py as int) - width) by (nonlinear_arith);
        lemma_cell_fits(cx as int, cy as int, width as int, b.bottom as int, len as int);
    }
    let offset: i32 = if px == cx { 1 } else { width };
    let torch = state.challenges.mask & DARKNESS != 0;
    let center: i32 = px + py * width;
    let drawn = random.int_bound(3);
    let mut drops: Vec<(VaultItem, i32)> = Vec::new();
    if drawn == 0 {
        if torch {
            drops.push((VaultItem::Torch, center - offset));
        }
        drops.push((VaultItem::VaultBeacon, center));
        drops.push((VaultItem::VaultBeacon, center + offset));
    } else if drawn == 1 {
        drops.push((VaultItem::VaultBeacon, center - offset));
        if torch {
            drops.push((VaultItem::Torch, center));
        }
        drops.push((VaultItem::VaultBeacon, center + offset));
    } else {
        drops.push((VaultItem::VaultBeacon, center - offset));
        drops.push((VaultItem::VaultBeacon, center));
        if torch {
            drops.push((VaultItem::Torch, center + offset));
        }
    }
    let ghost wanted = entrance_drops(drawn as int, torch, center as int, offset as int);
    assert(drops@.map_values(|d: (VaultItem, i32)| (d.0, d.1 as int)) =~= wanted);
    let ghost heaps0 = heaps_view(state.heaps@);
    let ghost painted = state.map@;
    let mut k: usize = 0;
    while k < drops.len()
        invariant
            k <= drops@.len(),
            wanted == drops@.map_values(|d: (VaultItem, i32)| (d.0, d.1 as int)),
            forall|j: int| 0 <= j < drops@.len() ==> (#[trigger] drops@[j]).1 >= 0,
            heaps_view(state.heaps@) == dropped_all(heaps0, wanted.take(k as int)),
            state.map@ == painted,
            state.mobs == old(state).mobs,
            state.depth == old(state).depth,
            state.challenges == old(state).challenges,
            state.map_width == old(state).map_width,
            state.equipment == old(state).equipment,
            state.consumables == old(state).consumables,
            state.queue == old(state).queue,
            state.flame_traps == old(state).flame_traps,
        decreases drops@.len() - k,
    {
        let (item, cell) = drops[k];
        state.drop(item, cell as usize);
        proof {
            assert(wanted.take(k + 1).drop_last() =~= wanted.take(k as int));
            assert(wanted.take(k + 1).last() == wanted[k as int]);
        }
        k = k + 1;
    }
    proof {
        assert(wanted.take(drops@.len() as int) =~= wanted);
    }
    state.entrance_cell = Some((cx + cy * width) as usize);
}


/// A hallway runs along the longer of its two sides.
pub open spec fn hallway_wide(b: Rect) -> bool {
    rect_columns(b) > rect_rows(b)
}

/// The straight line between two cells of one row or one column, both ends
/// included.
pub open spec fn straight_line(map: Seq<Terrain>, width: int, x1: int, y1: int, x2: int, y2: int, value: Terrain) -> Seq<Terrain> {
    let left = if x1 <= x2 { x1 } else { x2 };
    let top = if y1 <= y2 { y1 } else { y2 };
    filled(map, width, left, top, magnitude(x1 - x2) + 1, magnitude(y1 - y2) + 1, value)
}

/// A hallway's walls and corridors: a corridor along its length and two
/// across it.
pub open spec fn hallway_terrain(map: Seq<Terrain>, width: int, b: Rect) -> Seq<Terrain> {
    let cols = rect_columns(b);
    let rows = rect_rows(b);
    let m1 = filled(map, width, b.left as int, b.top as int, cols, rows, Terrain::Wall);
    if hallway_wide(b) {
        let m2 = filled(m1, width, b.left + 1, b.top + 4, cols - 2, 3, Terrain::Empty);
        let m3 = filled(m2, width, b.left + 6, b.top + 1, 1, rows - 2, Terrain::Empty);
        filled(m3, width, b.right - 7, b.top + 1, 1, rows - 2, Terrain::Empty)
    } else {
        let m2 = filled(m1, width, b.left + 4, b.top + 1, 3, rows - 2, Terrain::Empty);
        let m3 = filled(m2, width, b.left + 1, b.top + 6, cols - 2, 1, Terrain::Empty);
        filled(m3, width, b.left + 1, b.bottom - 7, cols - 2, 1, Terrain::Empty)
    }
}

/// The path from one door of a hallway to its corridors, and the generator
/// stack after it. A door facing a cross corridor's middle draws a coin to
/// choose between the two cross corridors.
pub open spec fn hallway_door(map: Seq<Terrain>, width: int, b: Rect, door: Point, states: Seq<u64>) -> (Seq<Terrain>, Seq<u64>) {
    let c = room_center(b);
    let (cx, cy) = (c.x as int, c.y as int);
    let (dx, dy) = inward(b, door);
    let inside = (drawn_inside(map, width, door.x as int, door.y as int, dx, dy, 5, Terrain::Empty), states);
    let coin = int_bound_from(top(states), 2);
    if hallway_wide(b) {
        if door.x == b.left {
            (straight_line(map, width, door.x + 1, door.y as int, b.left + 1, cy, Terrain::Empty), states)
        } else if door.x == b.right {
            (straight_line(map, width, door.x - 1, door.y as int, b.right - 1, cy, Terrain::Empty), states)
        } else if b.left + 3 < door.x < b.right - 3 {
            let after = if door.x == cx { with_top(states, coin.1) } else { states };
            let far = door.x > cx || (door.x == cx && coin.0 != 0);
            let closest = if far { b.right - 7 } else { b.left + 6 };
            let row = if door.y == b.top { door.y + 1 } else { door.y - 1 };
            (straight_line(map, width, door.x as int, row, closest, row, Terrain::Empty), after)
        } else {
            inside
        }
    } else {
        if door.y == b.top {
            (straight_line(map, width, door.x as int, door.y + 1, cx, b.top + 1, Terrain::Empty), states)
        } else if door.y == b.bottom {
            (straight_line(map, width, door.x as int, door.y - 1, cx, b.bottom - 1, Terrain::Empty), states)
        } else if b.top + 3 < door.y < b.bottom - 3 {
            let after = if door.y == cy { with_top(states, coin.1) } else { states };
            let far = door.y > cy || (door.y == cy && coin.0 != 0);
            let closest = if far { b.bottom - 7 } else { b.top + 6 };
            let col = if door.x == b.left { door.x + 1 } else { door.x - 1 };
            (straight_line(map, width, col, door.y as int, col, closest, Terrain::Empty), after)
        } else {
            inside
        }
    }
}

/// The paths from every door, in order.
pub open spec fn hallway_doors(map: Seq<Terrain>, width: int, b: Rect, doors: Seq<Point>, states: Seq<u64>) -> (Seq<Terrain>, Seq<u64>)
    decreases doors.len(),
{
    if doors.len() == 0 {
        (map, states)
    } else {
        let (m, s) = hallway_doors(map, width, b, doors.drop_last(), states);
        hallway_door(m, width, b, doors.last(), s)
    }
}

/// The cell lies more than six steps from every door.
pub open spec fn far_from_doors(cell: int, width: int, doors: Seq<Point>) -> bool {
    forall|i: int|
        0 <= i < doors.len() ==> cell_distance(cell, cell_at(width, doors[i].x as int, doors[i].y as int), width) > 6
}

/// The two loot places of a hallway, two cells in from each end.
pub open spec fn hallway_loot_places(width: int, b: Rect) -> (int, int) {
    let c = room_center(b);
    if hallway_wide(b) {
        (cell_at(width, b.left + 2, c.y as int), cell_at(width, b.right - 2, c.y as int))
    } else {
        (cell_at(width, c.x as int, b.top + 2), cell_at(width, c.x as int, b.bottom - 2))
    }
}

/// Where a hallway's loot lies: the first loot place far from every door,
/// else the middle.
pub open spec fn hallway_loot_cell(width: int, b: Rect, doors: Seq<Point>) -> int {
    let (first, second) = hallway_loot_places(width, b);
    let c = room_center(b);
    if far_from_doors(first, width, doors) {
        first
    } else if far_from_doors(second, width, doors) {
        second
    } else {
        cell_at(width, c.x as int, c.y as int)
    }
}

/// The floor after a hallway is painted: its terrain and door paths, the
/// first queued equipable prize dropped on its loot cell, and the deck's
/// enemy in the middle after a draw of two for its wander route.
pub open spec fn hallway_painted(
    before: VaultLevelState,
    after: VaultLevelState,
    b: Rect,
    doors: Seq<Point>,
    enemy: VaultMobKind,
    states: Seq<u64>,
    states_after: Seq<u64>,
) -> bool {
    let width = before.map_width as int;
    let c = room_center(b);
    let wander = int_bound_from(top(states), 2);
    let painted = hallway_doors(hallway_terrain(before.map@, width, b), width, b, doors, with_top(states, wander.1));
    &&& after.map@ == painted.0
    &&& states_after == painted.1
    &&& after.mobs@ == before.mobs@.push(VaultMob { kind: enemy, cell: cell_at(width, c.x as int, c.y as int) as usize })
    &&& match first_match(before.queue.items@, PrizeFilter::Equipable) {
        None => after.queue.items@ == before.queue.items@ && heaps_view(after.heaps@) == heaps_view(before.heaps@),
        Some(i) => after.queue.items@ == before.queue.items@.remove(i) && heaps_view(after.heaps@) == heaps_after_drop(
            heaps_view(before.heaps@),
            before.queue.items@[i],
            hallway_loot_cell(width, b, doors) as usize,
        ),
    }
    &&& after.depth == before.depth
    &&& after.challenges == before.challenges
    &&& after.map_width == before.map_width
    &&& after.equipment == before.equipment
    &&& after.consumables == before.consumables
    &&& after.flame_traps == before.flame_traps
    &&& after.entrance_cell == before.entrance_cell
}

/// Two cells of a map that fits Java's `int` have a distance Java computes
/// without overflow.
proof fn lemma_distance_fits(a: int, b: int, width: int)
    requires
        0 <= a <= i32::MAX,
        0 <= b <= i32::MAX,
        0 < width <= i32::MAX,
    ensures
        cell_distance_fits(a, b, width),
{
    assert(0 <= a / width <= a && 0 <= b / width <= b) by (nonlinear_arith)
        requires
            0 <= a,
            0 <= b,
            0 < width,
    ;
    assert(0 <= a % width < width && 0 <= b % width < width) by (nonlinear_arith)
        requires
            0 < width,
    ;
}

/// Whether a cell lies more than six steps from every door.
fn far_from_all(state: &VaultLevelState, cell: i32, doors: &Vec<Door>, b: Rect) -> (far: bool)
    requires
        0 <= cell <= i32::MAX,
        room_on_map(b, state.map_width as int, state.map@.len() as int),
        forall|i: int| 0 <= i < doors@.len() ==> door_on_edge(b, #[trigger] doors@[i].point),
    ensures
        far == far_from_doors(cell as int, state.map_width as int, doors@.map_values(|d: Door| d.point)),
{
    let width = state.map_width;
    let ghost points = doors@.map_values(|d: Door| d.point);
    let ghost len = state.map@.len() as int;
    let mut i: usize = 0;
    while i < doors.len()
        invariant
            i <= doors@.len(),
            width == state.map_width,
            0 <= cell <= i32::MAX,
            room_on_map(b, width as int, len),
            len == state.map@.len(),
            points == doors@.map_values(|d: Door| d.point),
            forall|k: int| 0 <= k < doors@.len() ==> door_on_edge(b, #[trigger] doors@[k].point),
            forall|k: int| 0 <= k < i ==> cell_distance(cell as int, cell_at(width as int, points[k].x as int, points[k].y as int), width as int) > 6,
        decreases doors@.len() - i,
    {
        let door = doors[i].point;
        proof {
            assert(door_on_edge(b, doors@[i as int].point));
            lemma_room_small(b, width as int, len);
            lemma_cell_fits(door.x as int, door.y as int, width as int, b.bottom as int, len);
            lemma_distance_fits(cell as int, cell_at(width as int, door.x as int, door.y as int), width as int);
        }
        let door_cell: i32 = door.x + door.y * width;
        if state.distance(cell, door_cell) <= 6 {
            proof {
                assert(points[i as int] == door);
                assert(!(cell_distance(cell as int, cell_at(width as int, points[i as int].x as int, points[i as int].y as int), width as int) > 6));
            }
            return false;
        }
        i = i + 1;
    }
    true
}

/// Draws the straight line between two cells of one row or column of the
/// room `b`.
fn draw_straight(map: &mut Vec<Terrain>, width: i32, b: Rect, x1: i32, y1: i32, x2: i32, y2: i32, value: Terrain)
    requires
        room_on_map(b, width as int, old(map)@.len() as int),
        x1 == x2 || y1 == y2,
        b.left <= x1 <= b.right,
        b.left <= x2 <= b.right,
        b.top <= y1 <= b.bottom,
        b.top <= y2 <= b.bottom,
    ensures
        final(map)@ == straight_line(old(map)@, width as int, x1 as int, y1 as int, x2 as int, y2 as int, value),
        final(map)@.len() == old(map)@.len(),
{
    let left = if x1 <= x2 { x1 } else { x2 };
    let top = if y1 <= y2 { y1 } else { y2 };
    let w = if x1 <= x2 { x2 - x1 + 1 } else { x1 - x2 + 1 };
    let h = if y1 <= y2 { y2 - y1 + 1 } else { y1 - y2 + 1 };
    fill_in(map, width, b, left, top, w, h, value);
}

/// Paints the path from one door of a hallway to its corridors.
fn paint_hallway_door(map: &mut Vec<Terrain>, width: i32, b: Rect, door: Point, random: &mut RandomStack)
    requires
        room_on_map(b, width as int, old(map)@.len() as int),
        door_on_edge(b, door),
        old(random).wf(),
    ensures
        final(random).wf(),
        (final(map)@, final(random)@) == hallway_door(old(map)@, width as int, b, door, old(random)@),
        final(map)@.len() == old(map)@.len(),
{
    proof {
        lemma_room_small(b, width as int, map@.len() as int);
    }
    let cx = (b.left + b.right) / 2;
    let cy = (b.top + b.bottom) / 2;
    if b.right - b.left > b.bottom - b.top {
        if door.x == b.left {
            draw_straight(map, width, b, door.x + 1, door.y, b.left + 1, cy, Terrain::Empty);
        } else if door.x == b.right {
            draw_straight(map, width, b, door.x - 1, door.y, b.right - 1, cy, Terrain::Empty);
        } else if b.left + 3 < door.x && door.x < b.right - 3 {
            let far = if door.x > cx {
                true
            } else if door.x == cx {
                random.int_bound(2) != 0
            } else {
                false
            };
            let closest = if far { b.right - 7 } else { b.left + 6 };
            let row = if door.y == b.top { door.y + 1 } else { door.y - 1 };
            draw_straight(map, width, b, door.x, row, closest, row, Terrain::Empty);
        } else {
            draw_in(map, width, b, door, 5, Terrain::Empty);
        }
    } else {
        if door.y == b.top {
            draw_straight(map, width, b, door.x, door.y + 1, cx, b.top + 1, Terrain::Empty);
        } else if door.y == b.bottom {
            draw_straight(map, width, b, door.x, door.y - 1, cx, b.bottom - 1, Terrain::Empty);
        } else if b.top + 3 < door.y && door.y < b.bottom - 3 {
            let far = if door.y > cy {
                true
            } else if door.y == cy {
                random.int_bound(2) != 0
            } else {
                false
            };
            let closest = if far { b.bottom - 7 } else { b.top + 6 };
            let col = if door.x == b.left { door.x + 1 } else { door.x - 1 };
            draw_straight(map, width, b, col, door.y, col, closest, Terrain::Empty);
        } else {
            draw_in(map, width, b, door, 5, Terrain::Empty);
        }
    }
}

/// Paints a hallway's walls and corridors.
fn paint_hallway_terrain(map: &mut Vec<Terrain>, width: i32, b: Rect)
    requires
        room_on_map(b, width as int, old(map)@.len() as int),
    ensures
        final(map)@ == hallway_terrain(old(map)@, width as int, b),
        final(map)@.len() == old(map)@.len(),
{
    proof {
        lemma_room_small(b, width as int, map@.len() as int);
    }
    let cols = b.right - b.left + 1;
    let rows = b.bottom - b.top + 1;
    fill_in(map, width, b, b.left, b.top, cols, rows, Terrain::Wall);
    if cols > rows {
        fill_in(map, width, b, b.left + 1, b.top + 4, cols - 2, 3, Terrain::Empty);
        fill_in(map, width, b, b.left + 6, b.top + 1, 1, rows - 2, Terrain::Empty);
        fill_in(map, width, b, b.right - 7, b.top + 1, 1, rows - 2, Terrain::Empty);
    } else {
        fill_in(map, width, b, b.left + 4, b.top + 1, 3, rows - 2, Terrain::Empty);
        fill_in(map, width, b, b.left + 1, b.top + 6, cols - 2, 1, Terrain::Empty);
        fill_in(map, width, b, b.left + 1, b.bottom - 7, cols - 2, 1, Terrain::Empty);
    }
}

/// The cell a hallway's loot goes to.
fn hallway_loot(state: &VaultLevelState, b: Rect, doors: &Vec<Door>) -> (loot: i32)
    requires
        room_on_map(b, state.map_width as int, state.map@.len() as int),
        forall|i: int| 0 <= i < doors@.len() ==> door_on_edge(b, #[trigger] doors@[i].point),
    ensures
        loot as int == hallway_loot_cell(state.map_width as int, b, doors@.map_values(|d: Door| d.point)),
        0 <= loot,
{
    let width = state.map_width;
    let ghost len = state.map@.len() as int;
    proof {
        lemma_room_small(b, width as int, len);
    }
    let cx = (b.left + b.right) / 2;
    let cy = (b.top + b.bottom) / 2;
    proof {
        lemma_cell_fits(b.left + 2, cy as int, width as int, b.bottom as int, len);
        lemma_cell_fits(b.right - 2, cy as int, width as int, b.bottom as int, len);
        lemma_cell_fits(cx as int, b.top + 2, width as int, b.bottom as int, len);
        lemma_cell_fits(cx as int, b.bottom - 2, width as int, b.bottom as int, len);
        lemma_cell_fits(cx as int, cy as int, width as int, b.bottom as int, len);
    }
    let (first, second): (i32, i32) = if b.right - b.left > b.bottom - b.top {
        (b.left + 2 + cy * width, b.right - 2 + cy * width)
    } else {
        (cx + (b.top + 2) * width, cx + (b.bottom - 2) * width)
    };
    if far_from_all(state, first, doors, b) {
        first
    } else if far_from_all(state, second, doors, b) {
        second
    } else {
        cx + cy * width
    }
}

/// `VaultHallwayRoom.paint`. `enemy` is the mob the floor's mob deck created
/// for this room, and `random` the generator stack as that creation left
/// it; the painting before that creation draws nothing. Every door becomes
/// a regular door.
#[verifier::rlimit(40)]
pub fn paint_hallway(
    state: &mut VaultLevelState,
    bounds: Rect,
    doors: &mut Vec<Door>,
    enemy: VaultMobKind,
    random: &mut RandomStack,
)
    requires
        old(random).wf(),
        room_on_map(bounds, old(state).map_width as int, old(state).map@.len() as int),
        forall|i: int| 0 <= i < old(doors)@.len() ==> door_on_edge(bounds, #[trigger] old(doors)@[i].point),
    ensures
        final(random).wf(),
        final(doors)@.len() == old(doors)@.len(),
        forall|i: int|
            0 <= i < old(doors)@.len() ==> #[trigger] final(doors)@[i] == (Door { point: old(doors)@[i].point, kind: DoorType::Regular }),
        hallway_painted(
            *old(state),
            *final(state),
            bounds,
            old(doors)@.map_values(|d: Door| d.point),
            enemy,
            old(random)@,
            final(random)@,
        ),
{
    let b = bounds;
    let width = state.map_width;
    let ghost len = state.map@.len();
    proof {
        lemma_room_small(b, width as int, len as int);
    }
    let cx = (b.left + b.right) / 2;
    let cy = (b.top + b.bottom) / 2;
    paint_hallway_terrain(&mut state.map, width, b);
    let ghost points = old(doors)@.map_values(|d: Door| d.point);
    let loot = hallway_loot(state, b, doors);
    proof {
        lemma_cell_fits(cx as int, cy as int, width as int, b.bottom as int, len as int);
    }
    let found = state.queue.find_prize_item(PrizeFilter::Equipable);
    match found {
        Some(item) => {
            state.drop(item, loot as usize);
        },
        None => {},
    }
    let _ = random.int_bound(2);
    state.mobs.push(VaultMob { kind: enemy, cell: (cx + cy * width) as usize });
    let ghost terrain = state.map@;
    let ghost wandered = random@;
    let ghost mid = *state;
    let mut i: usize = 0;
    while i < doors.len()
        invariant
            i <= doors@.len(),
            doors@.len() == old(doors)@.len(),
            points == old(doors)@.map_values(|d: Door| d.point),
            forall|k: int| 0 <= k < old(doors)@.len() ==> door_on_edge(b, #[trigger] old(doors)@[k].point),
            forall|k: int| 0 <= k < i ==> #[trigger] doors@[k] == (Door { point: old(doors)@[k].point, kind: DoorType::Regular }),
            forall|k: int| i <= k < doors@.len() ==> #[trigger] doors@[k] == old(doors)@[k],
            width == state.map_width,
            state.map@.len() == len,
            room_on_map(b, width as int, len as int),
            random.wf(),
            (state.map@, random@) == hallway_doors(terrain, width as int, b, points.take(i as int), wandered),
            state.heaps == mid.heaps,
            state.mobs == mid.mobs,
            state.queue == mid.queue,
            state.depth == mid.depth,
            state.challenges == mid.challenges,
            state.map_width == mid.map_width,
            state.equipment == mid.equipment,
            state.consumables == mid.consumables,
            state.flame_traps == mid.flame_traps,
            state.entrance_cell == mid.entrance_cell,
        decreases doors@.len() - i,
    {
        let door = doors[i];
        paint_hallway_door(&mut state.map, width, b, door.point, random);
        doors.set(i, Door { point: door.point, kind: DoorType::Regular });
        proof {
            assert(points.take(i + 1).drop_last() =~= points.take(i as int));
            assert(points.take(i + 1).last() == door.point);
        }
        i = i + 1;
    }
    proof {
        assert(points.take(doors@.len() as int) =~= points);
    }
}

/// Every door of a room made a regular door.
pub open spec fn doors_made_regular(before: Seq<Door>, after: Seq<Door>) -> bool {
    &&& after.len() == before.len()
    &&& forall|i: int| 0 <= i < before.len() ==> #[trigger] after[i] == (Door { point: before[i].point, kind: DoorType::Regular })
}

/// Makes every door of a room a regular door.
fn make_doors_regular(doors: &mut Vec<Door>)
    ensures
        doors_made_regular(old(doors)@, final(doors)@),
{
    let mut i: usize = 0;
    while i < doors.len()
        invariant
            i <= doors@.len(),
            doors@.len() == old(doors)@.len(),
            forall|k: int| 0 <= k < i ==> #[trigger] doors@[k] == (Door { point: old(doors)@[k].point, kind: DoorType::Regular }),
            forall|k: int| i <= k < doors@.len() ==> #[trigger] doors@[k] == old(doors)@[k],
        decreases doors@.len() - i,
    {
        let door = doors[i];
        doors.set(i, Door { point: door.point, kind: DoorType::Regular });
        i = i + 1;
    }
}

/// A cross room's terrain: walls, an open cross of two corridors three
/// cells wide, and a pedestal in the middle.
pub open spec fn cross_terrain(map: Seq<Terrain>, width: int, b: Rect) -> Seq<Terrain> {
    let cols = rect_columns(b);
    let rows = rect_rows(b);
    let c = room_center(b);
    let m1 = filled(map, width, b.left as int, b.top as int, cols, rows, Terrain::Wall);
    let m2 = filled(m1, width, b.left + 4, b.top + 1, cols - 8, rows - 2, Terrain::Empty);
    let m3 = filled(m2, width, b.left + 1, b.top + 4, cols - 2, rows - 8, Terrain::Empty);
    set_at(m3, width, c.x as int, c.y as int, Terrain::Pedestal)
}

/// `VaultCrossRoom.paint`: the cross, a sentry on the pedestal, and every
/// door regular.
pub fn paint_cross(state: &mut VaultLevelState, bounds: Rect, doors: &mut Vec<Door>)
    requires
        room_on_map(bounds, old(state).map_width as int, old(state).map@.len() as int),
    ensures
        doors_made_regular(old(doors)@, final(doors)@),
        final(state).map@ == cross_terrain(old(state).map@, old(state).map_width as int, bounds),
        final(state).mobs@ == old(state).mobs@.push(VaultMob {
            kind: VaultMobKind::Sentry,
            cell: cell_at(old(state).map_width as int, room_center(bounds).x as int, room_center(bounds).y as int) as usize,
        }),
        final(state).heaps == old(state).heaps,
        final(state).queue == old(state).queue,
        final(state).depth == old(state).depth,
        final(state).challenges == old(state).challenges,
        final(state).map_width == old(state).map_width,
        final(state).equipment == old(state).equipment,
        final(state).consumables == old(state).consumables,
        final(state).flame_traps == old(state).flame_traps,
        final(state).entrance_cell == old(state).entrance_cell,
{
    let b = bounds;
    let width = state.map_width;
    let ghost len = state.map@.len() as int;
    proof {
        lemma_room_small(b, width as int, len);
    }
    let cols = b.right - b.left + 1;
    let rows = b.bottom - b.top + 1;
    let cx = (b.left + b.right) / 2;
    let cy = (b.top + b.bottom) / 2;
    fill_in(&mut state.map, width, b, b.left, b.top, cols, rows, Terrain::Wall);
    fill_in(&mut state.map, width, b, b.left + 4, b.top + 1, cols - 8, rows - 2, Terrain::Empty);
    fill_in(&mut state.map, width, b, b.left + 1, b.top + 4, cols - 2, rows - 8, Terrain::Empty);
    set_in(&mut state.map, width, b, cx, cy, Terrain::Pedestal);
    proof {
        lemma_cell_fits(cx as int, cy as int, width as int, b.bottom as int, len);
    }
    state.mobs.push(VaultMob { kind: VaultMobKind::Sentry, cell: (cx + cy * width) as usize });
    make_doors_regular(doors);
}

/// A ring room's terrain: walls, and an open ring one cell in from them
/// around a solid middle.
pub open spec fn ring_terrain(map: Seq<Terrain>, width: int, b: Rect) -> Seq<Terrain> {
    let cols = rect_columns(b);
    let rows = rect_rows(b);
    let m1 = filled(map, width, b.left as int, b.top as int, cols, rows, Terrain::Wall);
    let m2 = filled(m1, width, b.left + 1, b.top + 1, cols - 2, rows - 2, Terrain::Empty);
    filled(m2, width, b.left + 4, b.top + 4, cols - 8, rows - 8, Terrain::Wall)
}

/// The corner a ring room's enemy starts its round at: a draw of two picks
/// the direction of the round, then a draw of four one of its corners.
pub open spec fn ring_corner(b: Rect, width: int, states: Seq<u64>) -> (int, Seq<u64>) {
    let way = int_bound_from(top(states), 2);
    let s1 = with_top(states, way.1);
    let pick = int_bound_from(top(s1), 4);
    let (l, r, t, u) = (b.left + 2, b.right - 2, b.top + 2, b.bottom - 2);
    let corners = if way.0 == 0 {
        seq![(l, t), (r, t), (r, u), (l, u)]
    } else {
        seq![(l, u), (r, u), (r, t), (l, t)]
    };
    let corner = corners[pick.0 as int];
    (cell_at(width, corner.0, corner.1), with_top(s1, pick.1))
}

/// `VaultRingRoom.paint`: the ring, every door regular, and the deck's
/// enemy on a corner of the ring. `enemy` is the mob the floor's mob deck
/// created for this room, and `random` the generator stack as that creation
/// left it.
pub fn paint_ring(state: &mut VaultLevelState, bounds: Rect, doors: &mut Vec<Door>, enemy: VaultMobKind, random: &mut RandomStack)
    requires
        old(random).wf(),
        room_on_map(bounds, old(state).map_width as int, old(state).map@.len() as int),
    ensures
        final(random).wf(),
        doors_made_regular(old(doors)@, final(doors)@),
        final(state).map@ == ring_terrain(old(state).map@, old(state).map_width as int, bounds),
        ({
            let (cell, after) = ring_corner(bounds, old(state).map_width as int, old(random)@);
            &&& final(random)@ == after
            &&& final(state).mobs@ == old(state).mobs@.push(VaultMob { kind: enemy, cell: cell as usize })
        }),
        final(state).heaps == old(state).heaps,
        final(state).queue == old(state).queue,
        final(state).depth == old(state).depth,
        final(state).challenges == old(state).challenges,
        final(state).map_width == old(state).map_width,
        final(state).equipment == old(state).equipment,
        final(state).consumables == old(state).consumables,
        final(state).flame_traps == old(state).flame_traps,
        final(state).entrance_cell == old(state).entrance_cell,
{
    let b = bounds;
    let width = state.map_width;
    let ghost len = state.map@.len() as int;
    proof {
        lemma_room_small(b, width as int, len);
    }
    let cols = b.right - b.left + 1;
    let rows = b.bottom - b.top + 1;
    fill_in(&mut state.map, width, b, b.left, b.top, cols, rows, Terrain::Wall);
    fill_in(&mut state.map, width, b, b.left + 1, b.top + 1, cols - 2, rows - 2, Terrain::Empty);
    fill_in(&mut state.map, width, b, b.left + 4, b.top + 4, cols - 8, rows - 8, Terrain::Wall);
    make_doors_regular(doors);
    let way = random.int_bound(2);
    let pick = random.int_bound(4);
    let (l, r, t, u) = (b.left + 2, b.right - 2, b.top + 2, b.bottom - 2);
    let (x, y): (i32, i32) = if way == 0 {
        if pick == 0 { (l, t) } else if pick == 1 { (r, t) } else if pick == 2 { (r, u) } else { (l, u) }
    } else {
        if pick == 0 { (l, u) } else if pick == 1 { (r, u) } else if pick == 2 { (r, t) } else { (l, t) }
    };
    proof {
        lemma_cell_fits(x as int, y as int, width as int, b.bottom as int, len);
    }
    state.mobs.push(VaultMob { kind: enemy, cell: (x + y * width) as usize });
}

/// An enemy-centre room's terrain: walls, an open ring, an inner wall, an
/// open middle, and four corridors joining them.
pub open spec fn enemy_center_terrain(map: Seq<Terrain>, width: int, b: Rect) -> Seq<Terrain> {
    let cols = rect_columns(b);
    let rows = rect_rows(b);
    let m1 = filled(map, width, b.left as int, b.top as int, cols, rows, Terrain::Wall);
    let m2 = filled(m1, width, b.left + 1, b.top + 1, cols - 2, rows - 2, Terrain::Empty);
    let m3 = filled(m2, width, b.left + 2, b.top + 2, cols - 4, rows - 4, Terrain::Wall);
    let m4 = filled(m3, width, b.left + 3, b.top + 3, cols - 6, rows - 6, Terrain::Empty);
    let m5 = filled(m4, width, b.left + 1, b.top + 3, cols - 2, 1, Terrain::Empty);
    let m6 = filled(m5, width, b.left + 1, b.bottom - 3, cols - 2, 1, Terrain::Empty);
    let m7 = filled(m6, width, b.left + 3, b.top + 1, 1, rows - 2, Terrain::Empty);
    filled(m7, width, b.right - 3, b.top + 1, 1, rows - 2, Terrain::Empty)
}

/// The cell diagonal to the middle that an enemy-centre room's enemy starts
/// its round at: a draw of two picks the direction, a draw of four the cell.
pub open spec fn center_corner(b: Rect, width: int, states: Seq<u64>) -> (int, Seq<u64>) {
    let c = room_center(b);
    let (x, y) = (c.x as int, c.y as int);
    let way = int_bound_from(top(states), 2);
    let s1 = with_top(states, way.1);
    let pick = int_bound_from(top(s1), 4);
    let corners = if way.0 == 0 {
        seq![(x - 1, y - 1), (x + 1, y - 1), (x + 1, y + 1), (x - 1, y + 1)]
    } else {
        seq![(x - 1, y - 1), (x - 1, y + 1), (x + 1, y + 1), (x + 1, y - 1)]
    };
    let corner = corners[pick.0 as int];
    (cell_at(width, corner.0, corner.1), with_top(s1, pick.1))
}

/// `VaultEnemyCenterRoom.paint`: the terrain, every door regular, the
/// deck's enemy beside the middle, and a chest in the middle holding
/// equipment of the enemy's treasure tier, which is returned. `enemy` is the
/// mob the floor's mob deck created for this room, `tier` its treasure
/// tier, and `random` the generator stack as that creation left it.
pub fn paint_enemy_center(
    state: &mut VaultLevelState,
    bounds: Rect,
    doors: &mut Vec<Door>,
    enemy: VaultMobKind,
    tier: usize,
    random: &mut RandomStack,
) -> (treasure: VaultEquipment)
    requires
        old(random).wf(),
        room_on_map(bounds, old(state).map_width as int, old(state).map@.len() as int),
        old(state).equipment.wf(),
        tier < TIER_COUNT,
        holds_item(old(state).equipment.slots(tier as int)),
    ensures
        final(random).wf(),
        doors_made_regular(old(doors)@, final(doors)@),
        final(state).map@ == enemy_center_terrain(old(state).map@, old(state).map_width as int, bounds),
        ({
            let (cell, after) = center_corner(bounds, old(state).map_width as int, old(random)@);
            &&& final(random)@ == after
            &&& final(state).mobs@ == old(state).mobs@.push(VaultMob { kind: enemy, cell: cell as usize })
        }),
        equipment_handed(old(state).equipment, final(state).equipment, tier, treasure),
        heaps_view(final(state).heaps@) == with_chest(
            heaps_view(old(state).heaps@),
            treasure,
            cell_at(old(state).map_width as int, room_center(bounds).x as int, room_center(bounds).y as int) as usize,
        ),
        final(state).queue == old(state).queue,
        final(state).depth == old(state).depth,
        final(state).challenges == old(state).challenges,
        final(state).map_width == old(state).map_width,
        final(state).consumables == old(state).consumables,
        final(state).flame_traps == old(state).flame_traps,
        final(state).entrance_cell == old(state).entrance_cell,
{
    let b = bounds;
    let width = state.map_width;
    let ghost len = state.map@.len() as int;
    proof {
        lemma_room_small(b, width as int, len);
    }
    let cols = b.right - b.left + 1;
    let rows = b.bottom - b.top + 1;
    fill_in(&mut state.map, width, b, b.left, b.top, cols, rows, Terrain::Wall);
    fill_in(&mut state.map, width, b, b.left + 1, b.top + 1, cols - 2, rows - 2, Terrain::Empty);
    fill_in(&mut state.map, width, b, b.left + 2, b.top + 2, cols - 4, rows - 4, Terrain::Wall);
    fill_in(&mut state.map, width, b, b.left + 3, b.top + 3, cols - 6, rows - 6, Terrain::Empty);
    fill_in(&mut state.map, width, b, b.left + 1, b.top + 3, cols - 2, 1, Terrain::Empty);
    fill_in(&mut state.map, width, b, b.left + 1, b.bottom - 3, cols - 2, 1, Terrain::Empty);
    fill_in(&mut state.map, width, b, b.left + 3, b.top + 1, 1, rows - 2, Terrain::Empty);
    fill_in(&mut state.map, width, b, b.right - 3, b.top + 1, 1, rows - 2, Terrain::Empty);
    make_doors_regular(doors);
    let cx = (b.left + b.right) / 2;
    let cy = (b.top + b.bottom) / 2;
    let way = random.int_bound(2);
    let pick = random.int_bound(4);
    let (x, y): (i32, i32) = if way == 0 {
        if pick == 0 { (cx - 1, cy - 1) } else if pick == 1 { (cx + 1, cy - 1) } else if pick == 2 { (cx + 1, cy + 1) } else { (cx - 1, cy + 1) }
    } else {
        if pick == 0 { (cx - 1, cy - 1) } else if pick == 1 { (cx - 1, cy + 1) } else if pick == 2 { (cx + 1, cy + 1) } else { (cx + 1, cy - 1) }
    };
    proof {
        lemma_cell_fits(x as int, y as int, width as int, b.bottom as int, len);
        lemma_cell_fits(cx as int, cy as int, width as int, b.bottom as int, len);
    }
    state.mobs.push(VaultMob { kind: enemy, cell: (x + y * width) as usize });
    let ghost start = *state;
    let chest = (cx + cy * width) as usize;
    let treasure = state.equipment.create_equipment(tier);
    let heap = state.drop(VaultItem::Equipment(treasure), chest);
    proof {
        let h0 = heaps_view(start.heaps@);
        assert(h0.len() == start.heaps@.len());
        assert(heaps_view(state.heaps@).len() == state.heaps@.len());
        match first_heap_on(h0, chest) {
            Some(i) => {
                assert(is_first_on(h0, chest, i));
            },
            None => {},
        }
    }
    state.set_heap_kind(heap, VaultHeapKind::Chest);
    treasure
}

/// A quadrants room's terrain: walls, an open floor, three wall cells in
/// from the middle of each side, and a statue in the middle.
pub open spec fn quadrant_terrain(map: Seq<Terrain>, width: int, b: Rect) -> Seq<Terrain> {
    let cols = rect_columns(b);
    let rows = rect_rows(b);
    let c = room_center(b);
    let (cx, cy) = (c.x as int, c.y as int);
    let m1 = filled(map, width, b.left as int, b.top as int, cols, rows, Terrain::Wall);
    let m2 = filled(m1, width, b.left + 1, b.top + 1, cols - 2, rows - 2, Terrain::Empty);
    let m3 = drawn_inside(m2, width, b.left as int, cy, 1, 0, 3, Terrain::Wall);
    let m4 = drawn_inside(m3, width, b.right as int, cy, -1, 0, 3, Terrain::Wall);
    let m5 = drawn_inside(m4, width, cx, b.top as int, 0, 1, 3, Terrain::Wall);
    let m6 = drawn_inside(m5, width, cx, b.bottom as int, 0, -1, 3, Terrain::Wall);
    set_at(m6, width, cx, cy, Terrain::Statue)
}

/// No door lies within three steps, as the crow flies, of the cell.
pub open spec fn clear_of_doors(x: int, y: int, doors: Seq<Point>) -> bool {
    forall|i: int| 0 <= i < doors.len() ==> (x - doors[i].x) * (x - doors[i].x) + (y - doors[i].y) * (y - doors[i].y) > 9
}

/// The four corners an enemy of a quadrants room may start in, clockwise
/// from the top left.
pub open spec fn quadrant_corner(b: Rect, k: int) -> Point {
    if k == 0 {
        Point { x: (b.left + 2) as i32, y: (b.top + 2) as i32 }
    } else if k == 1 {
        Point { x: (b.right - 2) as i32, y: (b.top + 2) as i32 }
    } else if k == 2 {
        Point { x: (b.right - 2) as i32, y: (b.bottom - 2) as i32 }
    } else {
        Point { x: (b.left + 2) as i32, y: (b.bottom - 2) as i32 }
    }
}

/// The corners among the first `k` that are clear of the doors, in order.
pub open spec fn open_corners(b: Rect, doors: Seq<Point>, k: int) -> Seq<Point>
    decreases k,
{
    if k <= 0 {
        Seq::empty()
    } else {
        let earlier = open_corners(b, doors, k - 1);
        let p = quadrant_corner(b, k - 1);
        if clear_of_doors(p.x as int, p.y as int, doors) {
            earlier.push(p)
        } else {
            earlier
        }
    }
}

/// Whether no door lies within three steps of the cell.
fn clear_of(x: i32, y: i32, doors: &Vec<Door>, b: Rect, width: i32, len: usize) -> (clear: bool)
    requires
        room_on_map(b, width as int, len as int),
        b.left <= x <= b.right,
        b.top <= y <= b.bottom,
        forall|i: int| 0 <= i < doors@.len() ==> door_on_edge(b, #[trigger] doors@[i].point),
    ensures
        clear == clear_of_doors(x as int, y as int, doors@.map_values(|d: Door| d.point)),
{
    let ghost points = doors@.map_values(|d: Door| d.point);
    proof {
        lemma_room_small(b, width as int, len as int);
    }
    let mut i: usize = 0;
    while i < doors.len()
        invariant
            i <= doors@.len(),
            points == doors@.map_values(|d: Door| d.point),
            room_on_map(b, width as int, len as int),
            b.right < width <= 0x1000_0000,
            b.bottom < 0x1000_0000,
            b.left <= x <= b.right,
            b.top <= y <= b.bottom,
            forall|k: int| 0 <= k < doors@.len() ==> door_on_edge(b, #[trigger] doors@[k].point),
            forall|k: int| 0 <= k < i ==> (x - points[k].x) * (x - points[k].x) + (y - points[k].y) * (y - points[k].y) > 9,
        decreases doors@.len() - i,
    {
        let d = doors[i].point;
        proof {
            assert(door_on_edge(b, doors@[i as int].point));
        }
        let dx: i64 = (x - d.x) as i64;
        let dy: i64 = (y - d.y) as i64;
        assert(-64 <= dx <= 64 && -64 <= dy <= 64);
        assert(0 <= dx * dx <= 4096 && 0 <= dy * dy <= 4096) by (nonlinear_arith)
            requires
                -64 <= dx <= 64,
                -64 <= dy <= 64,
        ;
        if dx * dx + dy * dy <= 9 {
            proof {
                assert(points[i as int] == d);
            }
            return false;
        }
        i = i + 1;
    }
    true
}

/// `VaultQuadrantsRoom.paint` up to its enemy: the terrain, every door
/// regular, and the corners clear of the doors, which the enemy may start
/// in. With no such corner the room has no enemy.
pub fn paint_quadrants(state: &mut VaultLevelState, bounds: Rect, doors: &mut Vec<Door>) -> (corners: Vec<Point>)
    requires
        room_on_map(bounds, old(state).map_width as int, old(state).map@.len() as int),
        forall|i: int| 0 <= i < old(doors)@.len() ==> door_on_edge(bounds, #[trigger] old(doors)@[i].point),
    ensures
        doors_made_regular(old(doors)@, final(doors)@),
        final(state).map@ == quadrant_terrain(old(state).map@, old(state).map_width as int, bounds),
        corners@ == open_corners(bounds, old(doors)@.map_values(|d: Door| d.point), 4),
        final(state).mobs == old(state).mobs,
        final(state).heaps == old(state).heaps,
        final(state).queue == old(state).queue,
        final(state).depth == old(state).depth,
        final(state).challenges == old(state).challenges,
        final(state).map_width == old(state).map_width,
        final(state).equipment == old(state).equipment,
        final(state).consumables == old(state).consumables,
        final(state).flame_traps == old(state).flame_traps,
        final(state).entrance_cell == old(state).entrance_cell,
{
    let b = bounds;
    let width = state.map_width;
    let len = state.map.len();
    proof {
        lemma_room_small(b, width as int, len as int);
    }
    let cols = b.right - b.left + 1;
    let rows = b.bottom - b.top + 1;
    let cx = (b.left + b.right) / 2;
    let cy = (b.top + b.bottom) / 2;
    fill_in(&mut state.map, width, b, b.left, b.top, cols, rows, Terrain::Wall);
    fill_in(&mut state.map, width, b, b.left + 1, b.top + 1, cols - 2, rows - 2, Terrain::Empty);
    draw_in(&mut state.map, width, b, Point { x: b.left, y: cy }, 3, Terrain::Wall);
    draw_in(&mut state.map, width, b, Point { x: b.right, y: cy }, 3, Terrain::Wall);
    draw_in(&mut state.map, width, b, Point { x: cx, y: b.top }, 3, Terrain::Wall);
    draw_in(&mut state.map, width, b, Point { x: cx, y: b.bottom }, 3, Terrain::Wall);
    set_in(&mut state.map, width, b, cx, cy, Terrain::Statue);
    let ghost points = old(doors)@.map_values(|d: Door| d.point);
    let mut corners: Vec<Point> = Vec::new();
    let mut k: usize = 0;
    while k < 4
        invariant
            k <= 4,
            room_on_map(b, width as int, len as int),
            b.right < width <= 0x1000_0000,
            b.bottom < 0x1000_0000,
            doors@ == old(doors)@,
            points == doors@.map_values(|d: Door| d.point),
            forall|i: int| 0 <= i < doors@.len() ==> door_on_edge(b, #[trigger] doors@[i].point),
            corners@ == open_corners(b, points, k as int),
        decreases 4 - k,
    {
        let p = if k == 0 {
            Point { x: b.left + 2, y: b.top + 2 }
        } else if k == 1 {
            Point { x: b.right - 2, y: b.top + 2 }
        } else if k == 2 {
            Point { x: b.right - 2, y: b.bottom - 2 }
        } else {
            Point { x: b.left + 2, y: b.bottom - 2 }
        };
        assert(p == quadrant_corner(b, k as int));
        if clear_of(p.x, p.y, doors, b, width, len) {
            corners.push(p);
        }
        k = k + 1;
    }
    make_doors_regular(doors);
    corners
}

/// The chest cell diagonally behind a quadrants enemy's corner, away from
/// the middle.
pub open spec fn behind_corner(width: int, b: Rect, p: Point) -> int {
    let c = room_center(b);
    cell_at(width, p.x as int, p.y as int) + (if p.x < c.x { -1int } else { 1int }) + (if p.y < c.y { -width } else { width })
}

/// Places a quadrants room's enemy on one of the open corners, drawn at
/// random, and a chest behind it holding equipment of the enemy's treasure
/// tier, which is returned. `enemy` is the mob the floor's mob deck created
/// for this room, `tier` its treasure tier, and `random` the generator stack
/// as that creation left it.
pub fn guard_quadrant(
    state: &mut VaultLevelState,
    bounds: Rect,
    corners: &Vec<Point>,
    enemy: VaultMobKind,
    tier: usize,
    random: &mut RandomStack,
) -> (treasure: VaultEquipment)
    requires
        old(random).wf(),
        room_on_map(bounds, old(state).map_width as int, old(state).map@.len() as int),
        1 <= corners@.len() <= 4,
        forall|i: int| 0 <= i < corners@.len() ==> exists|k: int| 0 <= k < 4 && #[trigger] corners@[i] == quadrant_corner(bounds, k),
        old(state).equipment.wf(),
        tier < TIER_COUNT,
        holds_item(old(state).equipment.slots(tier as int)),
    ensures
        final(random).wf(),
        ({
            let pick = int_bound_from(top(old(random)@), corners@.len() as i32);
            let corner = corners@[pick.0 as int];
            let width = old(state).map_width as int;
            &&& final(random)@ == with_top(old(random)@, pick.1)
            &&& final(state).mobs@ == old(state).mobs@.push(
                VaultMob { kind: enemy, cell: cell_at(width, corner.x as int, corner.y as int) as usize },
            )
            &&& heaps_view(final(state).heaps@) == with_chest(
                heaps_view(old(state).heaps@),
                treasure,
                behind_corner(width, bounds, corner) as usize,
            )
        }),
        equipment_handed(old(state).equipment, final(state).equipment, tier, treasure),
        final(state).map == old(state).map,
        final(state).queue == old(state).queue,
        final(state).depth == old(state).depth,
        final(state).challenges == old(state).challenges,
        final(state).map_width == old(state).map_width,
        final(state).consumables == old(state).consumables,
        final(state).flame_traps == old(state).flame_traps,
        final(state).entrance_cell == old(state).entrance_cell,
{
    let b = bounds;
    let width = state.map_width;
    let ghost len = state.map@.len() as int;
    proof {
        lemma_room_small(b, width as int, len);
    }
    let pick = random.int_bound(corners.len() as i32);
    let corner = corners[pick as usize];
    let ghost k = choose|k: int| 0 <= k < 4 && corners@[pick as int] == quadrant_corner(b, k);
    assert(b.left + 2 <= corner.x <= b.right - 2 && b.top + 2 <= corner.y <= b.bottom - 2);
    let cx = (b.left + b.right) / 2;
    let cy = (b.top + b.bottom) / 2;
    let tx = if corner.x < cx { corner.x - 1 } else { corner.x + 1 };
    let ty = if corner.y < cy { corner.y - 1 } else { corner.y + 1 };
    proof {
        lemma_cell_fits(corner.x as int, corner.y as int, width as int, b.bottom as int, len);
        lemma_cell_fits(tx as int, ty as int, width as int, b.bottom as int, len);
        assert(cell_at(width as int, tx as int, ty as int) == behind_corner(width as int, b, corner)) by (nonlinear_arith)
            requires
                tx == (if corner.x < cx { corner.x - 1 } else { corner.x + 1 }),
                ty == (if corner.y < cy { corner.y - 1 } else { corner.y + 1 }),
                cx == room_center(b).x,
                cy == room_center(b).y,
        ;
    }
    state.mobs.push(VaultMob { kind: enemy, cell: (corner.x + corner.y * width) as usize });
    let ghost start = *state;
    let chest = (tx + ty * width) as usize;
    let treasure = state.equipment.create_equipment(tier);
    let heap = state.drop(VaultItem::Equipment(treasure), chest);
    proof {
        let h0 = heaps_view(start.heaps@);
        assert(h0.len() == start.heaps@.len());
        assert(heaps_view(state.heaps@).len() == state.heaps@.len());
        match first_heap_on(h0, chest) {
            Some(i) => {
                assert(is_first_on(h0, chest, i));
            },
            None => {},
        }
    }
    state.set_heap_kind(heap, VaultHeapKind::Chest);
    treasure
}

/// Walking `n` cells in from each door, in order.
pub open spec fn doors_walked_in(map: Seq<Terrain>, width: int, b: Rect, doors: Seq<Point>, n: nat) -> Seq<Terrain>
    decreases doors.len(),
{
    if doors.len() == 0 {
        map
    } else {
        let door = doors.last();
        let (dx, dy) = inward(b, door);
        drawn_inside(doors_walked_in(map, width, b, doors.drop_last(), n), width, door.x as int, door.y as int, dx, dy, n, Terrain::Empty)
    }
}

/// A circle room's terrain: walls, an open rounded floor, and a pedestal in
/// the middle.
pub open spec fn circle_terrain(map: Seq<Terrain>, width: int, b: Rect) -> Seq<Terrain> {
    let cols = rect_columns(b);
    let rows = rect_rows(b);
    let c = room_center(b);
    let m1 = filled(map, width, b.left as int, b.top as int, cols, rows, Terrain::Wall);
    let m2 = filled(m1, width, b.left + 2, b.top + 2, cols - 4, rows - 4, Terrain::Empty);
    let m3 = filled(m2, width, b.left + 4, b.top + 1, cols - 8, rows - 2, Terrain::Empty);
    let m4 = filled(m3, width, b.left + 1, b.top + 4, cols - 2, rows - 8, Terrain::Empty);
    set_at(m4, width, c.x as int, c.y as int, Terrain::Pedestal)
}

/// `VaultCircleRoom.paint`: the rounded floor, a sentry on the middle
/// pedestal after the draw of four for its scan pattern, and every door
/// regular with a path four cells in.
pub fn paint_circle(state: &mut VaultLevelState, bounds: Rect, doors: &mut Vec<Door>, random: &mut RandomStack)
    requires
        old(random).wf(),
        room_on_map(bounds, old(state).map_width as int, old(state).map@.len() as int),
        forall|i: int| 0 <= i < old(doors)@.len() ==> door_on_edge(bounds, #[trigger] old(doors)@[i].point),
    ensures
        final(random).wf(),
        final(random)@ == with_top(old(random)@, int_bound_from(top(old(random)@), 4).1),
        doors_made_regular(old(doors)@, final(doors)@),
        final(state).map@ == doors_walked_in(
            circle_terrain(old(state).map@, old(state).map_width as int, bounds),
            old(state).map_width as int,
            bounds,
            old(doors)@.map_values(|d: Door| d.point),
            4,
        ),
        final(state).mobs@ == old(state).mobs@.push(VaultMob {
            kind: VaultMobKind::Sentry,
            cell: cell_at(old(state).map_width as int, room_center(bounds).x as int, room_center(bounds).y as int) as usize,
        }),
        final(state).heaps == old(state).heaps,
        final(state).queue == old(state).queue,
        final(state).depth == old(state).depth,
        final(state).challenges == old(state).challenges,
        final(state).map_width == old(state).map_width,
        final(state).equipment == old(state).equipment,
        final(state).consumables == old(state).consumables,
        final(state).flame_traps == old(state).flame_traps,
        final(state).entrance_cell == old(state).entrance_cell,
{
    let b = bounds;
    let width = state.map_width;
    let ghost len = state.map@.len();
    proof {
        lemma_room_small(b, width as int, len as int);
    }
    let cols = b.right - b.left + 1;
    let rows = b.bottom - b.top + 1;
    let cx = (b.left + b.right) / 2;
    let cy = (b.top + b.bottom) / 2;
    fill_in(&mut state.map, width, b, b.left, b.top, cols, rows, Terrain::Wall);
    fill_in(&mut state.map, width, b, b.left + 2, b.top + 2, cols - 4, rows - 4, Terrain::Empty);
    fill_in(&mut state.map, width, b, b.left + 4, b.top + 1, cols - 8, rows - 2, Terrain::Empty);
    fill_in(&mut state.map, width, b, b.left + 1, b.top + 4, cols - 2, rows - 8, Terrain::Empty);
    set_in(&mut state.map, width, b, cx, cy, Terrain::Pedestal);
    let _ = random.int_bound(4);
    proof {
        lemma_cell_fits(cx as int, cy as int, width as int, b.bottom as int, len as int);
    }
    state.mobs.push(VaultMob { kind: VaultMobKind::Sentry, cell: (cx + cy * width) as usize });
    let ghost terrain = state.map@;
    let ghost mid = *state;
    let ghost points = old(doors)@.map_values(|d: Door| d.point);
    let mut i: usize = 0;
    while i < doors.len()
        invariant
            i <= doors@.len(),
            doors@.len() == old(doors)@.len(),
            points == old(doors)@.map_values(|d: Door| d.point),
            forall|k: int| 0 <= k < old(doors)@.len() ==> door_on_edge(b, #[trigger] old(doors)@[k].point),
            forall|k: int| 0 <= k < i ==> #[trigger] doors@[k] == (Door { point: old(doors)@[k].point, kind: DoorType::Regular }),
            forall|k: int| i <= k < doors@.len() ==> #[trigger] doors@[k] == old(doors)@[k],
            width == state.map_width,
            state.map@.len() == len,
            room_on_map(b, width as int, len as int),
            state.map@ == doors_walked_in(terrain, width as int, b, points.take(i as int), 4),
            state.heaps == mid.heaps,
            state.mobs == mid.mobs,
            state.queue == mid.queue,
            state.depth == mid.depth,
            state.challenges == mid.challenges,
            state.map_width == mid.map_width,
            state.equipment == mid.equipment,
            state.consumables == mid.consumables,
            state.flame_traps == mid.flame_traps,
            state.entrance_cell == mid.entrance_cell,
        decreases doors@.len() - i,
    {
        let door = doors[i];
        doors.set(i, Door { point: door.point, kind: DoorType::Regular });
        draw_in(&mut state.map, width, b, door.point, 4, Terrain::Empty);
        proof {
            assert(points.take(i + 1).drop_last() =~= points.take(i as int));
            assert(points.take(i + 1).last() == door.point);
        }
        i = i + 1;
    }
    proof {
        assert(points.take(doors@.len() as int) =~= points);
    }
}

/// One laser spot of a laser room, given the two cells facing each other
/// across it: when both are still wall, a coin picks one, it becomes a
/// pedestal with a laser, and the laser's timing takes two more draws (the
/// shot delay from three to seven, then the first shot from one to it).
pub open spec fn laser_spot(
    map: Seq<Terrain>,
    mobs: Seq<VaultMob>,
    states: Seq<u64>,
    first: int,
    second: int,
) -> (Seq<Terrain>, Seq<VaultMob>, Seq<u64>) {
    if map[first] == Terrain::Wall && map[second] == Terrain::Wall {
        let coin = int_bound_from(top(states), 2);
        let s1 = with_top(states, coin.1);
        let cell = if coin.0 == 0 { first } else { second };
        let delay = int_bound_from(top(s1), 5);
        let s2 = with_top(s1, delay.1);
        let shot = int_bound_from(top(s2), (3 + delay.0) as i32);
        (map.update(cell, Terrain::Pedestal), mobs.push(VaultMob { kind: VaultMobKind::Laser, cell: cell as usize }), with_top(s2, shot.1))
    } else {
        (map, mobs, states)
    }
}

/// The laser spots of the first `n` columns from `left + 2` on, top row
/// against bottom row, in order.
pub open spec fn laser_columns(
    map: Seq<Terrain>,
    mobs: Seq<VaultMob>,
    states: Seq<u64>,
    width: int,
    b: Rect,
    n: nat,
) -> (Seq<Terrain>, Seq<VaultMob>, Seq<u64>)
    decreases n,
{
    if n == 0 {
        (map, mobs, states)
    } else {
        let (m, l, s) = laser_columns(map, mobs, states, width, b, (n - 1) as nat);
        let x = b.left + 2 + (n - 1);
        laser_spot(m, l, s, cell_at(width, x, b.top + 1), cell_at(width, x, b.bottom - 1))
    }
}

/// The laser spots of the first `n` rows from `top + 2` on, left column
/// against right column, in order.
pub open spec fn laser_rows(
    map: Seq<Terrain>,
    mobs: Seq<VaultMob>,
    states: Seq<u64>,
    width: int,
    b: Rect,
    n: nat,
) -> (Seq<Terrain>, Seq<VaultMob>, Seq<u64>)
    decreases n,
{
    if n == 0 {
        (map, mobs, states)
    } else {
        let (m, l, s) = laser_rows(map, mobs, states, width, b, (n - 1) as nat);
        let y = b.top + 2 + (n - 1);
        laser_spot(m, l, s, cell_at(width, b.left + 1, y), cell_at(width, b.right - 1, y))
    }
}

/// Places one laser spot.
fn place_laser_spot(state: &mut VaultLevelState, first: usize, second: usize, random: &mut RandomStack)
    requires
        old(random).wf(),
        first < old(state).map@.len(),
        second < old(state).map@.len(),
    ensures
        final(random).wf(),
        (final(state).map@, final(state).mobs@, final(random)@) == laser_spot(
            old(state).map@,
            old(state).mobs@,
            old(random)@,
            first as int,
            second as int,
        ),
        final(state).map@.len() == old(state).map@.len(),
        final(state).heaps == old(state).heaps,
        final(state).queue == old(state).queue,
        final(state).depth == old(state).depth,
        final(state).challenges == old(state).challenges,
        final(state).map_width == old(state).map_width,
        final(state).equipment == old(state).equipment,
        final(state).consumables == old(state).consumables,
        final(state).flame_traps == old(state).flame_traps,
        final(state).entrance_cell == old(state).entrance_cell,
{
    if state.map[first] == Terrain::Wall && state.map[second] == Terrain::Wall {
        let coin = random.int_bound(2);
        let cell = if coin == 0 { first } else { second };
        state.map.set(cell, Terrain::Pedestal);
        let delay = random.int_range(3, 7);
        let _ = random.int_range(1, delay);
        state.mobs.push(VaultMob { kind: VaultMobKind::Laser, cell });
    }
}

/// `VaultLasersRoom.paint`: walls around an open floor, a path two cells in
/// from each door, which becomes regular, then a laser on each column and
/// each row whose two facing wall cells are still wall.
#[verifier::rlimit(40)]
pub fn paint_lasers(state: &mut VaultLevelState, bounds: Rect, doors: &mut Vec<Door>, random: &mut RandomStack)
    requires
        old(random).wf(),
        room_on_map(bounds, old(state).map_width as int, old(state).map@.len() as int),
        forall|i: int| 0 <= i < old(doors)@.len() ==> door_on_edge(bounds, #[trigger] old(doors)@[i].point),
    ensures
        final(random).wf(),
        doors_made_regular(old(doors)@, final(doors)@),
        ({
            let width = old(state).map_width as int;
            let cols = rect_columns(bounds);
            let rows = rect_rows(bounds);
            let m1 = filled(old(state).map@, width, bounds.left as int, bounds.top as int, cols, rows, Terrain::Wall);
            let m2 = filled(m1, width, bounds.left + 2, bounds.top + 2, cols - 4, rows - 4, Terrain::Empty);
            let walked = doors_walked_in(m2, width, bounds, old(doors)@.map_values(|d: Door| d.point), 2);
            let (m3, l3, s3) = laser_columns(walked, old(state).mobs@, old(random)@, width, bounds, (cols - 4) as nat);
            let (m4, l4, s4) = laser_rows(m3, l3, s3, width, bounds, (rows - 4) as nat);
            &&& final(state).map@ == m4
            &&& final(state).mobs@ == l4
            &&& final(random)@ == s4
        }),
        final(state).heaps == old(state).heaps,
        final(state).queue == old(state).queue,
        final(state).depth == old(state).depth,
        final(state).challenges == old(state).challenges,
        final(state).map_width == old(state).map_width,
        final(state).equipment == old(state).equipment,
        final(state).consumables == old(state).consumables,
        final(state).flame_traps == old(state).flame_traps,
        final(state).entrance_cell == old(state).entrance_cell,
{
    let b = bounds;
    let width = state.map_width;
    let ghost len = state.map@.len();
    proof {
        lemma_room_small(b, width as int, len as int);
    }
    let cols = b.right - b.left + 1;
    let rows = b.bottom - b.top + 1;
    fill_in(&mut state.map, width, b, b.left, b.top, cols, rows, Terrain::Wall);
    fill_in(&mut state.map, width, b, b.left + 2, b.top + 2, cols - 4, rows - 4, Terrain::Empty);
    let ghost opened = state.map@;
    let ghost start = *state;
    let ghost points = old(doors)@.map_values(|d: Door| d.point);
    let mut i: usize = 0;
    while i < doors.len()
        invariant
            i <= doors@.len(),
            doors@.len() == old(doors)@.len(),
            points == old(doors)@.map_values(|d: Door| d.point),
            forall|k: int| 0 <= k < old(doors)@.len() ==> door_on_edge(b, #[trigger] old(doors)@[k].point),
            forall|k: int| 0 <= k < i ==> #[trigger] doors@[k] == (Door { point: old(doors)@[k].point, kind: DoorType::Regular }),
            forall|k: int| i <= k < doors@.len() ==> #[trigger] doors@[k] == old(doors)@[k],
            width == state.map_width,
            state.map@.len() == len,
            room_on_map(b, width as int, len as int),
            state.map@ == doors_walked_in(opened, width as int, b, points.take(i as int), 2),
            state.heaps == start.heaps,
            state.mobs == start.mobs,
            state.queue == start.queue,
            state.depth == start.depth,
            state.challenges == start.challenges,
            state.map_width == start.map_width,
            state.equipment == start.equipment,
            state.consumables == start.consumables,
            state.flame_traps == start.flame_traps,
            state.entrance_cell == start.entrance_cell,
        decreases doors@.len() - i,
    {
        let door = doors[i];
        draw_in(&mut state.map, width, b, door.point, 2, Terrain::Empty);
        doors.set(i, Door { point: door.point, kind: DoorType::Regular });
        proof {
            assert(points.take(i + 1).drop_last() =~= points.take(i as int));
            assert(points.take(i + 1).last() == door.point);
        }
        i = i + 1;
    }
    proof {
        assert(points.take(doors@.len() as int) =~= points);
    }
    let ghost walked = state.map@;
    let ghost mobs0 = state.mobs@;
    let ghost states0 = random@;
    let mut x: i32 = b.left + 2;
    while x <= b.right - 2
        invariant
            b.left + 2 <= x <= b.right - 1,
            room_on_map(b, width as int, len as int),
            b.right < width <= 0x1000_0000,
            b.bottom < 0x1000_0000,
            width == state.map_width,
            state.map@.len() == len,
            random.wf(),
            (state.map@, state.mobs@, random@) == laser_columns(walked, mobs0, states0, width as int, b, (x - b.left - 2) as nat),
            state.heaps == start.heaps,
            state.queue == start.queue,
            state.depth == start.depth,
            state.challenges == start.challenges,
            state.map_width == start.map_width,
            state.equipment == start.equipment,
            state.consumables == start.consumables,
            state.flame_traps == start.flame_traps,
            state.entrance_cell == start.entrance_cell,
        decreases b.right - x,
    {
        proof {
            lemma_cell_fits(x as int, b.top + 1, width as int, b.bottom as int, len as int);
            lemma_cell_fits(x as int, b.bottom - 1, width as int, b.bottom as int, len as int);
        }
        let first = (x + (b.top + 1) * width) as usize;
        let second = (x + (b.bottom - 1) * width) as usize;
        place_laser_spot(state, first, second, random);
        x = x + 1;
    }
    let ghost columns_done = (state.map@, state.mobs@, random@);
    let mut y: i32 = b.top + 2;
    while y <= b.bottom - 2
        invariant
            b.top + 2 <= y <= b.bottom - 1,
            room_on_map(b, width as int, len as int),
            b.right < width <= 0x1000_0000,
            b.bottom < 0x1000_0000,
            width == state.map_width,
            state.map@.len() == len,
            random.wf(),
            (state.map@, state.mobs@, random@) == laser_rows(
                columns_done.0,
                columns_done.1,
                columns_done.2,
                width as int,
                b,
                (y - b.top - 2) as nat,
            ),
            state.heaps == start.heaps,
            state.queue == start.queue,
            state.depth == start.depth,
            state.challenges == start.challenges,
            state.map_width == start.map_width,
            state.equipment == start.equipment,
            state.consumables == start.consumables,
            state.flame_traps == start.flame_traps,
            state.entrance_cell == start.entrance_cell,
        decreases b.bottom - y,
    {
        proof {
            lemma_cell_fits(b.left + 1, y as int, width as int, b.bottom as int, len as int);
            lemma_cell_fits(b.right - 1, y as int, width as int, b.bottom as int, len as int);
        }
        let first = (b.left + 1 + y * width) as usize;
        let second = (b.right - 1 + y * width) as usize;
        place_laser_spot(state, first, second, random);
        y = y + 1;
    }
}

} // verus!
