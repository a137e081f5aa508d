//! Painting secret rooms: the runestone room, whose stones come from the
//! item generator between the room's own draws.

use vstd::prelude::*;

use crate::rng::{int_bound_from, top, with_top, RandomStack};
use crate::vault_floor::Terrain;
use crate::vault_paint::{
    cell_at, fill_in, filled, lemma_cell_fits, lemma_room_small, rect_columns, rect_rows, room_on_map, DoorType,
    Point, Rect, SEARCH_FUEL,
};

verus! {

/// An item a secret room drops or adds to the level's spawn list.
#[derive(Clone, Copy, Debug, PartialEq, Eq)]
pub enum SecretItem<G> {
    /// An item the item generator rolled.
    Generated(G),
    LiquidFlamePotion,
    EnchantmentStone,
}

/// The level as a secret room's painter sees it.
pub struct SecretRoomState<G> {
    pub map: Vec<Terrain>,
    /// Width of the map, in cells.
    pub map_width: i32,
    /// Every heap dropped so far, by cell, in drop order.
    pub heaps: Vec<(usize, SecretItem<G>)>,
    /// Items added to the level's spawn list, in order.
    pub spawned: Vec<SecretItem<G>>,
    /// The type of the door the room is entered by.
    pub entrance_door: DoorType,
}

/// Why a secret room could not be painted.
#[derive(Clone, Copy, Debug, PartialEq, Eq, Structural)]
pub enum SecretPaintError {
    /// No cell of the kind wanted turned up: the generator would search
    /// forever.
    NoDropCell,
}

/// `Room.center()`: the middle cell, moved right (or down) by a draw of two
/// when the room's span that way is even; and the generator stack after.
pub open spec fn jittered_center(b: Rect, states: Seq<u64>) -> ((int, int), Seq<u64>) {
    let x_draw = int_bound_from(top(states), 2);
    let x_odd = (b.right - b.left) % 2 == 1;
    let s1 = if x_odd { with_top(states, x_draw.1) } else { states };
    let y_draw = int_bound_from(top(s1), 2);
    let y_odd = (b.bottom - b.top) % 2 == 1;
    let s2 = if y_odd { with_top(s1, y_draw.1) } else { s1 };
    (
        (
            (b.left + b.right) / 2 + if x_odd { x_draw.0 as int } else { 0 },
            (b.top + b.bottom) / 2 + if y_odd { y_draw.0 as int } else { 0 },
        ),
        s2,
    )
}

/// The runestone room's terrain: walls, an open floor, a line of
/// bookshelves through the centre across the entrance's way, and special
/// floor on the far side.
pub open spec fn runestone_terrain(map: Seq<Terrain>, width: int, b: Rect, entrance: Point, c: (int, int)) -> Seq<Terrain> {
    let cols = rect_columns(b);
    let rows = rect_rows(b);
    let m1 = filled(map, width, b.left as int, b.top as int, cols, rows, Terrain::Wall);
    let m2 = filled(m1, width, b.left + 1, b.top + 1, cols - 2, rows - 2, Terrain::Empty);
    if entrance.x == b.left || entrance.x == b.right {
        let m3 = filled(m2, width, c.0, b.top + 1, 1, rows - 2, Terrain::Bookshelf);
        if entrance.x == b.left {
            filled(m3, width, c.0 + 1, b.top + 1, b.right - c.0 - 1, rows - 2, Terrain::EmptySp)
        } else {
            filled(m3, width, b.left + 1, b.top + 1, c.0 - b.left - 1, rows - 2, Terrain::EmptySp)
        }
    } else {
        let m3 = filled(m2, width, b.left + 1, c.1, cols - 2, 1, Terrain::Bookshelf);
        if entrance.y == b.top {
            filled(m3, width, b.left + 1, c.1 + 1, cols - 2, b.bottom - c.1 - 1, Terrain::EmptySp)
        } else {
            filled(m3, width, b.left + 1, b.top + 1, cols - 2, c.1 - b.top - 1, Terrain::EmptySp)
        }
    }
}

/// `Room.random(1)` as a cell: a column, then a row, each drawn inside the
/// room's walls; and the generator state after.
pub open spec fn room_point_draw(b: Rect, width: int, state: u64) -> (int, u64) {
    let dx = int_bound_from(state, (b.right - b.left - 1) as i32);
    let dy = int_bound_from(dx.1, (b.bottom - b.top - 1) as i32);
    (cell_at(width, b.left + 1 + dx.0, b.top + 1 + dy.0), dy.1)
}

/// Some heap lies on the cell.
pub open spec fn has_heap<G>(heaps: Seq<(usize, SecretItem<G>)>, cell: int) -> bool {
    exists|i: int| 0 <= i < heaps.len() && heaps[i].0 == cell
}

/// A drop cell of the kind wanted: terrain `want`, and no heap on it when
/// `avoid` is set.
pub open spec fn acceptable<G>(map: Seq<Terrain>, heaps: Seq<(usize, SecretItem<G>)>, want: Terrain, avoid: bool, cell: int) -> bool {
    &&& map[cell] == want
    &&& !(avoid && has_heap(heaps, cell))
}

/// Draws room points until an acceptable cell turns up: the cell and the
/// state after it, or nothing once `fuel` draws found none.
pub open spec fn point_search<G>(
    map: Seq<Terrain>,
    heaps: Seq<(usize, SecretItem<G>)>,
    want: Terrain,
    avoid: bool,
    b: Rect,
    width: int,
    state: u64,
    fuel: nat,
) -> Option<(int, u64)>
    decreases fuel,
{
    if fuel == 0 {
        None
    } else {
        let (cell, next) = room_point_draw(b, width, state);
        if acceptable(map, heaps, want, avoid, cell) {
            Some((cell, next))
        } else {
            point_search(map, heaps, want, avoid, b, width, next, (fuel - 1) as nat)
        }
    }
}

impl<G> SecretRoomState<G> {
    /// Whether some heap lies on the cell.
    pub fn has_heap_on(&self, cell: usize) -> (found: bool)
        ensures
            found == has_heap(self.heaps@, cell as int),
    {
        let mut i: usize = 0;
        while i < self.heaps.len()
            invariant
                i <= self.heaps@.len(),
                forall|k: int| 0 <= k < i ==> self.heaps@[k].0 != cell,
            decreases self.heaps@.len() - i,
        {
            if self.heaps[i].0 == cell {
                return true;
            }
            i = i + 1;
        }
        false
    }
}

/// Draws room points until one is an acceptable drop cell.
fn search_cell<G>(state: &SecretRoomState<G>, b: Rect, want: Terrain, avoid: bool, random: &mut RandomStack) -> (cell: Option<usize>)
    requires
        old(random).wf(),
        room_on_map(b, state.map_width as int, state.map@.len() as int),
    ensures
        final(random).wf(),
        match point_search(state.map@, state.heaps@, want, avoid, b, state.map_width as int, top(old(random)@), SEARCH_FUEL as nat) {
            Some((found, next)) => cell == Some(found as usize) && found >= 0 && final(random)@ == with_top(old(random)@, next),
            None => cell is None,
        },
{
    let width = state.map_width;
    let ghost len = state.map@.len() as int;
    proof {
        lemma_room_small(b, width as int, len);
        random.lemma_wf_view();
        assert(random@ =~= with_top(old(random)@, top(random@)));
    }
    let mut fuel: u64 = SEARCH_FUEL;
    while fuel > 0
        invariant
            random.wf(),
            old(random)@.len() >= 1,
            random@.len() == old(random)@.len(),
            room_on_map(b, width as int, len),
            len == state.map@.len(),
            width == state.map_width,
            b.right < width <= 0x1000_0000,
            b.bottom < 0x1000_0000,
            random@ == with_top(old(random)@, top(random@)),
            point_search(state.map@, state.heaps@, want, avoid, b, width as int, top(random@), fuel as nat) == point_search(
                state.map@,
                state.heaps@,
                want,
                avoid,
                b,
                width as int,
                top(old(random)@),
                SEARCH_FUEL as nat,
            ),
        decreases fuel,
    {
        let ghost before = random@;
        let dx = random.int_bound(b.right - b.left - 1);
        let dy = random.int_bound(b.bottom - b.top - 1);
        proof {
            random.lemma_wf_view();
            assert(with_top(with_top(before, int_bound_from(top(before), (b.right - b.left - 1) as i32).1), top(random@)) =~= with_top(before, top(random@)));
            lemma_cell_fits(b.left + 1 + dx, b.top + 1 + dy, width as int, b.bottom as int, len);
        }
        let x = b.left + 1 + dx;
        let y = b.top + 1 + dy;
        let cell = (x + y * width) as usize;
        assert(room_point_draw(b, width as int, top(before)) == (cell as int, top(random@)));
        let fits = state.map[cell] == want;
        let ok = if fits {
            if avoid {
                !state.has_heap_on(cell)
            } else {
                true
            }
        } else {
            false
        };
        if ok {
            return Some(cell);
        }
        fuel = fuel - 1;
    }
    None
}

/// A runestone room between the item generator's rolls: the cell the next
/// generated stone goes to, and how many stones lie in the room already.
#[derive(Clone, Copy, Debug, PartialEq, Eq, Structural)]
pub struct RunestonePaint {
    pub bounds: Rect,
    pub cell: usize,
    pub stones: u8,
}

/// What starting a runestone room does: the centre drawn, the terrain, a
/// potion of liquid flame added to the spawn list, and the first stone's
/// cell searched for among the open floor.
pub open spec fn runestone_begun<G>(
    before: SecretRoomState<G>,
    after: SecretRoomState<G>,
    b: Rect,
    entrance: Point,
    states: Seq<u64>,
    states_after: Seq<u64>,
    result: Result<RunestonePaint, SecretPaintError>,
) -> bool {
    let width = before.map_width as int;
    let (c, centred) = jittered_center(b, states);
    let map = runestone_terrain(before.map@, width, b, entrance, c);
    &&& after.map@ == map
    &&& after.spawned@ == before.spawned@.push(SecretItem::LiquidFlamePotion)
    &&& after.heaps@ == before.heaps@
    &&& after.map_width == before.map_width
    &&& after.entrance_door == before.entrance_door
    &&& match point_search(map, before.heaps@, Terrain::Empty, false, b, width, top(centred), SEARCH_FUEL as nat) {
        Some((cell, next)) => result == Ok::<RunestonePaint, SecretPaintError>(RunestonePaint { bounds: b, cell: cell as usize, stones: 0 })
            && states_after == with_top(centred, next),
        None => result == Err::<RunestonePaint, SecretPaintError>(SecretPaintError::NoDropCell),
    }
}

/// What handing in a generated stone does: it is dropped on the waiting
/// cell; after the first, the second's cell is searched for among the open
/// floor without heaps; after the second, a stone of enchantment is dropped
/// on special floor and the door is hidden.
pub open spec fn stone_offered<G>(
    paint: RunestonePaint,
    paint_after: RunestonePaint,
    before: SecretRoomState<G>,
    after: SecretRoomState<G>,
    stone: G,
    states: Seq<u64>,
    states_after: Seq<u64>,
    result: Result<bool, SecretPaintError>,
) -> bool {
    let width = before.map_width as int;
    let heaps = before.heaps@.push((paint.cell, SecretItem::Generated(stone)));
    &&& after.map@ == before.map@
    &&& after.map_width == before.map_width
    &&& after.spawned@ == before.spawned@
    &&& if paint.stones == 0 {
        &&& after.heaps@ == heaps
        &&& after.entrance_door == before.entrance_door
        &&& match point_search(before.map@, heaps, Terrain::Empty, true, paint.bounds, width, top(states), SEARCH_FUEL as nat) {
            Some((cell, next)) => result == Ok::<bool, SecretPaintError>(false)
                && paint_after == RunestonePaint { bounds: paint.bounds, cell: cell as usize, stones: 1 }
                && states_after == with_top(states, next),
            None => result == Err::<bool, SecretPaintError>(SecretPaintError::NoDropCell),
        }
    } else {
        match point_search(before.map@, heaps, Terrain::EmptySp, false, paint.bounds, width, top(states), SEARCH_FUEL as nat) {
            Some((cell, next)) => result == Ok::<bool, SecretPaintError>(true)
                && after.heaps@ == heaps.push((cell as usize, SecretItem::EnchantmentStone))
                && after.entrance_door == DoorType::Hidden
                && states_after == with_top(states, next),
            None => result == Err::<bool, SecretPaintError>(SecretPaintError::NoDropCell) && after.heaps@ == heaps,
        }
    }
}

/// Paints the runestone room's terrain around the drawn centre.
fn paint_runestone_terrain(map: &mut Vec<Terrain>, width: i32, b: Rect, entrance: Point, cx: i32, cy: i32)
    requires
        room_on_map(b, width as int, old(map)@.len() as int),
        b.left < cx < b.right,
        b.top < cy < b.bottom,
    ensures
        final(map)@ == runestone_terrain(old(map)@, width as int, b, entrance, (cx as int, cy as int)),
        final(map)@.len() == old(map)@.len(),
{
    proof {
        lemma_room_small(b, width as int, map@.len() as int);
    }
    let cols = b.right - b.left + 1;
    let rows = b.bottom - b.top + 1;
    fill_in(map, width, b, b.left, b.top, cols, rows, Terrain::Wall);
    fill_in(map, width, b, b.left + 1, b.top + 1, cols - 2, rows - 2, Terrain::Empty);
    if entrance.x == b.left || entrance.x == b.right {
        fill_in(map, width, b, cx, b.top + 1, 1, rows - 2, Terrain::Bookshelf);
        if entrance.x == b.left {
            fill_in(map, width, b, cx + 1, b.top + 1, b.right - cx - 1, rows - 2, Terrain::EmptySp);
        } else {
            fill_in(map, width, b, b.left + 1, b.top + 1, cx - b.left - 1, rows - 2, Terrain::EmptySp);
        }
    } else {
        fill_in(map, width, b, b.left + 1, cy, cols - 2, 1, Terrain::Bookshelf);
        if entrance.y == b.top {
            fill_in(map, width, b, b.left + 1, cy + 1, cols - 2, b.bottom - cy - 1, Terrain::EmptySp);
        } else {
            fill_in(map, width, b, b.left + 1, b.top + 1, cols - 2, cy - b.top - 1, Terrain::EmptySp);
        }
    }
}

/// `RunestoneRoom.paint` up to the first stone the item generator rolls:
/// the terrain around the drawn centre, a potion of liquid flame added to
/// the spawn list, and the first stone's cell.
pub fn paint_runestone<G>(
    state: &mut SecretRoomState<G>,
    bounds: Rect,
    entrance: Point,
    random: &mut RandomStack,
) -> (result: Result<RunestonePaint, SecretPaintError>)
    requires
        old(random).wf(),
        room_on_map(bounds, old(state).map_width as int, old(state).map@.len() as int),
    ensures
        final(random).wf(),
        runestone_begun(*old(state), *final(state), bounds, entrance, old(random)@, final(random)@, result),
{
    let b = bounds;
    proof {
        lemma_room_small(b, state.map_width as int, state.map@.len() as int);
    }
    let ghost start = random@;
    let x_jitter = if (b.right - b.left) % 2 == 1 { random.int_bound(2) } else { 0 };
    let y_jitter = if (b.bottom - b.top) % 2 == 1 { random.int_bound(2) } else { 0 };
    let cx = (b.left + b.right) / 2 + x_jitter;
    let cy = (b.top + b.bottom) / 2 + y_jitter;
    assert(jittered_center(b, start) == ((cx as int, cy as int), random@));
    let width = state.map_width;
    paint_runestone_terrain(&mut state.map, width, b, entrance, cx, cy);
    state.spawned.push(SecretItem::LiquidFlamePotion);
    match search_cell(state, b, Terrain::Empty, false, random) {
        Some(cell) => Ok(RunestonePaint { bounds: b, cell, stones: 0 }),
        None => Err(SecretPaintError::NoDropCell),
    }
}

impl RunestonePaint {
    /// Hands in the stone the item generator rolled for the waiting cell.
    /// Returns whether the room is finished.
    pub fn offer_stone<G>(&mut self, state: &mut SecretRoomState<G>, stone: G, random: &mut RandomStack) -> (result: Result<bool, SecretPaintError>)
        requires
            old(random).wf(),
            room_on_map(old(self).bounds, old(state).map_width as int, old(state).map@.len() as int),
        ensures
            final(random).wf(),
            final(self).bounds == old(self).bounds,
            stone_offered(*old(self), *final(self), *old(state), *final(state), stone, old(random)@, final(random)@, result),
    {
        state.heaps.push((self.cell, SecretItem::Generated(stone)));
        if self.stones == 0 {
            match search_cell(state, self.bounds, Terrain::Empty, true, random) {
                Some(cell) => {
                    self.cell = cell;
                    self.stones = 1;
                    Ok(false)
                },
                None => Err(SecretPaintError::NoDropCell),
            }
        } else {
            match search_cell(state, self.bounds, Terrain::EmptySp, false, random) {
                Some(cell) => {
                    state.heaps.push((cell, SecretItem::EnchantmentStone));
                    state.entrance_door = DoorType::Hidden;
                    Ok(true)
                },
                None => Err(SecretPaintError::NoDropCell),
            }
        }
    }
}

} // verus!
