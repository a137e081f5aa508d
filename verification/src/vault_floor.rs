//! The Imp's vault floor as its room painters see it: the heaps that items
//! are dropped onto, in the game's order, and the cell arithmetic of its map.

use vstd::prelude::*;

use crate::model::Challenges;
use crate::rng::java_rem;
use crate::text::{chars_of, decimal_text, string_of, unsigned_digits};
use crate::vault_loot::{VaultConsumables, VaultEquipmentLoot, VaultItem, VaultSpawnQueue};

verus! {

/// The `Heap.Type` values the vault produces.
#[derive(Clone, Copy, Debug, PartialEq, Eq, Structural, Hash)]
pub enum VaultHeapKind {
    Heap,
    Chest,
}

/// The terrain of a vault map cell, as the room painters write it.
#[derive(Clone, Copy, Debug, PartialEq, Eq, Structural, Hash)]
pub enum Terrain {
    Wall,
    Empty,
    /// Special floor: the treasure areas.
    EmptySp,
    Pedestal,
    Statue,
    /// A flame trap not yet triggered.
    InactiveTrap,
    /// The region's decoration, on the entrance room's inner corners.
    RegionDeco,
    /// Decorated floor: the entrance room's cross.
    CustomDecoEmpty,
    Bookshelf,
}

/// The vault's sentinels and guards, as the painters place them.
#[derive(Clone, Copy, Debug, PartialEq, Eq, Structural, Hash)]
pub enum VaultMobKind {
    Sentry,
    Laser,
    Mirror,
    TokenDoor,
    /// An enemy drawn from the floor's mob deck, by its class number.
    Enemy(u32),
}

/// A placed mob and its cell.
#[derive(Clone, Copy, Debug, PartialEq, Eq, Structural, Hash)]
pub struct VaultMob {
    pub kind: VaultMobKind,
    pub cell: usize,
}

/// One heap, with its items newest first, as Java's `LinkedList` keeps them.
#[derive(Clone, Debug, PartialEq, Eq)]
pub struct VaultHeap {
    pub cell: usize,
    pub kind: VaultHeapKind,
    pub items: Vec<VaultItem>,
}

/// Why the vault could not be generated.
#[derive(Clone, Copy, Debug, PartialEq, Eq, Structural)]
pub enum VaultError {
    /// The Imp only appears on City depths 17 through 19.
    InvalidDepth(u8),
    /// No legal door point was found for the edge between two rooms.
    NoDoorCandidate { room: usize, neighbour: usize },
    /// The random drop-cell search exhausted its hundred attempts.
    NoDropCell,
}

/// The explanation shown for each vault failure.
pub open spec fn vault_error_text(error: VaultError) -> Seq<char> {
    match error {
        VaultError::InvalidDepth(depth) => "the Imp's vault depth must be 17..=19, got "@
            + decimal_text(depth as int),
        VaultError::NoDoorCandidate { room, neighbour } => "vault rooms "@ + decimal_text(room as int)
            + " and "@ + decimal_text(neighbour as int) + " have no valid door point"@,
        VaultError::NoDropCell => "vault item placement found no drop cell"@,
    }
}

impl VaultError {
    /// The user-facing explanation of the failure.
    pub fn message(self) -> (text: String)
        ensures
            text@ == vault_error_text(self),
    {
        match self {
            VaultError::InvalidDepth(depth) => {
                let mut chars = chars_of("the Imp's vault depth must be 17..=19, got ");
                let mut digits = unsigned_digits(depth as u64);
                chars.append(&mut digits);
                string_of(&chars)
            },
            VaultError::NoDoorCandidate { room, neighbour } => {
                let mut chars = chars_of("vault rooms ");
                let mut first = unsigned_digits(room as u64);
                chars.append(&mut first);
                let mut middle = chars_of(" and ");
                chars.append(&mut middle);
                let mut second = unsigned_digits(neighbour as u64);
                chars.append(&mut second);
                let mut tail = chars_of(" have no valid door point");
                chars.append(&mut tail);
                string_of(&chars)
            },
            VaultError::NoDropCell => String::from_str("vault item placement found no drop cell"),
        }
    }
}

/// A heap as a value: its cell, its kind and its items.
pub open spec fn heap_view(heap: VaultHeap) -> (usize, VaultHeapKind, Seq<VaultItem>) {
    (heap.cell, heap.kind, heap.items@)
}

/// The heaps of a floor, in the order they were created.
pub open spec fn heaps_view(heaps: Seq<VaultHeap>) -> Seq<(usize, VaultHeapKind, Seq<VaultItem>)> {
    heaps.map_values(|heap: VaultHeap| heap_view(heap))
}

/// The first heap on `cell`, if there is one.
pub open spec fn first_heap_on(heaps: Seq<(usize, VaultHeapKind, Seq<VaultItem>)>, cell: usize) -> Option<
    int,
> {
    if exists|i: int| #[trigger] is_first_on(heaps, cell, i) {
        Some(choose|i: int| #[trigger] is_first_on(heaps, cell, i))
    } else {
        None
    }
}

/// Heap `i` lies on `cell` and no earlier heap does.
pub open spec fn is_first_on(heaps: Seq<(usize, VaultHeapKind, Seq<VaultItem>)>, cell: usize, i: int) -> bool {
    &&& 0 <= i < heaps.len()
    &&& heaps[i].0 == cell
    &&& forall|j: int| 0 <= j < i ==> heaps[j].0 != cell
}

/// Everything but `item`.
pub open spec fn other_than(item: VaultItem) -> spec_fn(VaultItem) -> bool {
    |existing: VaultItem| existing != item
}

/// Items that merge with an equal item already on the heap.
pub open spec fn stackable(item: VaultItem) -> bool {
    match item {
        VaultItem::Dart => true,
        VaultItem::Consumable(_) => true,
        VaultItem::ShuffledConsumable { .. } => true,
        VaultItem::Food(_) => true,
        VaultItem::DwarfToken => true,
        VaultItem::Torch => true,
        _ => false,
    }
}

/// The items of a heap after `Heap.drop`: the new item goes to the front, and
/// a stackable item absorbs the equal items that were already there.
pub open spec fn dropped_onto(items: Seq<VaultItem>, item: VaultItem) -> Seq<VaultItem> {
    if stackable(item) {
        seq![item] + items.filter(other_than(item))
    } else {
        seq![item] + items
    }
}

/// The heaps after dropping `item` on `cell`: onto the first heap there, or
/// as a new plain heap at the end.
pub open spec fn heaps_after_drop(
    heaps: Seq<(usize, VaultHeapKind, Seq<VaultItem>)>,
    item: VaultItem,
    cell: usize,
) -> Seq<(usize, VaultHeapKind, Seq<VaultItem>)> {
    match first_heap_on(heaps, cell) {
        Some(i) => heaps.update(i, (heaps[i].0, heaps[i].1, dropped_onto(heaps[i].2, item))),
        None => heaps.push((cell, VaultHeapKind::Heap, seq![item])),
    }
}

/// The mutable vault-floor state that room painting reads and writes: the
/// loot decks, the spawn queue, and the heaps and traps placed so far.
pub struct VaultLevelState {
    pub depth: u32,
    pub challenges: Challenges,
    /// Width of the floor's map, in cells.
    pub map_width: i32,
    pub equipment: VaultEquipmentLoot,
    pub consumables: VaultConsumables,
    pub queue: VaultSpawnQueue,
    pub heaps: Vec<VaultHeap>,
    /// Cells given a flame trap, in setup order.
    pub flame_traps: Vec<usize>,
    /// The branch-entrance transition cell.
    pub entrance_cell: Option<usize>,
    /// The terrain of every cell, row by row.
    pub map: Vec<Terrain>,
    /// Mobs placed so far, in placement order.
    pub mobs: Vec<VaultMob>,
}

impl VaultLevelState {
    /// A fresh floor of the given map width: fresh loot decks, an empty
    /// spawn queue, and nothing placed yet.
    pub fn new(depth: u32, challenges: Challenges, map_width: i32) -> (state: Self)
        ensures
            state.depth == depth,
            state.challenges == challenges,
            state.map_width == map_width,
            state.heaps@.len() == 0,
            state.flame_traps@.len() == 0,
            state.entrance_cell is None,
            state.map@.len() == 0,
            state.mobs@.len() == 0,
            state.queue.items@.len() == 0,
            state.equipment.wf(),
            forall|t: int| 0 <= t < 4 ==> #[trigger] state.equipment.slots(t) is None,
            state.equipment.cursor(0) == 0,
            state.equipment.cursor(2) == 0,
            state.equipment.classes().len() == 0,
            state.consumables.wf(),
            state.consumables.lists_view() is None,
            state.consumables.recorded().len() == 0,
    {
        VaultLevelState {
            depth,
            challenges,
            map_width,
            equipment: VaultEquipmentLoot::new(),
            consumables: VaultConsumables::new(),
            queue: VaultSpawnQueue::default(),
            heaps: Vec::new(),
            flame_traps: Vec::new(),
            entrance_cell: None,
            map: Vec::new(),
            mobs: Vec::new(),
        }
    }

    /// A fresh floor whose `width` by `height` map is solid wall.
    pub fn with_map(depth: u32, challenges: Challenges, width: i32, height: i32) -> (state: Self)
        requires
            width >= 0,
            height >= 0,
            width * height <= usize::MAX,
        ensures
            state.depth == depth,
            state.challenges == challenges,
            state.map_width == width,
            state.map@ == Seq::new((width * height) as nat, |i: int| Terrain::Wall),
            state.mobs@.len() == 0,
            state.heaps@.len() == 0,
            state.flame_traps@.len() == 0,
            state.entrance_cell is None,
            state.queue.items@.len() == 0,
            state.equipment.wf(),
            state.consumables.wf(),
    {
        let mut state = VaultLevelState::new(depth, challenges, width);
        let cells: usize = (width as usize) * (height as usize);
        let mut map: Vec<Terrain> = Vec::new();
        let mut i: usize = 0;
        while i < cells
            invariant
                i <= cells,
                map@ == Seq::new(i as nat, |k: int| Terrain::Wall),
            decreases cells - i,
        {
            map.push(Terrain::Wall);
            i = i + 1;
            assert(map@ =~= Seq::new(i as nat, |k: int| Terrain::Wall));
        }
        state.map = map;
        state
    }

    /// The width of the floor's map.
    pub fn width(&self) -> (width: i32)
        ensures
            width == self.map_width,
    {
        self.map_width
    }

    /// Signed `x + y * width`, wrapping as Java's `int` arithmetic does, for
    /// cells that may lie outside the map.
    pub fn cell_index(&self, x: i32, y: i32) -> (index: i32)
        ensures
            index as int == java_int(x + y * self.map_width),
    {
        let width = self.map_width;
        let rows = y.wrapping_mul(width);
        let index = x.wrapping_add(rows);
        proof {
            lemma_wrapping_cell(x, y, width, rows, index);
        }
        index
    }

    /// `Level.distance(a, b)`: the larger of the column and row gaps, with
    /// Java's truncating division, which is what makes `distance(pos, -1)`
    /// well defined.
    pub fn distance(&self, a: i32, b: i32) -> (gap: i32)
        requires
            cell_distance_fits(a as int, b as int, self.map_width as int),
        ensures
            gap as int == cell_distance(a as int, b as int, self.map_width as int),
    {
        let width = self.map_width;
        let (ay, ax) = java_div_rem(a, width);
        let (by, bx) = java_div_rem(b, width);
        let dx = if ax >= bx {
            ax - bx
        } else {
            bx - ax
        };
        let dy = if ay >= by {
            ay - by
        } else {
            by - ay
        };
        let gap = if dx >= dy {
            dx
        } else {
            dy
        };
        gap as i32
    }

    /// The index of the first heap on `cell`.
    pub fn heap_at(&self, cell: usize) -> (index: Option<usize>)
        ensures
            index == (match first_heap_on(heaps_view(self.heaps@), cell) {
                Some(i) => Some(i as usize),
                None => None::<usize>,
            }),
    {
        let ghost view = heaps_view(self.heaps@);
        let mut i: usize = 0;
        while i < self.heaps.len()
            invariant
                i <= self.heaps.len(),
                view == heaps_view(self.heaps@),
                forall|j: int| 0 <= j < i ==> view[j].0 != cell,
            decreases self.heaps.len() - i,
        {
            assert(view[i as int].0 == self.heaps@[i as int].cell);
            if self.heaps[i].cell == cell {
                proof {
                    assert(is_first_on(view, cell, i as int));
                    let k = first_heap_on(view, cell)->Some_0;
                    assert(is_first_on(view, cell, k));
                    assert(k == i) by {
                        if k < i {
                            assert(view[k].0 != cell);
                        }
                        if k > i {
                            assert(view[i as int].0 != cell);
                        }
                    }
                }
                return Some(i);
            }
            i = i + 1;
        }
        proof {
            assert forall|k: int| !is_first_on(view, cell, k) by {}
        }
        None
    }

    /// `Level.drop(item, cell)`: onto the first heap on the cell (a stackable
    /// item merges with equal items there; everything goes to the front), or
    /// a new plain heap. Returns the heap's index so that callers can set its
    /// kind.
    pub fn drop(&mut self, item: VaultItem, cell: usize) -> (index: usize)
        ensures
            heaps_view(final(self).heaps@) == heaps_after_drop(heaps_view(old(self).heaps@), item, cell),
            index == (match first_heap_on(heaps_view(old(self).heaps@), cell) {
                Some(i) => i,
                None => old(self).heaps@.len() as int,
            }),
            final(self).depth == old(self).depth,
            final(self).challenges == old(self).challenges,
            final(self).map_width == old(self).map_width,
            final(self).equipment == old(self).equipment,
            final(self).consumables == old(self).consumables,
            final(self).queue == old(self).queue,
            final(self).flame_traps == old(self).flame_traps,
            final(self).entrance_cell == old(self).entrance_cell,
            final(self).map == old(self).map,
            final(self).mobs == old(self).mobs,
    {
        let ghost before = heaps_view(self.heaps@);
        match self.heap_at(cell) {
            Some(index) => {
                let ghost k = first_heap_on(before, cell)->Some_0;
                proof {
                    assert(first_heap_on(before, cell) is Some);
                    assert(is_first_on(before, cell, k));
                    assert(before.len() == self.heaps.len());
                    assert(0 <= k < self.heaps.len());
                    assert(k as usize == index);
                    assert(k == index);
                    assert(before[k] == heap_view(self.heaps@[k]));
                }
                let items = dropped_items(&self.heaps[index].items, item);
                let heap = VaultHeap { cell: self.heaps[index].cell, kind: self.heaps[index].kind, items };
                let ghost new_view = heap_view(heap);
                self.heaps.set(index, heap);
                assert(new_view == (before[k].0, before[k].1, dropped_onto(before[k].2, item)));
                assert(heaps_view(self.heaps@) =~= heaps_after_drop(before, item, cell)) by {
                    assert forall|j: int| 0 <= j < before.len() implies heaps_view(self.heaps@)[j]
                        == heaps_after_drop(before, item, cell)[j] by {
                        if j == k {
                            assert(heaps_view(self.heaps@)[j] == new_view);
                        }
                    }
                }
                index
            },
            None => {
                let mut items: Vec<VaultItem> = Vec::new();
                items.push(item);
                self.heaps.push(VaultHeap { cell, kind: VaultHeapKind::Heap, items });
                assert(heaps_view(self.heaps@) =~= heaps_after_drop(before, item, cell)) by {
                    assert(heaps_view(self.heaps@)[before.len() as int].2 =~= seq![item]);
                }
                self.heaps.len() - 1
            },
        }
    }

    /// Sets the kind of a heap.
    pub fn set_heap_kind(&mut self, heap: usize, kind: VaultHeapKind)
        requires
            heap < old(self).heaps@.len(),
        ensures
            heaps_view(final(self).heaps@) == heaps_view(old(self).heaps@).update(
                heap as int,
                (old(self).heaps@[heap as int].cell, kind, old(self).heaps@[heap as int].items@),
            ),
            final(self).depth == old(self).depth,
            final(self).challenges == old(self).challenges,
            final(self).map_width == old(self).map_width,
            final(self).equipment == old(self).equipment,
            final(self).consumables == old(self).consumables,
            final(self).queue == old(self).queue,
            final(self).flame_traps == old(self).flame_traps,
            final(self).entrance_cell == old(self).entrance_cell,
            final(self).map == old(self).map,
            final(self).mobs == old(self).mobs,
    {
        let ghost before = heaps_view(self.heaps@);
        let items = self.heaps[heap].items.clone();
        let updated = VaultHeap { cell: self.heaps[heap].cell, kind, items };
        self.heaps.set(heap, updated);
        assert(heaps_view(self.heaps@) =~= before.update(
            heap as int,
            (before[heap as int].0, kind, before[heap as int].2),
        ));
    }
}

/// Java's truncating quotient `a / b`.
pub open spec fn java_quot(a: int, b: int) -> int {
    let magnitude = (if a < 0 {
        -a
    } else {
        a
    }) / (if b < 0 {
        -b
    } else {
        b
    });
    if (a < 0) != (b < 0) {
        -magnitude
    } else {
        magnitude
    }
}

/// The absolute value of an integer.
pub open spec fn magnitude(n: int) -> int {
    if n < 0 {
        -n
    } else {
        n
    }
}

/// The distance between two cells of a map of the given width: the larger
/// of their column gap and row gap.
pub open spec fn cell_distance(a: int, b: int, width: int) -> int {
    let dx = magnitude(java_rem(a, width) - java_rem(b, width));
    let dy = magnitude(java_quot(a, width) - java_quot(b, width));
    if dx >= dy {
        dx
    } else {
        dy
    }
}

/// Java `int` arithmetic computes the distance without overflow: a non-zero
/// width, quotients that are `int`s, and gaps that are too.
pub open spec fn cell_distance_fits(a: int, b: int, width: int) -> bool {
    &&& width != 0
    &&& i32::MIN <= java_quot(a, width) <= i32::MAX
    &&& i32::MIN <= java_quot(b, width) <= i32::MAX
    &&& magnitude(java_rem(a, width) - java_rem(b, width)) <= i32::MAX
    &&& magnitude(java_quot(a, width) - java_quot(b, width)) <= i32::MAX
}

/// Java's truncating quotient and remainder of two `int`s.
fn java_div_rem(a: i32, b: i32) -> (qr: (i64, i64))
    requires
        b != 0,
    ensures
        qr.0 == java_quot(a as int, b as int),
        qr.1 == java_rem(a as int, b as int),
{
    let a_size: u64 = if a < 0 {
        (0 - (a as i64)) as u64
    } else {
        a as u64
    };
    let b_size: u64 = if b < 0 {
        (0 - (b as i64)) as u64
    } else {
        b as u64
    };
    let q = a_size / b_size;
    let r = a_size % b_size;
    let quotient: i64 = if (a < 0) != (b < 0) {
        0 - (q as i64)
    } else {
        q as i64
    };
    let remainder: i64 = if a < 0 {
        0 - (r as i64)
    } else {
        r as i64
    };
    (quotient, remainder)
}

/// An integer taken modulo 2^32 into Java's `int` range.
pub open spec fn java_int(n: int) -> int {
    let r = n % 0x1_0000_0000;
    if r > i32::MAX {
        r - 0x1_0000_0000
    } else {
        r
    }
}

/// `x + y * width` wrapped twice in `i32` is the sum wrapped once.
proof fn lemma_wrapping_cell(x: i32, y: i32, width: i32, rows: i32, index: i32)
    requires
        rows == y.wrapping_mul(width),
        index == x.wrapping_add(rows),
    ensures
        index as int == java_int(x + y * width),
{
    let product = y * width;
    assert(rows as int == java_int(product));
    assert((x + rows) % 0x1_0000_0000 == (x + product) % 0x1_0000_0000) by {
        vstd::arithmetic::div_mod::lemma_add_mod_noop(x as int, rows as int, 0x1_0000_0000);
        vstd::arithmetic::div_mod::lemma_add_mod_noop(x as int, product, 0x1_0000_0000);
        vstd::arithmetic::div_mod::lemma_mod_twice(product, 0x1_0000_0000);
        if product % 0x1_0000_0000 > i32::MAX {
            vstd::arithmetic::div_mod::lemma_mod_sub_multiples_vanish(
                product % 0x1_0000_0000,
                0x1_0000_0000,
            );
        }
    }
}

/// The items of a heap after dropping `item` onto it.
fn dropped_items(items: &Vec<VaultItem>, item: VaultItem) -> (result: Vec<VaultItem>)
    ensures
        result@ == dropped_onto(items@, item),
{
    let merge = is_stackable(item);
    let mut result: Vec<VaultItem> = Vec::new();
    result.push(item);
    let mut i: usize = 0;
    while i < items.len()
        invariant
            i <= items.len(),
            merge == stackable(item),
            result@ == if merge {
                seq![item] + items@.take(i as int).filter(other_than(item))
            } else {
                seq![item] + items@.take(i as int)
            },
        decreases items.len() - i,
    {
        let existing = items[i];
        proof {
            let prev = items@.take(i as int);
            let next = items@.take(i + 1);
            assert(next.drop_last() =~= prev);
            assert(next.last() == existing);
            reveal(Seq::filter);
            assert(next.filter(other_than(item)) == if other_than(item)(existing) {
                prev.filter(other_than(item)).push(existing)
            } else {
                prev.filter(other_than(item))
            });
            assert(other_than(item)(existing) == (existing != item));
        }
        if !merge || existing != item {
            result.push(existing);
        }
        proof {
            if merge {
                assert(result@ =~= seq![item] + items@.take(i + 1).filter(other_than(item)));
            } else {
                assert(result@ =~= seq![item] + items@.take(i + 1));
            }
        }
        i = i + 1;
    }
    assert(items@.take(items.len() as int) =~= items@);
    result
}

/// Whether the item merges with equal items on a heap.
fn is_stackable(item: VaultItem) -> (merge: bool)
    ensures
        merge == stackable(item),
{
    match item {
        VaultItem::Dart => true,
        VaultItem::Consumable(_) => true,
        VaultItem::ShuffledConsumable { .. } => true,
        VaultItem::Food(_) => true,
        VaultItem::DwarfToken => true,
        VaultItem::Torch => true,
        _ => false,
    }
}

} // verus!
