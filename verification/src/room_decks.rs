//! Persistent special- and secret-room queues for regular floors.
//!
//! These queues are initialized under the run seed, then mutated under each
//! floor's generator. Their state therefore links otherwise independent depth
//! roots and must be replayed in ascending floor order. The weighted draw
//! that picks among the first three scheduled rooms is made by the caller and
//! handed in as its index.

use vstd::prelude::*;
use crate::level_prelude::{after_laboratory_check, laboratory_placed, LimitedDrops};
use crate::rng::{top, RandomStack};

verus! {

/// Special rooms that hold equipment.
#[derive(Clone, Copy, Debug, PartialEq, Eq, Structural, Hash)]
pub enum EquipmentSpecialRoom {
    CrystalVault,
    CrystalChoice,
    Pool,
    Sentry,
    WeakFloor,
    Crypt,
    Armory,
    Statue,
    Sacrifice,
}

/// Special rooms that hold consumables.
#[derive(Clone, Copy, Debug, PartialEq, Eq, Structural, Hash)]
pub enum ConsumableSpecialRoom {
    CrystalPath,
    Storage,
    ToxicGas,
    MagicalFire,
    Traps,
    Runestone,
    Garden,
    Library,
    Treasury,
    MagicWell,
}

/// One entry of the run's special-room queue.
#[derive(Clone, Copy, Debug, PartialEq, Eq, Structural, Hash)]
pub enum SpecialRoomKind {
    Equipment(EquipmentSpecialRoom),
    Consumable(ConsumableSpecialRoom),
}

/// One entry of the run's secret-room queue.
#[derive(Clone, Copy, Debug, PartialEq, Eq, Structural, Hash)]
pub enum SecretRoomKind {
    Garden,
    Laboratory,
    Library,
    Larder,
    Well,
    Runestone,
    Artillery,
    ChestChasm,
    Honeypot,
    Hoard,
    Maze,
    Summoning,
}

/// The run-wide special-room state: the scheduled queue and the depth on
/// which a pit room is owed (-1 when none is).
#[derive(Clone, Debug)]
pub struct SpecialRoomState {
    pub run_specials: Vec<SpecialRoomKind>,
    pub pit_needed_depth: i32,
}

/// A concrete result of choosing a special room.
#[derive(Clone, Copy, Debug, PartialEq, Eq, Structural, Hash)]
pub enum SelectedSpecialRoom {
    Scheduled(SpecialRoomKind),
    Laboratory,
    Pit,
}

/// The special rooms still available on one regular floor.
#[derive(Clone, Debug)]
pub struct FloorSpecialDeck {
    rooms: Vec<SelectedSpecialRoom>,
}

impl View for FloorSpecialDeck {
    type V = Seq<SelectedSpecialRoom>;

    closed spec fn view(&self) -> Seq<SelectedSpecialRoom> {
        self.rooms@
    }
}

/// Rooms opened with a crystal key: only one of them per floor.
pub open spec fn crystal_keyed(room: SelectedSpecialRoom) -> bool {
    match room {
        SelectedSpecialRoom::Pit => true,
        SelectedSpecialRoom::Scheduled(SpecialRoomKind::Equipment(
            EquipmentSpecialRoom::CrystalVault,
        )) => true,
        SelectedSpecialRoom::Scheduled(SpecialRoomKind::Equipment(
            EquipmentSpecialRoom::CrystalChoice,
        )) => true,
        SelectedSpecialRoom::Scheduled(SpecialRoomKind::Consumable(
            ConsumableSpecialRoom::CrystalPath,
        )) => true,
        _ => false,
    }
}

/// Rooms that spawn a potion: only one of them per floor.
pub open spec fn potion_room(room: SelectedSpecialRoom) -> bool {
    match room {
        SelectedSpecialRoom::Scheduled(SpecialRoomKind::Equipment(EquipmentSpecialRoom::Pool)) => true,
        SelectedSpecialRoom::Scheduled(SpecialRoomKind::Equipment(EquipmentSpecialRoom::Sentry)) => true,
        SelectedSpecialRoom::Scheduled(SpecialRoomKind::Consumable(
            ConsumableSpecialRoom::Storage,
        )) => true,
        SelectedSpecialRoom::Scheduled(SpecialRoomKind::Consumable(
            ConsumableSpecialRoom::ToxicGas,
        )) => true,
        SelectedSpecialRoom::Scheduled(SpecialRoomKind::Consumable(
            ConsumableSpecialRoom::MagicalFire,
        )) => true,
        SelectedSpecialRoom::Scheduled(SpecialRoomKind::Consumable(ConsumableSpecialRoom::Traps)) => true,
        _ => false,
    }
}

/// Using `selected` removes `room` from the floor.
pub open spec fn excluded_by(selected: SelectedSpecialRoom, room: SelectedSpecialRoom) -> bool {
    room == selected || (crystal_keyed(selected) && crystal_keyed(room)) || (potion_room(selected)
        && potion_room(room))
}

/// The weak floor, which a boss floor below cannot host.
pub open spec fn weak_floor() -> SelectedSpecialRoom {
    SelectedSpecialRoom::Scheduled(SpecialRoomKind::Equipment(EquipmentSpecialRoom::WeakFloor))
}

/// The floor's rooms that survive using `selected`, in order.
pub open spec fn survivors(rooms: Seq<SelectedSpecialRoom>, selected: SelectedSpecialRoom) -> Seq<
    SelectedSpecialRoom,
>
    decreases rooms.len(),
{
    if rooms.len() == 0 {
        rooms
    } else {
        let rest = survivors(rooms.drop_last(), selected);
        if excluded_by(selected, rooms.last()) {
            rest
        } else {
            rest.push(rooms.last())
        }
    }
}

/// The floor's rooms other than the weak floor, in order.
pub open spec fn without_weak_floor(rooms: Seq<SelectedSpecialRoom>) -> Seq<SelectedSpecialRoom>
    decreases rooms.len(),
{
    if rooms.len() == 0 {
        rooms
    } else {
        let rest = without_weak_floor(rooms.drop_last());
        if rooms.last() == weak_floor() {
            rest
        } else {
            rest.push(rooms.last())
        }
    }
}

/// The first position of `kind` in the queue, if it is queued.
pub open spec fn first_position(queue: Seq<SpecialRoomKind>, kind: SpecialRoomKind) -> Option<int> {
    if queue.contains(kind) {
        Some(
            choose|i: int|
                0 <= i < queue.len() && queue[i] == kind && forall|j: int|
                    0 <= j < i ==> queue[j] != kind,
        )
    } else {
        None
    }
}

/// The queue with the entry at `index` moved to the back.
pub open spec fn rotated<T>(queue: Seq<T>, index: int) -> Seq<T> {
    queue.subrange(0, index) + queue.subrange(index + 1, queue.len() as int) + seq![queue[index]]
}

/// The run queue after using `selected`: a scheduled room moves from its
/// first position to the back.
pub open spec fn queue_after(queue: Seq<SpecialRoomKind>, selected: SelectedSpecialRoom) -> Seq<
    SpecialRoomKind,
> {
    match selected {
        SelectedSpecialRoom::Scheduled(kind) => match first_position(queue, kind) {
            Some(index) => rotated(queue, index),
            None => queue,
        },
        _ => queue,
    }
}

impl FloorSpecialDeck {
    /// The rooms still available, in queue order.
    pub fn rooms(&self) -> (rooms: &Vec<SelectedSpecialRoom>)
        ensures
            rooms@ == self@,
    {
        &self.rooms
    }

    /// Whether no room is left.
    pub fn is_empty(&self) -> (empty: bool)
        ensures
            empty == (self@.len() == 0),
    {
        self.rooms.len() == 0
    }
}

/// Whether a depth is a boss floor.
pub fn is_boss_depth(depth: i32) -> (boss: bool)
    ensures
        boss == (depth == 5 || depth == 10 || depth == 15 || depth == 20 || depth == 25),
{
    depth == 5 || depth == 10 || depth == 15 || depth == 20 || depth == 25
}

/// Whether a room is opened with a crystal key.
pub fn uses_crystal_key(room: SelectedSpecialRoom) -> (keyed: bool)
    ensures
        keyed == crystal_keyed(room),
{
    match room {
        SelectedSpecialRoom::Pit => true,
        SelectedSpecialRoom::Scheduled(SpecialRoomKind::Equipment(
            EquipmentSpecialRoom::CrystalVault,
        )) => true,
        SelectedSpecialRoom::Scheduled(SpecialRoomKind::Equipment(
            EquipmentSpecialRoom::CrystalChoice,
        )) => true,
        SelectedSpecialRoom::Scheduled(SpecialRoomKind::Consumable(
            ConsumableSpecialRoom::CrystalPath,
        )) => true,
        _ => false,
    }
}

/// Whether a room spawns a potion.
pub fn spawns_potion(room: SelectedSpecialRoom) -> (potion: bool)
    ensures
        potion == potion_room(room),
{
    match room {
        SelectedSpecialRoom::Scheduled(SpecialRoomKind::Equipment(EquipmentSpecialRoom::Pool)) => true,
        SelectedSpecialRoom::Scheduled(SpecialRoomKind::Equipment(EquipmentSpecialRoom::Sentry)) => true,
        SelectedSpecialRoom::Scheduled(SpecialRoomKind::Consumable(
            ConsumableSpecialRoom::Storage,
        )) => true,
        SelectedSpecialRoom::Scheduled(SpecialRoomKind::Consumable(
            ConsumableSpecialRoom::ToxicGas,
        )) => true,
        SelectedSpecialRoom::Scheduled(SpecialRoomKind::Consumable(
            ConsumableSpecialRoom::MagicalFire,
        )) => true,
        SelectedSpecialRoom::Scheduled(SpecialRoomKind::Consumable(ConsumableSpecialRoom::Traps)) => true,
        _ => false,
    }
}

/// The run queue in order, preceded by a laboratory when `laboratory_needed`.
fn floor_deck(state: &SpecialRoomState, laboratory_needed: bool) -> (floor: FloorSpecialDeck)
    ensures
        floor@ == (if laboratory_needed {
            seq![SelectedSpecialRoom::Laboratory]
        } else {
            Seq::empty()
        }) + state.run_specials@.map_values(|kind: SpecialRoomKind| SelectedSpecialRoom::Scheduled(kind)),
{
    let mut rooms: Vec<SelectedSpecialRoom> = Vec::new();
    if laboratory_needed {
        rooms.push(SelectedSpecialRoom::Laboratory);
    }
    let ghost prefix = rooms@;
    let mut i: usize = 0;
    while i < state.run_specials.len()
        invariant
            i <= state.run_specials@.len(),
            rooms@ == prefix + state.run_specials@.take(i as int).map_values(
                |kind: SpecialRoomKind| SelectedSpecialRoom::Scheduled(kind),
            ),
        decreases state.run_specials@.len() - i,
    {
        rooms.push(SelectedSpecialRoom::Scheduled(state.run_specials[i]));
        proof {
            assert(state.run_specials@.take((i + 1) as int).map_values(
                |kind: SpecialRoomKind| SelectedSpecialRoom::Scheduled(kind),
            ) =~= state.run_specials@.take(i as int).map_values(
                |kind: SpecialRoomKind| SelectedSpecialRoom::Scheduled(kind),
            ).push(SelectedSpecialRoom::Scheduled(state.run_specials@[i as int])));
        }
        i = i + 1;
    }
    proof {
        assert(state.run_specials@.take(state.run_specials@.len() as int) =~= state.run_specials@);
    }
    FloorSpecialDeck { rooms }
}

/// Mirrors `SpecialRoom.initForFloor`: the floor deck at the start of a
/// regular floor is the run queue in order, preceded by a laboratory when one
/// is owed on this floor. Placing it counts it among the limited drops at once.
pub fn begin_special_floor(
    state: &SpecialRoomState,
    limited_drops: &mut LimitedDrops,
    depth: i32,
    random: &mut RandomStack,
) -> (floor: FloorSpecialDeck)
    requires
        old(random).wf(),
    ensures
        final(random).wf(),
        final(random)@ == after_laboratory_check(
            old(random)@,
            depth,
            old(limited_drops).laboratory_rooms,
        ),
        floor@ == (if laboratory_placed(
            depth,
            old(limited_drops).laboratory_rooms,
            top(old(random)@),
        ) {
            seq![SelectedSpecialRoom::Laboratory]
        } else {
            Seq::empty()
        }) + state.run_specials@.map_values(|kind: SpecialRoomKind| SelectedSpecialRoom::Scheduled(kind)),
        final(limited_drops).laboratory_rooms == old(limited_drops).laboratory_rooms + (if laboratory_placed(
            depth,
            old(limited_drops).laboratory_rooms,
            top(old(random)@),
        ) {
            1int
        } else {
            0int
        }),
{
    let needed = limited_drops.laboratory_needed(depth, random);
    if needed {
        limited_drops.record_laboratory();
    }
    floor_deck(state, needed)
}

/// Removes the floor's rooms that using `selected` rules out, and moves a
/// scheduled room to the back of the run queue.
fn use_special_type(
    state: &mut SpecialRoomState,
    floor: &mut FloorSpecialDeck,
    selected: SelectedSpecialRoom,
)
    ensures
        final(floor)@ == survivors(old(floor)@, selected),
        final(state).run_specials@ == queue_after(old(state).run_specials@, selected),
        final(state).pit_needed_depth == old(state).pit_needed_depth,
{
    let mut kept: Vec<SelectedSpecialRoom> = Vec::new();
    let mut i: usize = 0;
    while i < floor.rooms.len()
        invariant
            i <= floor.rooms@.len(),
            floor.rooms@ == old(floor).rooms@,
            kept@ == survivors(floor.rooms@.take(i as int), selected),
        decreases floor.rooms@.len() - i,
    {
        let room = floor.rooms[i];
        proof {
            assert(floor.rooms@.take((i + 1) as int).drop_last() =~= floor.rooms@.take(i as int));
        }
        let excluded = room == selected || (uses_crystal_key(selected) && uses_crystal_key(room))
            || (spawns_potion(selected) && spawns_potion(room));
        if !excluded {
            kept.push(room);
        }
        i = i + 1;
    }
    proof {
        assert(floor.rooms@.take(floor.rooms@.len() as int) =~= floor.rooms@);
    }
    floor.rooms = kept;
    if let SelectedSpecialRoom::Scheduled(kind) = selected {
        let mut p: usize = 0;
        while p < state.run_specials.len()
            invariant
                p <= state.run_specials@.len(),
                state.run_specials@ == old(state).run_specials@,
                state.pit_needed_depth == old(state).pit_needed_depth,
                forall|j: int| 0 <= j < p ==> state.run_specials@[j] != kind,
                floor@ == survivors(old(floor)@, selected),
                selected == SelectedSpecialRoom::Scheduled(kind),
            decreases state.run_specials@.len() - p,
        {
            if state.run_specials[p] == kind {
                proof {
                    let queue = state.run_specials@;
                    assert(queue.contains(kind));
                    let chosen = first_position(queue, kind).unwrap();
                    if chosen != p {
                        if chosen < p {
                            assert(queue[chosen] != kind);
                        } else {
                            assert(queue[p as int] != kind);
                        }
                    }
                }
                let moved = state.run_specials.remove(p);
                state.run_specials.push(moved);
                proof {
                    let queue = old(state).run_specials@;
                    assert(state.run_specials@ =~= rotated(queue, p as int));
                }
                return;
            }
            p = p + 1;
        }
        proof {
            assert(!state.run_specials@.contains(kind));
        }
    }
}

/// Whether choosing a special room needs the caller's weighted draw: not when
/// a pit is owed on this floor or a laboratory is waiting.
pub fn needs_chance_draw(state: &SpecialRoomState, floor: &FloorSpecialDeck, depth: i32) -> (draw: bool)
    ensures
        draw == (state.pit_needed_depth != depth && !floor@.contains(
            SelectedSpecialRoom::Laboratory,
        )),
{
    if state.pit_needed_depth == depth {
        return false;
    }
    !contains_room(&floor.rooms, SelectedSpecialRoom::Laboratory)
}

/// Whether `rooms` holds `room`.
fn contains_room(rooms: &Vec<SelectedSpecialRoom>, room: SelectedSpecialRoom) -> (found: bool)
    ensures
        found == rooms@.contains(room),
{
    let mut i: usize = 0;
    while i < rooms.len()
        invariant
            i <= rooms@.len(),
            forall|j: int| 0 <= j < i ==> rooms@[j] != room,
        decreases rooms@.len() - i,
    {
        if rooms[i] == room {
            assert(rooms@[i as int] == room);
            return true;
        }
        i = i + 1;
    }
    false
}

/// The rooms left to choose from after the boss-floor rule.
pub open spec fn choosable(rooms: Seq<SelectedSpecialRoom>, depth: i32) -> Seq<SelectedSpecialRoom> {
    if depth + 1 == 5 || depth + 1 == 10 || depth + 1 == 15 || depth + 1 == 20 || depth + 1 == 25 {
        without_weak_floor(rooms)
    } else {
        rooms
    }
}

/// The drawn index, clamped to the last available room.
pub open spec fn clamped(index: usize, len: nat) -> int {
    if index < len {
        index as int
    } else {
        len - 1
    }
}

/// Chooses one special room and updates the floor and run queues. An owed
/// pit comes first, then a waiting laboratory; otherwise the weak floor is
/// dropped above a boss floor, and `chance_index` (the caller's weighted draw
/// over the first three rooms) picks a room, clamped to the rooms left. A
/// chosen weak floor owes a pit on the next depth.
pub fn select_special_room(
    state: &mut SpecialRoomState,
    floor: &mut FloorSpecialDeck,
    depth: i32,
    chance_index: usize,
) -> (selected: SelectedSpecialRoom)
    requires
        depth < i32::MAX,
        old(state).pit_needed_depth != depth && !old(floor)@.contains(
            SelectedSpecialRoom::Laboratory,
        ) ==> choosable(old(floor)@, depth).len() > 0,
    ensures
        old(state).pit_needed_depth == depth ==> selected == SelectedSpecialRoom::Pit
            && final(state).pit_needed_depth == -1 && final(floor)@ == survivors(
            old(floor)@,
            selected,
        ) && final(state).run_specials@ == old(state).run_specials@,
        old(state).pit_needed_depth != depth && old(floor)@.contains(
            SelectedSpecialRoom::Laboratory,
        ) ==> selected == SelectedSpecialRoom::Laboratory && final(state).pit_needed_depth
            == old(state).pit_needed_depth && final(floor)@ == survivors(old(floor)@, selected)
            && final(state).run_specials@ == old(state).run_specials@,
        old(state).pit_needed_depth != depth && !old(floor)@.contains(
            SelectedSpecialRoom::Laboratory,
        ) ==> ({
            let rooms = choosable(old(floor)@, depth);
            &&& selected == rooms[clamped(chance_index, rooms.len())]
            &&& final(floor)@ == survivors(rooms, selected)
            &&& final(state).run_specials@ == queue_after(old(state).run_specials@, selected)
            &&& final(state).pit_needed_depth == (if selected == weak_floor() {
                depth + 1
            } else {
                old(state).pit_needed_depth as int
            })
        }),
{
    if state.pit_needed_depth == depth {
        state.pit_needed_depth = -1;
        use_special_type(state, floor, SelectedSpecialRoom::Pit);
        return SelectedSpecialRoom::Pit;
    }
    if contains_room(&floor.rooms, SelectedSpecialRoom::Laboratory) {
        use_special_type(state, floor, SelectedSpecialRoom::Laboratory);
        return SelectedSpecialRoom::Laboratory;
    }
    if is_boss_depth(depth + 1) {
        let mut kept: Vec<SelectedSpecialRoom> = Vec::new();
        let mut i: usize = 0;
        while i < floor.rooms.len()
            invariant
                i <= floor.rooms@.len(),
                floor.rooms@ == old(floor).rooms@,
                kept@ == without_weak_floor(floor.rooms@.take(i as int)),
            decreases floor.rooms@.len() - i,
        {
            let room = floor.rooms[i];
            proof {
                assert(floor.rooms@.take((i + 1) as int).drop_last() =~= floor.rooms@.take(i as int));
            }
            if room != SelectedSpecialRoom::Scheduled(
                SpecialRoomKind::Equipment(EquipmentSpecialRoom::WeakFloor),
            ) {
                kept.push(room);
            }
            i = i + 1;
        }
        proof {
            assert(floor.rooms@.take(floor.rooms@.len() as int) =~= floor.rooms@);
        }
        floor.rooms = kept;
    }
    let mut index = chance_index;
    if index >= floor.rooms.len() {
        index = floor.rooms.len() - 1;
    }
    let selected = floor.rooms[index];
    if selected == SelectedSpecialRoom::Scheduled(
        SpecialRoomKind::Equipment(EquipmentSpecialRoom::WeakFloor),
    ) {
        state.pit_needed_depth = depth + 1;
    }
    use_special_type(state, floor, selected);
    selected
}

/// Forgets an owed pit on this depth.
pub fn reset_pit_room(state: &mut SpecialRoomState, depth: i32)
    ensures
        final(state).pit_needed_depth == (if old(state).pit_needed_depth == depth {
            -1i32
        } else {
            old(state).pit_needed_depth
        }),
        final(state).run_specials@ == old(state).run_specials@,
{
    if state.pit_needed_depth == depth {
        state.pit_needed_depth = -1;
    }
}

/// Chooses the secret room at `chance_index` (the caller's weighted draw over
/// the first three) and moves it to the back of the run's secret queue.
pub fn select_secret_room(run_secrets: &mut Vec<SecretRoomKind>, chance_index: usize) -> (selected: SecretRoomKind)
    requires
        chance_index < old(run_secrets)@.len(),
    ensures
        selected == old(run_secrets)@[chance_index as int],
        final(run_secrets)@ == rotated(old(run_secrets)@, chance_index as int),
{
    let selected = run_secrets.remove(chance_index);
    run_secrets.push(selected);
    proof {
        assert(run_secrets@ =~= rotated(old(run_secrets)@, chance_index as int));
    }
    selected
}

// ---------------------------------------------------------------------------
// Laws
// ---------------------------------------------------------------------------

/// Survivors keep their order and never include a room the used one rules
/// out, the used room itself included.
pub proof fn lemma_used_room_leaves_floor(rooms: Seq<SelectedSpecialRoom>, selected: SelectedSpecialRoom)
    ensures
        !survivors(rooms, selected).contains(selected),
        forall|room: SelectedSpecialRoom|
            survivors(rooms, selected).contains(room) <==> (rooms.contains(room) && !excluded_by(
                selected,
                room,
            )),
    decreases rooms.len(),
{
    if rooms.len() > 0 {
        lemma_used_room_leaves_floor(rooms.drop_last(), selected);
        let rest = survivors(rooms.drop_last(), selected);
        let kept = survivors(rooms, selected);
        assert forall|room: SelectedSpecialRoom|
            kept.contains(room) <==> (rooms.contains(room) && !excluded_by(selected, room)) by {
            if rooms.contains(room) && !excluded_by(selected, room) {
                let i = choose|i: int| 0 <= i < rooms.len() && rooms[i] == room;
                if i < rooms.len() - 1 {
                    assert(rooms.drop_last()[i] == room);
                    assert(rest.contains(room));
                    let j = choose|j: int| 0 <= j < rest.len() && rest[j] == room;
                    assert(kept[j] == room);
                } else {
                    assert(kept[kept.len() - 1] == room);
                }
            }
            if kept.contains(room) {
                let j = choose|j: int| 0 <= j < kept.len() && kept[j] == room;
                if j < rest.len() {
                    assert(rest[j] == room);
                    assert(rest.contains(room));
                    assert(rooms.drop_last().contains(room));
                    let i = choose|i: int| 0 <= i < rooms.drop_last().len() && rooms.drop_last()[i] == room;
                    assert(rooms.drop_last()[i] == rooms[i]);
                    assert(rooms[i] == room);
                } else {
                    assert(rooms[rooms.len() - 1] == room);
                }
            }
        }
    }
}

/// A queued room has a first position.
proof fn lemma_first_position(queue: Seq<SpecialRoomKind>, kind: SpecialRoomKind)
    requires
        queue.contains(kind),
    ensures
        exists|i: int|
            0 <= i < queue.len() && queue[i] == kind && forall|j: int|
                0 <= j < i ==> queue[j] != kind,
    decreases queue.len(),
{
    if queue.drop_last().contains(kind) {
        lemma_first_position(queue.drop_last(), kind);
        let i = choose|i: int|
            0 <= i < queue.drop_last().len() && queue.drop_last()[i] == kind && forall|j: int|
                0 <= j < i ==> queue.drop_last()[j] != kind;
        assert(queue[i] == kind);
        assert forall|j: int| 0 <= j < i implies queue[j] != kind by {
            assert(queue.drop_last()[j] != kind);
        }
    } else {
        let i = queue.len() - 1;
        assert forall|j: int| 0 <= j < i implies queue[j] != kind by {
            assert(queue.drop_last()[j] == queue[j]);
        }
        let w = choose|w: int| 0 <= w < queue.len() && queue[w] == kind;
        if w < i {
            assert(queue.drop_last()[w] == kind);
        }
    }
}

/// Using a room only reorders the run queue: the same rooms, as many times.
pub proof fn lemma_queue_keeps_its_rooms(queue: Seq<SpecialRoomKind>, selected: SelectedSpecialRoom)
    ensures
        queue_after(queue, selected).to_multiset() == queue.to_multiset(),
        queue_after(queue, selected).len() == queue.len(),
{
    if let SelectedSpecialRoom::Scheduled(kind) = selected {
        if queue.contains(kind) {
            lemma_first_position(queue, kind);
            let index = first_position(queue, kind).unwrap();
            let moved = queue[index];
            assert(rotated(queue, index) =~= queue.remove(index).push(moved));
            vstd::seq_lib::to_multiset_build(queue.remove(index), moved);
            vstd::seq_lib::to_multiset_remove(queue, index);
            vstd::seq_lib::to_multiset_contains(queue, moved);
            assert(queue.to_multiset().remove(moved).insert(moved) =~= queue.to_multiset());
        }
    }
}


/// The six special rooms that spawn a potion.
pub open spec fn listed_potion_rooms() -> Seq<SelectedSpecialRoom> {
    seq![
        SelectedSpecialRoom::Scheduled(SpecialRoomKind::Equipment(EquipmentSpecialRoom::Pool)),
        SelectedSpecialRoom::Scheduled(SpecialRoomKind::Equipment(EquipmentSpecialRoom::Sentry)),
        SelectedSpecialRoom::Scheduled(SpecialRoomKind::Consumable(ConsumableSpecialRoom::Storage)),
        SelectedSpecialRoom::Scheduled(SpecialRoomKind::Consumable(ConsumableSpecialRoom::ToxicGas)),
        SelectedSpecialRoom::Scheduled(SpecialRoomKind::Consumable(ConsumableSpecialRoom::MagicalFire)),
        SelectedSpecialRoom::Scheduled(SpecialRoomKind::Consumable(ConsumableSpecialRoom::Traps)),
    ]
}

/// One potion room per floor: once any of the six potion rooms (the pool,
/// the sentry, storage, toxic gas, magical fire or traps room) is used, none
/// of the six is left on the floor; and whether a room spawns a potion is
/// exactly whether it is one of the six.
pub proof fn lemma_one_potion_room_per_floor(rooms: Seq<SelectedSpecialRoom>, selected: SelectedSpecialRoom)
    requires
        listed_potion_rooms().contains(selected),
    ensures
        forall|room: SelectedSpecialRoom|
            #[trigger] listed_potion_rooms().contains(room) ==> !survivors(rooms, selected).contains(room),
        forall|room: SelectedSpecialRoom| potion_room(room) <==> #[trigger] listed_potion_rooms().contains(room),
{
    lemma_used_room_leaves_floor(rooms, selected);
    let listed = listed_potion_rooms();
    assert forall|room: SelectedSpecialRoom| potion_room(room) <==> #[trigger] listed.contains(room) by {
        if potion_room(room) {
            if room == listed[0] {
            } else if room == listed[1] {
                assert(listed[1] == room);
            } else if room == listed[2] {
                assert(listed[2] == room);
            } else if room == listed[3] {
                assert(listed[3] == room);
            } else if room == listed[4] {
                assert(listed[4] == room);
            } else {
                assert(listed[5] == room);
            }
        }
        if listed.contains(room) {
            let k = choose|k: int| 0 <= k < listed.len() && listed[k] == room;
            assert(potion_room(listed[k]));
        }
    }
    assert(potion_room(selected));
    assert forall|room: SelectedSpecialRoom|
        #[trigger] listed.contains(room) implies !survivors(rooms, selected).contains(room) by {
        assert(potion_room(room));
        assert(excluded_by(selected, room));
    }
}

} // verus!
