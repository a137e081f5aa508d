//! Run-wide counters of drops that the game limits, as floor generation
//! consults and advances them.

use vstd::prelude::*;
use crate::rng::{int_bound_from, top, with_top, RandomStack};

verus! {

/// Counters of limited drops handed out so far in a run.
#[derive(Clone, Copy, Debug, PartialEq, Eq, Structural)]
pub struct LimitedDrops {
    /// Alchemy laboratories placed as special rooms.
    pub laboratory_rooms: u32,
}

impl Default for LimitedDrops {
    fn default() -> (drops: Self)
        ensures
            drops.laboratory_rooms == 0,
    {
        LimitedDrops { laboratory_rooms: 0 }
    }
}

/// The region's laboratory is still owed: one per five-floor region, so
/// region `1 + depth / 5` has one only while fewer have been placed.
pub open spec fn laboratory_owed(depth: i32, placed: u32) -> bool {
    depth >= 0 && 1 + depth / 5 > placed
}

/// The laboratory is owed and this is the region's fourth or fifth floor,
/// where it is placed without a draw.
pub open spec fn laboratory_forced(depth: i32, placed: u32) -> bool {
    laboratory_owed(depth, placed) && depth % 5 >= 4
}

/// The laboratory is owed and this is the region's third floor, where a coin
/// flip on the current generator decides.
pub open spec fn laboratory_drawn(depth: i32, placed: u32) -> bool {
    laboratory_owed(depth, placed) && depth % 5 == 3
}

/// Whether a laboratory goes on this floor, given the state of the current
/// generator before the check.
pub open spec fn laboratory_placed(depth: i32, placed: u32, state: u64) -> bool {
    laboratory_forced(depth, placed) || (laboratory_drawn(depth, placed) && int_bound_from(
        state,
        2,
    ).0 == 0)
}

/// The generator stack after the laboratory check.
pub open spec fn after_laboratory_check(states: Seq<u64>, depth: i32, placed: u32) -> Seq<u64> {
    if laboratory_drawn(depth, placed) {
        with_top(states, int_bound_from(top(states), 2).1)
    } else {
        states
    }
}

impl LimitedDrops {
    /// Mirrors `Dungeon.labRoomNeeded()`: a laboratory is owed once per
    /// region, forced on its fourth and fifth floors and drawn with even odds
    /// on its third.
    pub fn laboratory_needed(&self, depth: i32, random: &mut RandomStack) -> (needed: bool)
        requires
            old(random).wf(),
        ensures
            final(random).wf(),
            final(random)@ == after_laboratory_check(old(random)@, depth, self.laboratory_rooms),
            needed == laboratory_placed(depth, self.laboratory_rooms, top(old(random)@)),
    {
        if depth < 0 {
            return false;
        }
        let floor: u32 = depth as u32;
        let region: u32 = 1 + floor / 5;
        if region <= self.laboratory_rooms {
            return false;
        }
        let in_region: u32 = floor % 5;
        if in_region >= 4 {
            true
        } else if in_region == 3 {
            random.int_bound(2) == 0
        } else {
            false
        }
    }

    /// Counts one more laboratory.
    pub fn record_laboratory(&mut self)
        requires
            old(self).laboratory_rooms < u32::MAX,
        ensures
            final(self).laboratory_rooms == old(self).laboratory_rooms + 1,
    {
        self.laboratory_rooms = self.laboratory_rooms + 1;
    }
}

} // verus!
