//! Generated worlds as queries see them: searchable items with their floor,
//! source, and the acquisition branch they belong to.

use vstd::prelude::*;

use crate::catalog::{Effect, ItemId};
use crate::seed::DungeonSeed;

verus! {

/// Where an item is obtained.
#[derive(Clone, Copy, Debug, PartialEq, Eq, Structural, Hash)]
pub enum ItemSource {
    Heap,
    Chest,
    LockedChest,
    Skeleton,
    Shop,
    GhostReward,
    WandmakerReward,
    BlacksmithReward,
    ImpReward,
    VaultTreasure,
}

/// Whether an item can be taken together with others.
#[derive(Clone, Copy, Debug, PartialEq, Eq, Structural, Hash)]
pub enum Accessibility {
    /// Always obtainable.
    Independent,
    /// One option of a mutually exclusive choice: only items of the same
    /// option of a group can be taken together.
    Choice { group: u16, option: u8 },
    /// Obtainable in the scenarios of a group whose bits are set in `mask`.
    Scenarios { group: u16, mask: u64 },
}

/// The scenario bit of a choice option; options past the 64th share no scenario.
pub open spec fn option_bit(option: u8) -> u64 {
    if option < 64 {
        (1u64 << option) as u64
    } else {
        0
    }
}

/// The scenario constraint of an accessibility: its group and the scenarios
/// in which the item is obtainable.
pub open spec fn scenario_of(accessibility: Accessibility) -> Option<(u16, u64)> {
    match accessibility {
        Accessibility::Independent => None,
        Accessibility::Choice { group, option } => Some((group, option_bit(option))),
        Accessibility::Scenarios { group, mask } => Some((group, mask)),
    }
}

impl Accessibility {
    /// The group and scenario mask constraining this item, if any.
    pub fn scenario_constraint(self) -> (constraint: Option<(u16, u64)>)
        ensures
            constraint == scenario_of(self),
    {
        match self {
            Accessibility::Independent => None,
            Accessibility::Choice { group, option } => {
                let bit = if option < 64 {
                    1u64 << option
                } else {
                    0
                };
                Some((group, bit))
            },
            Accessibility::Scenarios { group, mask } => Some((group, mask)),
        }
    }
}

/// One searchable item of a generated world.
#[derive(Clone, Copy, Debug, PartialEq, Eq, Structural)]
pub struct WorldItem {
    pub item: ItemId,
    pub upgrade: u8,
    pub effect: Option<Effect>,
    pub cursed: bool,
    pub depth: u8,
    pub source: ItemSource,
    pub accessibility: Accessibility,
}

/// The searchable items of one generated dungeon.
#[derive(Clone, Debug)]
pub struct GeneratedWorld {
    pub seed: DungeonSeed,
    pub items: Vec<WorldItem>,
}

/// The game's challenge mask used while generating candidate worlds.
#[derive(Clone, Copy, Debug, PartialEq, Eq, Structural, Hash)]
pub struct Challenges {
    pub mask: u32,
}

impl Challenges {
    /// No challenges.
    pub fn none() -> (challenges: Self)
        ensures
            challenges.mask == 0,
    {
        Challenges { mask: 0 }
    }
}

} // verus!
