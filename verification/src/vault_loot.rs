//! Vault loot: the equipment tiers and their shared hand-out cursors, the
//! consumable lists, the solve-item lookups, and the `itemsToSpawn` queue.
//!
//! Consumable lists are built from seeded `Random.oneOf` picks but then
//! shuffled with an unseeded shuffle. Only the fixed Potion of Healing that
//! tiers 0–2 insert at index zero is reproducible; every other draw from
//! those lists is recorded as an opaque slot.

use vstd::prelude::*;

use crate::catalog::{Effect, ItemId};
use crate::rng::{array_shuffle, int_bound_from, top, with_top, RandomStack};

verus! {

// ---------------------------------------------------------------------------
// Items
// ---------------------------------------------------------------------------

/// Equipment family of a vault loot item: wands are not equipable items,
/// everything else here is.
#[derive(Clone, Copy, Debug, PartialEq, Eq, Structural, Hash)]
pub enum VaultEquipmentKind {
    MeleeWeapon,
    ThrownWeapon,
    Armor,
    Wand,
    Ring,
}

/// One rolled vault equipment item after it was handed out and cleaned.
#[derive(Clone, Copy, Debug, PartialEq, Eq, Structural, Hash)]
pub struct VaultEquipment {
    pub kind: VaultEquipmentKind,
    pub item: ItemId,
    pub upgrade: u8,
    pub effect: Option<Effect>,
    /// Thrown weapons come in stacks of three.
    pub quantity: i32,
}

impl VaultEquipment {
    /// Whether the item is an equipable item (everything but wands).
    pub fn is_equipable(self) -> (equipable: bool)
        ensures
            equipable == (self.kind != VaultEquipmentKind::Wand),
    {
        match self.kind {
            VaultEquipmentKind::Wand => false,
            _ => true,
        }
    }
}

/// Potions the vault can hold.
#[derive(Clone, Copy, Debug, PartialEq, Eq, Structural, Hash)]
pub enum PotionKind {
    Healing,
    Frost,
    Levitation,
    ToxicGas,
    ParalyticGas,
    MindVision,
    LiquidFlame,
    Experience,
    Invisibility,
}

/// Seeds the vault can hold.
#[derive(Clone, Copy, Debug, PartialEq, Eq, Structural, Hash)]
pub enum SeedKind {
    Mageroyal,
    Icecap,
    Stormvine,
    Firebloom,
    Sorrowmoss,
    Blindweed,
    Swiftthistle,
    Sungrass,
    Earthroot,
    Starflower,
}

/// Scrolls the vault can hold.
#[derive(Clone, Copy, Debug, PartialEq, Eq, Structural, Hash)]
pub enum ScrollKind {
    MirrorImage,
    Teleportation,
    Recharging,
    Terror,
    Lullaby,
    MagicMapping,
    Retribution,
    Transmutation,
}

/// Runestones the vault can hold.
#[derive(Clone, Copy, Debug, PartialEq, Eq, Structural, Hash)]
pub enum StoneKind {
    Flock,
    Shock,
    Fear,
    DeepSleep,
    Clairvoyance,
    Aggression,
    Blast,
    Blink,
    Enchantment,
    Augmentation,
}

/// Food the vault can hold.
#[derive(Clone, Copy, Debug, PartialEq, Eq, Structural, Hash)]
pub enum FoodKind {
    Ration,
    Pasty,
    MysteryMeat,
}

/// A consumable whose identity is fixed by the depth stream.
#[derive(Clone, Copy, Debug, PartialEq, Eq, Structural, Hash)]
pub enum VaultConsumable {
    Potion(PotionKind),
    Seed(SeedKind),
    Scroll(ScrollKind),
    Stone(StoneKind),
}

/// Every item that can appear in a vault heap or in `itemsToSpawn`.
#[derive(Clone, Copy, Debug, PartialEq, Eq, Structural, Hash)]
pub enum VaultItem {
    Equipment(VaultEquipment),
    /// The plain dart stack of two queued when the vault is built.
    Dart,
    Consumable(VaultConsumable),
    /// A draw from one of the unseeded-shuffled consumable lists. `slot` is
    /// the position within the shuffled part of the list and `refill` counts
    /// how many times that list had been rebuilt, so draws stay distinct.
    ShuffledConsumable { tier: u8, refill: u8, slot: u8 },
    Food(FoodKind),
    DwarfToken,
    VaultBeacon,
    Torch,
    ImpStatue,
    /// The Imp's reward option with this index, emitted on the City floor.
    ImpRewardOption(u8),
}

/// Equipable items: everything but wands among the equipment, and darts.
pub open spec fn equipable(item: VaultItem) -> bool {
    match item {
        VaultItem::Equipment(equipment) => equipment.kind != VaultEquipmentKind::Wand,
        VaultItem::Dart => true,
        _ => false,
    }
}

impl VaultItem {
    /// The equipment this item is, if it is equipment.
    pub fn equipment(self) -> (equipment: Option<VaultEquipment>)
        ensures
            equipment == (match self {
                VaultItem::Equipment(equipment) => Some(equipment),
                _ => None,
            }),
    {
        match self {
            VaultItem::Equipment(equipment) => Some(equipment),
            _ => None,
        }
    }

    /// Whether the item is an equipable item.
    pub fn is_equipable(self) -> (result: bool)
        ensures
            result == equipable(self),
    {
        match self {
            VaultItem::Equipment(equipment) => equipment.is_equipable(),
            VaultItem::Dart => true,
            _ => false,
        }
    }
}

// ---------------------------------------------------------------------------
// Equipment tiers
// ---------------------------------------------------------------------------

/// Number of equipment tiers.
pub const TIER_COUNT: usize = 4;

/// Number of items rolled per tier.
pub const TIER_SLOTS: usize = 6;

/// Whether a rolled tier still holds an item.
pub open spec fn holds_item(slots: Option<Seq<Option<VaultEquipment>>>) -> bool {
    match slots {
        None => false,
        Some(items) => exists|i: int| 0 <= i < items.len() && (#[trigger] items[i]) is Some,
    }
}

/// The first held slot at or after `index`, wrapping around the six slots,
/// looking at most `fuel` slots ahead.
pub open spec fn next_held(items: Seq<Option<VaultEquipment>>, index: int, fuel: nat) -> int
    decreases fuel,
{
    if fuel == 0 || items[index] is Some {
        index
    } else {
        next_held(items, if index + 1 >= 6 {
            0
        } else {
            index + 1
        }, (fuel - 1) as nat)
    }
}

/// What handing out the next item of `tier` does to the loot: the tier's
/// cursor advances (wrapping past the last slot), the first held slot from
/// there on is emptied and its item handed out, and nothing else changes.
pub open spec fn equipment_handed(
    before: VaultEquipmentLoot,
    after: VaultEquipmentLoot,
    tier: usize,
    item: VaultEquipment,
) -> bool {
    &&& ({
            let start = if before.cursor(tier as int) >= 6 {
                0
            } else {
                before.cursor(tier as int) as int
            };
            let items = before.slots(tier as int).unwrap();
            let slot = next_held(items, start, 6);
            &&& 0 <= slot < 6
            &&& items[slot] == Some(item)
            &&& after.slots(tier as int) == Some(items.update(slot, None))
        })
    &&& after.cursor(tier as int) == (if before.cursor(tier as int) >= 6 {
            0
        } else {
            before.cursor(tier as int) + 1
        })
    &&& forall|t: int|
            0 <= t < 4 && t != tier ==> #[trigger] after.slots(t) == before.slots(t)
    &&& tier >= 2 ==> after.cursor(0) == before.cursor(0)
    &&& tier < 2 ==> after.cursor(2) == before.cursor(2)
    &&& after.classes() == before.classes()
}

/// What the tier-two solve-item lookup does: a Stone of Blink and a Potion
/// of Invisibility in a shuffled order, then the tier-three lookup.
pub open spec fn t2_found(before: Seq<VaultItem>, after: Seq<VaultItem>, found: Option<VaultItem>, states: Seq<u64>, states_after: Seq<u64>) -> bool {
    let items = before;
    let (order, state) = array_shuffle(
        seq![PrizeFilter::StoneOfBlink, PrizeFilter::PotionOfInvisibility],
        top(states),
        0,
    );
    let (again, last) = array_shuffle(
        seq![PrizeFilter::StoneOfBlink, PrizeFilter::PotionOfInvisibility],
        state,
        0,
    );
    match first_match(items, order[0]) {
        Some(index) => found == Some(items[index]) && after
            == items.remove(index) && states_after == with_top(states, state),
        None => match first_match(items, order[1]) {
            Some(index) => found == Some(items[index]) && after
                == items.remove(index) && states_after == with_top(
                states,
                state,
            ),
            None => states_after == with_top(states, last) && match first_match(
                items,
                again[0],
            ) {
                Some(index) => found == Some(items[index]) && after
                    == items.remove(index),
                None => match first_match(items, again[1]) {
                    Some(index) => found == Some(items[index]) && after
                        == items.remove(index),
                    None => found is None && after == items,
                },
            },
        },
    }
}

/// What taking the next consumable of `tier` does: the item at the front of
/// the tier's list, every empty list rebuilt first when that one is empty.
pub open spec fn consumable_taken(before: VaultConsumables, after: VaultConsumables, tier: usize, item: VaultItem, states: Seq<u64>, states_after: Seq<u64>) -> bool {
    let lists = before.current();
    if lists[tier as int].0.len() == 0 {
        let (fresh, recorded, state) = rebuilt(lists, top(states), 4);
        &&& item == fresh[tier as int].0[0]
        &&& after.lists_view() =~~= Some(
            fresh.update(tier as int, (fresh[tier as int].0.drop_first(), fresh[tier as int].1)),
        )
        &&& after.recorded() =~~= before.recorded() + recorded
        &&& states_after == with_top(states, state)
    } else {
        &&& item == lists[tier as int].0[0]
        &&& after.lists_view() =~~= Some(
            lists.update(tier as int, (lists[tier as int].0.drop_first(), lists[tier as int].1)),
        )
        &&& after.recorded() == before.recorded()
        &&& states_after == states
    }
}

/// The rolled equipment tiers and the two hand-out cursors: tiers 0 and 1
/// share the lower cursor, tiers 2 and 3 the higher one.
#[derive(Clone, Debug)]
pub struct VaultEquipmentLoot {
    tiers: Vec<Option<Vec<Option<VaultEquipment>>>>,
    lower_tier_index: usize,
    higher_tier_index: usize,
    generated_classes: Vec<ItemId>,
}

impl VaultEquipmentLoot {
    /// Four tiers of six slots each.
    pub closed spec fn wf(&self) -> bool {
        &&& self.tiers@.len() == TIER_COUNT
        &&& forall|t: int|
            0 <= t < 4 && (#[trigger] self.tiers@[t]) is Some ==> self.tiers@[t].unwrap()@.len()
                == TIER_SLOTS
    }

    /// The slots of a tier, if it was rolled.
    pub closed spec fn slots(&self, tier: int) -> Option<Seq<Option<VaultEquipment>>> {
        match self.tiers@[tier] {
            Some(items) => Some(items@),
            None => None,
        }
    }

    /// The hand-out cursor shared by `tier`.
    pub closed spec fn cursor(&self, tier: int) -> usize {
        if tier >= 2 {
            self.higher_tier_index
        } else {
            self.lower_tier_index
        }
    }

    /// The item classes rolled so far, which later tiers avoid repeating.
    pub closed spec fn classes(&self) -> Seq<ItemId> {
        self.generated_classes@
    }

    /// Nothing rolled yet.
    pub fn new() -> (loot: Self)
        ensures
            loot.wf(),
            forall|t: int| 0 <= t < 4 ==> #[trigger] loot.slots(t) is None,
            loot.cursor(0) == 0,
            loot.cursor(2) == 0,
            loot.classes().len() == 0,
    {
        let mut tiers: Vec<Option<Vec<Option<VaultEquipment>>>> = Vec::new();
        tiers.push(None);
        tiers.push(None);
        tiers.push(None);
        tiers.push(None);
        VaultEquipmentLoot {
            tiers,
            lower_tier_index: 0,
            higher_tier_index: 0,
            generated_classes: Vec::new(),
        }
    }

    /// Items still held by one tier, in slot order.
    pub fn tier(&self, tier: usize) -> (items: Option<&Vec<Option<VaultEquipment>>>)
        requires
            self.wf(),
            tier < TIER_COUNT,
        ensures
            match items {
                Some(items) => self.slots(tier as int) == Some(items@),
                None => self.slots(tier as int) is None,
            },
    {
        self.tiers[tier].as_ref()
    }

    /// Whether a tier is unset or fully handed out, so that setting up the
    /// equipment rolls it again.
    pub fn is_spent(&self, tier: usize) -> (result: bool)
        requires
            self.wf(),
            tier < TIER_COUNT,
        ensures
            result == !holds_item(self.slots(tier as int)),
    {
        match &self.tiers[tier] {
            None => true,
            Some(items) => {
                let mut i: usize = 0;
                assert(self.slots(tier as int) == Some(items@));
                while i < items.len()
                    invariant
                        i <= items@.len(),
                        self.slots(tier as int) == Some(items@),
                        forall|j: int| 0 <= j < i ==> (#[trigger] items@[j]) is None,
                    decreases items@.len() - i,
                {
                    if items[i].is_some() {
                        assert(self.slots(tier as int).unwrap()[i as int] is Some);
                        return false;
                    }
                    i = i + 1;
                }
                true
            },
        }
    }

    /// Whether an item class was already rolled.
    pub fn has_generated(&self, item: ItemId) -> (found: bool)
        ensures
            found == self.classes().contains(item),
    {
        let mut i: usize = 0;
        while i < self.generated_classes.len()
            invariant
                i <= self.generated_classes@.len(),
                forall|j: int| 0 <= j < i ==> self.generated_classes@[j] != item,
            decreases self.generated_classes@.len() - i,
        {
            if self.generated_classes[i] == item {
                return true;
            }
            i = i + 1;
        }
        false
    }

    /// Records a rolled item class.
    pub fn record_generated(&mut self, item: ItemId)
        requires
            old(self).wf(),
        ensures
            final(self).wf(),
            final(self).classes() == old(self).classes().push(item),
            forall|t: int| 0 <= t < 4 ==> #[trigger] final(self).slots(t) == old(self).slots(t),
            final(self).cursor(0) == old(self).cursor(0),
            final(self).cursor(2) == old(self).cursor(2),
    {
        self.generated_classes.push(item);
    }

    /// Stores the six freshly rolled items of a tier.
    pub fn install_tier(&mut self, tier: usize, items: Vec<VaultEquipment>)
        requires
            old(self).wf(),
            tier < TIER_COUNT,
            items@.len() == TIER_SLOTS,
        ensures
            final(self).wf(),
            final(self).slots(tier as int) == Some(
                Seq::new(6, |i: int| Some(items@[i])),
            ),
            forall|t: int|
                0 <= t < 4 && t != tier ==> #[trigger] final(self).slots(t) == old(self).slots(t),
            final(self).cursor(0) == old(self).cursor(0),
            final(self).cursor(2) == old(self).cursor(2),
            final(self).classes() == old(self).classes(),
    {
        let mut slots: Vec<Option<VaultEquipment>> = Vec::new();
        let mut i: usize = 0;
        while i < items.len()
            invariant
                i <= items@.len(),
                slots@ == Seq::new(i as nat, |j: int| Some(items@[j])),
            decreases items@.len() - i,
        {
            slots.push(Some(items[i]));
            i = i + 1;
        }
        self.tiers.set(tier, Some(slots));
    }

    /// Hands out the next item of a tier: the tier's cursor advances (and
    /// wraps to slot zero once past the last slot), then taken slots are
    /// skipped, wrapping around, until a held item is found and removed.
    pub fn create_equipment(&mut self, tier: usize) -> (item: VaultEquipment)
        requires
            old(self).wf(),
            tier < TIER_COUNT,
            holds_item(old(self).slots(tier as int)),
        ensures
            final(self).wf(),
            equipment_handed(*old(self), *final(self), tier, item),
    {
        let cursor = if tier >= 2 {
            self.higher_tier_index
        } else {
            self.lower_tier_index
        };
        let mut index = cursor;
        let next_cursor = if index >= 6 {
            index = 0;
            0
        } else {
            cursor + 1
        };
        if tier >= 2 {
            self.higher_tier_index = next_cursor;
        } else {
            self.lower_tier_index = next_cursor;
        }
        let mut items = self.tiers.remove(tier).unwrap();
        proof {
            assert(items@ == old(self).tiers@[tier as int].unwrap()@);
        }
        let ghost start = index as int;
        let ghost held = choose|i: int| 0 <= i < 6 && (#[trigger] items@[i]) is Some;
        let mut fuel: usize = 6;
        while items[index].is_none()
            invariant
                items@.len() == 6,
                index < 6,
                0 <= held < 6,
                items@[held] is Some,
                fuel <= 6,
                next_held(items@, start, 6) == next_held(items@, index as int, fuel as nat),
                // the distance still to walk to the held slot
                (if held >= index {
                    held - index
                } else {
                    held + 6 - index
                }) < fuel,
            decreases fuel,
        {
            index = index + 1;
            if index >= 6 {
                index = 0;
            }
            fuel = fuel - 1;
        }
        let item = items[index].unwrap();
        items.set(index, None);
        self.tiers.insert(tier, Some(items));
        proof {
            assert forall|t: int| 0 <= t < 4 && t != tier implies #[trigger] self.tiers@[t] == old(self).tiers@[t] by {
            }
        }
        item
    }
}

// ---------------------------------------------------------------------------
// Consumables
// ---------------------------------------------------------------------------

/// The choices of one seeded `Random.oneOf` pick of a consumable tier: the
/// potion, seed, scroll and stone of the tier, in that order.
pub open spec fn consumable_choices(tier: u8, pick: int) -> Seq<VaultConsumable> {
    if tier == 0 {
        if pick == 0 {
            seq![VaultConsumable::Potion(PotionKind::Frost), VaultConsumable::Potion(PotionKind::Levitation)]
        } else if pick == 1 {
            seq![VaultConsumable::Seed(SeedKind::Mageroyal), VaultConsumable::Seed(SeedKind::Icecap), VaultConsumable::Seed(SeedKind::Stormvine)]
        } else if pick == 2 {
            seq![VaultConsumable::Scroll(ScrollKind::MirrorImage), VaultConsumable::Scroll(ScrollKind::Teleportation)]
        } else {
            seq![VaultConsumable::Stone(StoneKind::Flock), VaultConsumable::Stone(StoneKind::Shock), VaultConsumable::Stone(StoneKind::Fear)]
        }
    } else if tier == 1 {
        if pick == 0 {
            seq![VaultConsumable::Potion(PotionKind::ToxicGas), VaultConsumable::Potion(PotionKind::ParalyticGas)]
        } else if pick == 1 {
            seq![VaultConsumable::Seed(SeedKind::Firebloom), VaultConsumable::Seed(SeedKind::Sorrowmoss), VaultConsumable::Seed(SeedKind::Blindweed)]
        } else if pick == 2 {
            seq![VaultConsumable::Scroll(ScrollKind::Recharging), VaultConsumable::Scroll(ScrollKind::Terror)]
        } else {
            seq![VaultConsumable::Stone(StoneKind::DeepSleep), VaultConsumable::Stone(StoneKind::Clairvoyance), VaultConsumable::Stone(StoneKind::Aggression)]
        }
    } else if tier == 2 {
        if pick == 0 {
            seq![VaultConsumable::Potion(PotionKind::MindVision), VaultConsumable::Potion(PotionKind::LiquidFlame)]
        } else if pick == 1 {
            seq![VaultConsumable::Seed(SeedKind::Swiftthistle), VaultConsumable::Seed(SeedKind::Sungrass)]
        } else if pick == 2 {
            seq![VaultConsumable::Scroll(ScrollKind::Lullaby), VaultConsumable::Scroll(ScrollKind::MagicMapping)]
        } else {
            seq![VaultConsumable::Stone(StoneKind::Blast), VaultConsumable::Stone(StoneKind::Blink)]
        }
    } else {
        if pick == 0 {
            seq![VaultConsumable::Potion(PotionKind::Experience), VaultConsumable::Potion(PotionKind::Invisibility)]
        } else if pick == 1 {
            seq![VaultConsumable::Seed(SeedKind::Earthroot), VaultConsumable::Seed(SeedKind::Starflower)]
        } else if pick == 2 {
            seq![VaultConsumable::Scroll(ScrollKind::Retribution), VaultConsumable::Scroll(ScrollKind::Transmutation)]
        } else {
            seq![VaultConsumable::Stone(StoneKind::Enchantment), VaultConsumable::Stone(StoneKind::Augmentation)]
        }
    }
}

/// The first `count` seeded picks of a consumable tier drawn from `state`,
/// with the state they leave behind.
pub open spec fn consumable_picks(tier: u8, state: u64, count: nat) -> (Seq<VaultConsumable>, u64)
    decreases count,
{
    if count == 0 {
        (Seq::empty(), state)
    } else {
        let (earlier, after) = consumable_picks(tier, state, (count - 1) as nat);
        let choices = consumable_choices(tier, count - 1);
        let drawn = int_bound_from(after, choices.len() as i32);
        (earlier.push(choices[drawn.0 as int]), drawn.1)
    }
}

/// The fresh contents of a consumable list: the healing potion for tiers 0–2,
/// then four (five for tier 3) opaque shuffled slots.
pub open spec fn fresh_list(tier: u8, refill: u8) -> Seq<VaultItem> {
    let shuffled = Seq::new(
        if tier == 3 {
            5nat
        } else {
            4nat
        },
        |slot: int| VaultItem::ShuffledConsumable { tier, refill, slot: slot as u8 },
    );
    if tier < 3 {
        seq![VaultItem::Consumable(VaultConsumable::Potion(PotionKind::Healing))] + shuffled
    } else {
        shuffled
    }
}

/// One consumable list and how many times it was rebuilt.
#[derive(Clone, Debug)]
struct ConsumableList {
    remaining: Vec<VaultItem>,
    refills: u8,
}

/// The vault's four consumable lists.
#[derive(Clone, Debug)]
pub struct VaultConsumables {
    lists: Option<Vec<ConsumableList>>,
    /// Seeded picks made while building each list, in draw order, for
    /// diagnostics; their placement inside the shuffled list is not
    /// reproducible.
    pub rolled: Vec<(u8, VaultConsumable)>,
}

/// One seeded `Random.oneOf` pick.
fn one_of(choices: &[VaultConsumable], random: &mut RandomStack) -> (choice: VaultConsumable)
    requires
        old(random).wf(),
        0 < choices@.len() <= 3,
    ensures
        final(random).wf(),
        final(random)@ == with_top(
            old(random)@,
            int_bound_from(top(old(random)@), choices@.len() as i32).1,
        ),
        choice == choices@[int_bound_from(top(old(random)@), choices@.len() as i32).0 as int],
{
    let index = random.int_bound(choices.len() as i32);
    choices[index as usize]
}

/// The four seeded picks of one consumable tier.
fn roll_consumable_tier(tier: u8, random: &mut RandomStack) -> (picks: Vec<VaultConsumable>)
    requires
        old(random).wf(),
        tier < 4,
    ensures
        final(random).wf(),
        (picks@, top(final(random)@)) == consumable_picks(tier, top(old(random)@), 4),
        final(random)@ == with_top(old(random)@, top(final(random)@)),
{
    let mut picks: Vec<VaultConsumable> = Vec::new();
    let ghost start = random@;
    proof {
        random.lemma_wf_view();
        assert(start =~= with_top(start, top(start)));
    }
    let mut pick: usize = 0;
    while pick < 4
        invariant
            pick <= 4,
            tier < 4,
            random.wf(),
            start.len() >= 1,
            (picks@, top(random@)) == consumable_picks(tier, top(start), pick as nat),
            random@ == with_top(start, top(random@)),
        decreases 4 - pick,
    {
        let choices = choices_of(tier, pick);
        let ghost before = random@;
        let choice = one_of(choices.as_slice(), random);
        proof {
            assert(random@ =~= with_top(start, top(random@)));
        }
        picks.push(choice);
        pick = pick + 1;
    }
    picks
}

/// The choices of one seeded pick of a consumable tier.
fn choices_of(tier: u8, pick: usize) -> (choices: Vec<VaultConsumable>)
    requires
        tier < 4,
        pick < 4,
    ensures
        choices@ == consumable_choices(tier, pick as int),
        0 < choices@.len() <= 3,
{
    let choices = if tier == 0 {
        if pick == 0 {
            vec![VaultConsumable::Potion(PotionKind::Frost), VaultConsumable::Potion(PotionKind::Levitation)]
        } else if pick == 1 {
            vec![VaultConsumable::Seed(SeedKind::Mageroyal), VaultConsumable::Seed(SeedKind::Icecap), VaultConsumable::Seed(SeedKind::Stormvine)]
        } else if pick == 2 {
            vec![VaultConsumable::Scroll(ScrollKind::MirrorImage), VaultConsumable::Scroll(ScrollKind::Teleportation)]
        } else {
            vec![VaultConsumable::Stone(StoneKind::Flock), VaultConsumable::Stone(StoneKind::Shock), VaultConsumable::Stone(StoneKind::Fear)]
        }
    } else if tier == 1 {
        if pick == 0 {
            vec![VaultConsumable::Potion(PotionKind::ToxicGas), VaultConsumable::Potion(PotionKind::ParalyticGas)]
        } else if pick == 1 {
            vec![VaultConsumable::Seed(SeedKind::Firebloom), VaultConsumable::Seed(SeedKind::Sorrowmoss), VaultConsumable::Seed(SeedKind::Blindweed)]
        } else if pick == 2 {
            vec![VaultConsumable::Scroll(ScrollKind::Recharging), VaultConsumable::Scroll(ScrollKind::Terror)]
        } else {
            vec![VaultConsumable::Stone(StoneKind::DeepSleep), VaultConsumable::Stone(StoneKind::Clairvoyance), VaultConsumable::Stone(StoneKind::Aggression)]
        }
    } else if tier == 2 {
        if pick == 0 {
            vec![VaultConsumable::Potion(PotionKind::MindVision), VaultConsumable::Potion(PotionKind::LiquidFlame)]
        } else if pick == 1 {
            vec![VaultConsumable::Seed(SeedKind::Swiftthistle), VaultConsumable::Seed(SeedKind::Sungrass)]
        } else if pick == 2 {
            vec![VaultConsumable::Scroll(ScrollKind::Lullaby), VaultConsumable::Scroll(ScrollKind::MagicMapping)]
        } else {
            vec![VaultConsumable::Stone(StoneKind::Blast), VaultConsumable::Stone(StoneKind::Blink)]
        }
    } else {
        if pick == 0 {
            vec![VaultConsumable::Potion(PotionKind::Experience), VaultConsumable::Potion(PotionKind::Invisibility)]
        } else if pick == 1 {
            vec![VaultConsumable::Seed(SeedKind::Earthroot), VaultConsumable::Seed(SeedKind::Starflower)]
        } else if pick == 2 {
            vec![VaultConsumable::Scroll(ScrollKind::Retribution), VaultConsumable::Scroll(ScrollKind::Transmutation)]
        } else {
            vec![VaultConsumable::Stone(StoneKind::Enchantment), VaultConsumable::Stone(StoneKind::Augmentation)]
        }
    };
    proof {
        assert(choices@ =~= consumable_choices(tier, pick as int));
    }
    choices
}

/// The refill counter after one more rebuild.
pub open spec fn next_refill(refill: u8) -> u8 {
    if refill == 255 {
        0
    } else {
        (refill + 1) as u8
    }
}

/// Drawing `count` picks yields `count` consumables.
proof fn lemma_picks_len(tier: u8, state: u64, count: nat)
    ensures
        consumable_picks(tier, state, count).0.len() == count,
    decreases count,
{
    if count > 0 {
        lemma_picks_len(tier, state, (count - 1) as nat);
    }
}

/// Rebuilding keeps four lists, fills every list it visits, and leaves the
/// others alone.
proof fn lemma_rebuilt_shape(lists: Seq<(Seq<VaultItem>, u8)>, state: u64, t: nat)
    requires
        lists.len() == 4,
        t <= 4,
    ensures
        rebuilt(lists, state, t).0.len() == 4,
        forall|k: int| 0 <= k < t ==> (#[trigger] rebuilt(lists, state, t).0[k]).0.len() > 0,
        forall|k: int| t <= k < 4 ==> #[trigger] rebuilt(lists, state, t).0[k] == lists[k],
        forall|k: int|
            0 <= k < t && lists[k].0.len() > 0 ==> #[trigger] rebuilt(lists, state, t).0[k]
                == lists[k],
    decreases t,
{
    if t > 0 {
        lemma_rebuilt_shape(lists, state, (t - 1) as nat);
    }
}

/// Four untouched lists.
pub open spec fn unbuilt_lists() -> Seq<(Seq<VaultItem>, u8)> {
    Seq::new(4, |t: int| (Seq::<VaultItem>::empty(), 0u8))
}

/// Rebuilding the empty lists among the first `t` tiers, in tier order:
/// the lists afterwards, the picks recorded, and the generator state left.
pub open spec fn rebuilt(lists: Seq<(Seq<VaultItem>, u8)>, state: u64, t: nat) -> (
    Seq<(Seq<VaultItem>, u8)>,
    Seq<(u8, VaultConsumable)>,
    u64,
)
    decreases t,
{
    if t == 0 {
        (lists, Seq::empty(), state)
    } else {
        let (earlier, recorded, after) = rebuilt(lists, state, (t - 1) as nat);
        let tier = (t - 1) as u8;
        if earlier[tier as int].0.len() == 0 {
            let (picks, next) = consumable_picks(tier, after, 4);
            let refill = earlier[tier as int].1;
            (
                earlier.update(tier as int, (fresh_list(tier, refill), next_refill(refill))),
                recorded + picks.map_values(|pick: VaultConsumable| (tier, pick)),
                next,
            )
        } else {
            (earlier, recorded, after)
        }
    }
}

impl VaultConsumables {
    /// The four lists with their rebuild counters, once built.
    pub closed spec fn lists_view(&self) -> Option<Seq<(Seq<VaultItem>, u8)>> {
        match self.lists {
            None => None,
            Some(lists) => Some(
                lists@.map_values(|list: ConsumableList| (list.remaining@, list.refills)),
            ),
        }
    }

    /// The lists as `createConsumable` sees them: untouched until first built.
    pub open spec fn current(&self) -> Seq<(Seq<VaultItem>, u8)> {
        match self.lists_view() {
            None => unbuilt_lists(),
            Some(lists) => lists,
        }
    }

    /// The seeded picks recorded so far.
    pub closed spec fn recorded(&self) -> Seq<(u8, VaultConsumable)> {
        self.rolled@
    }

    /// Four lists once built.
    pub closed spec fn wf(&self) -> bool {
        match self.lists {
            None => true,
            Some(lists) => lists@.len() == 4,
        }
    }

    /// Nothing built and nothing rolled.
    pub fn new() -> (consumables: Self)
        ensures
            consumables.wf(),
            consumables.lists_view() is None,
            consumables.recorded().len() == 0,
    {
        VaultConsumables { lists: None, rolled: Vec::new() }
    }

    /// Every empty list is rebuilt, in tier order, from the current generator.
    fn setup(&mut self, random: &mut RandomStack)
        requires
            old(self).wf(),
            old(random).wf(),
        ensures
            final(self).wf(),
            final(random).wf(),
            ({
                let (lists, recorded, state) = rebuilt(old(self).current(), top(old(random)@), 4);
                &&& final(self).lists_view() == Some(lists)
                &&& final(self).recorded() == old(self).recorded() + recorded
                &&& final(random)@ == with_top(old(random)@, state)
            }),
    {
        let mut lists: Vec<ConsumableList> = match self.lists.take() {
            Some(lists) => lists,
            None => {
                let mut fresh: Vec<ConsumableList> = Vec::new();
                let mut t: usize = 0;
                while t < 4
                    invariant
                        t <= 4,
                        fresh@.len() == t,
                        forall|i: int|
                            0 <= i < t ==> (#[trigger] fresh@[i]).remaining@.len() == 0
                                && fresh@[i].refills == 0,
                    decreases 4 - t,
                {
                    fresh.push(ConsumableList { remaining: Vec::new(), refills: 0 });
                    t = t + 1;
                }
                proof {
                    assert forall|i: int| 0 <= i < 4 implies (#[trigger] fresh@[i]).remaining@
                        =~= Seq::<VaultItem>::empty() by {}
                    assert(fresh@.map_values(|list: ConsumableList| (list.remaining@, list.refills))
                        =~= unbuilt_lists());
                }
                fresh
            },
        };
        let ghost initial = old(self).current();
        let ghost start = random@;
        proof {
            random.lemma_wf_view();
            assert(start =~= with_top(start, top(start)));
            assert(lists@.map_values(|list: ConsumableList| (list.remaining@, list.refills)) =~= initial);
        }
        let mut tier: u8 = 0;
        while tier < 4
            invariant
                tier <= 4,
                lists@.len() == 4,
                random.wf(),
                start.len() >= 1,
                ({
                    let (expected, recorded, state) = rebuilt(initial, top(start), tier as nat);
                    &&& lists@.map_values(|list: ConsumableList| (list.remaining@, list.refills))
                        == expected
                    &&& self.rolled@ == old(self).rolled@ + recorded
                    &&& random@ == with_top(start, state)
                }),
            decreases 4 - tier,
        {
            let ghost before_lists = lists@.map_values(|list: ConsumableList| (list.remaining@, list.refills));
            let ghost before_rolled = self.rolled@;
            let mut list = lists.remove(tier as usize);
            if list.remaining.len() == 0 {
                let ghost before_random = random@;
                let picks = roll_consumable_tier(tier, random);
                let mut k: usize = 0;
                while k < picks.len()
                    invariant
                        k <= picks@.len(),
                        self.rolled@ == before_rolled + picks@.take(k as int).map_values(
                            |pick: VaultConsumable| (tier, pick),
                        ),
                    decreases picks@.len() - k,
                {
                    self.rolled.push((tier, picks[k]));
                    proof {
                        assert(picks@.take((k + 1) as int).map_values(|pick: VaultConsumable| (tier, pick))
                            =~= picks@.take(k as int).map_values(|pick: VaultConsumable| (tier, pick)).push((tier, picks@[k as int])));
                    }
                    k = k + 1;
                }
                proof {
                    lemma_picks_len(tier, top(before_random), 4);
                    assert(picks@.take(4) =~= picks@);
                    assert(random@ =~= with_top(start, top(random@)));
                }
                let refill = list.refills;
                list.refills = list.refills.wrapping_add(1);
                let mut remaining: Vec<VaultItem> = Vec::new();
                if tier < 3 {
                    remaining.push(VaultItem::Consumable(VaultConsumable::Potion(PotionKind::Healing)));
                }
                let count: u8 = if tier == 3 {
                    5
                } else {
                    4
                };
                let ghost prefix = remaining@;
                let mut slot: u8 = 0;
                while slot < count
                    invariant
                        slot <= count,
                        count == (if tier == 3 { 5u8 } else { 4u8 }),
                        remaining@ == prefix + Seq::new(
                            slot as nat,
                            |i: int| VaultItem::ShuffledConsumable { tier, refill, slot: i as u8 },
                        ),
                    decreases count - slot,
                {
                    remaining.push(VaultItem::ShuffledConsumable { tier, refill, slot });
                    proof {
                        assert(remaining@ =~= prefix + Seq::new(
                            (slot + 1) as nat,
                            |i: int| VaultItem::ShuffledConsumable { tier, refill, slot: i as u8 },
                        ));
                    }
                    slot = slot + 1;
                }
                proof {
                    assert(remaining@ =~= fresh_list(tier, refill));
                }
                list.remaining = remaining;
            }
            lists.insert(tier as usize, list);
            proof {
                assert(lists@.map_values(|list: ConsumableList| (list.remaining@, list.refills))
                    =~= rebuilt(initial, top(start), (tier + 1) as nat).0);
            }
            tier = tier + 1;
        }
        self.lists = Some(lists);
    }

    /// Takes the next item of a tier's list, rebuilding every empty list
    /// first when that one is empty.
    pub fn create_consumable(&mut self, tier: usize, random: &mut RandomStack) -> (item: VaultItem)
        requires
            old(self).wf(),
            old(random).wf(),
            tier < 4,
        ensures
            final(self).wf(),
            final(random).wf(),
            ({
                let lists = old(self).current();
                if lists[tier as int].0.len() == 0 {
                    let (fresh, recorded, state) = rebuilt(lists, top(old(random)@), 4);
                    &&& item == fresh[tier as int].0[0]
                    &&& final(self).lists_view() == Some(
                        fresh.update(tier as int, (fresh[tier as int].0.drop_first(), fresh[tier as int].1)),
                    )
                    &&& final(self).recorded() == old(self).recorded() + recorded
                    &&& final(random)@ == with_top(old(random)@, state)
                } else {
                    &&& item == lists[tier as int].0[0]
                    &&& final(self).lists_view() == Some(
                        lists.update(tier as int, (lists[tier as int].0.drop_first(), lists[tier as int].1)),
                    )
                    &&& final(self).recorded() == old(self).recorded()
                    &&& final(random)@ == old(random)@
                }
            }),
            consumable_taken(*old(self), *final(self), tier, item, old(random)@, final(random)@),
    {
        proof {
            lemma_rebuilt_shape(old(self).current(), top(old(random)@), 4);
        }
        let empty = match &self.lists {
            None => true,
            Some(lists) => lists[tier].remaining.len() == 0,
        };
        if empty {
            self.setup(random);
        }
        let mut lists = self.lists.take().unwrap();
        let mut list = lists.remove(tier);
        let item = list.remaining.remove(0);
        lists.insert(tier, list);
        self.lists = Some(lists);
        item
    }
}

impl Default for VaultConsumables {
    fn default() -> (consumables: Self)
        ensures
            consumables.wf(),
            consumables.lists_view() is None,
            consumables.recorded().len() == 0,
    {
        VaultConsumables::new()
    }
}

// ---------------------------------------------------------------------------
// The spawn queue
// ---------------------------------------------------------------------------

/// A class filter for the prize lookups.
#[derive(Clone, Copy, Debug, PartialEq, Eq, Structural)]
pub enum PrizeFilter {
    Equipable,
    StoneOfBlink,
    PotionOfInvisibility,
}

/// Whether an item belongs to a prize class.
pub open spec fn prize_matches(filter: PrizeFilter, item: VaultItem) -> bool {
    match filter {
        PrizeFilter::Equipable => equipable(item),
        PrizeFilter::StoneOfBlink => item == VaultItem::Consumable(
            VaultConsumable::Stone(StoneKind::Blink),
        ),
        PrizeFilter::PotionOfInvisibility => item == VaultItem::Consumable(
            VaultConsumable::Potion(PotionKind::Invisibility),
        ),
    }
}

impl PrizeFilter {
    /// Whether an item belongs to this class.
    pub fn matches(self, item: VaultItem) -> (result: bool)
        ensures
            result == prize_matches(self, item),
    {
        match self {
            PrizeFilter::Equipable => item.is_equipable(),
            PrizeFilter::StoneOfBlink => item == VaultItem::Consumable(
                VaultConsumable::Stone(StoneKind::Blink),
            ),
            PrizeFilter::PotionOfInvisibility => item == VaultItem::Consumable(
                VaultConsumable::Potion(PotionKind::Invisibility),
            ),
        }
    }
}

/// The first position of an item of a prize class, if any.
pub open spec fn first_match(items: Seq<VaultItem>, filter: PrizeFilter) -> Option<int> {
    if exists|i: int| 0 <= i < items.len() && prize_matches(filter, #[trigger] items[i]) {
        Some(
            choose|i: int|
                0 <= i < items.len() && prize_matches(filter, #[trigger] items[i]) && forall|j: int|
                    0 <= j < i ==> !prize_matches(filter, #[trigger] items[j]),
        )
    } else {
        None
    }
}

/// The items queued to spawn on the vault floor, with the prize lookups.
#[derive(Clone, Debug)]
pub struct VaultSpawnQueue {
    pub items: Vec<VaultItem>,
}

impl Default for VaultSpawnQueue {
    fn default() -> (queue: Self)
        ensures
            queue.items@.len() == 0,
    {
        VaultSpawnQueue { items: Vec::new() }
    }
}

impl VaultSpawnQueue {
    /// Queues an item.
    pub fn add(&mut self, item: VaultItem)
        ensures
            final(self).items@ == old(self).items@.push(item),
    {
        self.items.push(item);
    }

    /// Removes and returns the first queued item of a prize class.
    pub fn find_prize_item(&mut self, filter: PrizeFilter) -> (found: Option<VaultItem>)
        ensures
            match first_match(old(self).items@, filter) {
                None => found is None && final(self).items@ == old(self).items@,
                Some(index) => found == Some(old(self).items@[index]) && final(self).items@
                    == old(self).items@.remove(index),
            },
    {
        let mut i: usize = 0;
        while i < self.items.len()
            invariant
                i <= self.items@.len(),
                self.items@ == old(self).items@,
                forall|j: int| 0 <= j < i ==> !prize_matches(filter, #[trigger] self.items@[j]),
            decreases self.items@.len() - i,
        {
            if filter.matches(self.items[i]) {
                proof {
                    let items = self.items@;
                    assert(prize_matches(filter, items[i as int]));
                    let chosen = first_match(items, filter).unwrap();
                    if chosen != i {
                        if chosen < i {
                            assert(!prize_matches(filter, items[chosen]));
                        } else {
                            assert(!prize_matches(filter, items[i as int]));
                        }
                    }
                }
                let item = self.items.remove(i);
                return Some(item);
            }
            i = i + 1;
        }
        None
    }

    /// Removes and returns a random queued item, if any.
    pub fn find_random_prize_item(&mut self, random: &mut RandomStack) -> (found: Option<VaultItem>)
        requires
            old(random).wf(),
            old(self).items@.len() <= i32::MAX,
        ensures
            final(random).wf(),
            old(self).items@.len() == 0 ==> found is None && final(self).items@ == old(self).items@
                && final(random)@ == old(random)@,
            old(self).items@.len() > 0 ==> ({
                let drawn = int_bound_from(top(old(random)@), old(self).items@.len() as i32);
                &&& found == Some(old(self).items@[drawn.0 as int])
                &&& final(self).items@ == old(self).items@.remove(drawn.0 as int)
                &&& final(random)@ == with_top(old(random)@, drawn.1)
            }),
    {
        if self.items.len() == 0 {
            return None;
        }
        let index = random.int_bound(self.items.len() as i32);
        Some(self.items.remove(index as usize))
    }

    /// Looks for a Stone of Blink and a Potion of Invisibility in an order
    /// shuffled by the current generator, returning the first found.
    pub fn find_t3_solve_item(&mut self, random: &mut RandomStack) -> (found: Option<VaultItem>)
        requires
            old(random).wf(),
        ensures
            final(random).wf(),
            ({
                let (order, state) = array_shuffle(
                    seq![PrizeFilter::StoneOfBlink, PrizeFilter::PotionOfInvisibility],
                    top(old(random)@),
                    0,
                );
                &&& final(random)@ == with_top(old(random)@, state)
                &&& match first_match(old(self).items@, order[0]) {
                    Some(index) => found == Some(old(self).items@[index]) && final(self).items@
                        == old(self).items@.remove(index),
                    None => match first_match(old(self).items@, order[1]) {
                        Some(index) => found == Some(old(self).items@[index]) && final(self).items@
                            == old(self).items@.remove(index),
                        None => found is None && final(self).items@ == old(self).items@,
                    },
                }
            }),
    {
        let mut order = [PrizeFilter::StoneOfBlink, PrizeFilter::PotionOfInvisibility];
        proof {
            assert(order@ =~= seq![PrizeFilter::StoneOfBlink, PrizeFilter::PotionOfInvisibility]);
        }
        random.shuffle_array(&mut order);
        let first = order[0];
        let second = order[1];
        match self.find_prize_item(first) {
            Some(item) => Some(item),
            None => self.find_prize_item(second),
        }
    }

    /// The same two lookups, then the tier-three lookup as a fallback.
    pub fn find_t2_solve_item(&mut self, random: &mut RandomStack) -> (found: Option<VaultItem>)
        requires
            old(random).wf(),
        ensures
            final(random).wf(),
            t2_found(old(self).items@, final(self).items@, found, old(random)@, final(random)@),
    {
        proof {
            random.lemma_wf_view();
        }
        let mut order = [PrizeFilter::StoneOfBlink, PrizeFilter::PotionOfInvisibility];
        proof {
            assert(order@ =~= seq![PrizeFilter::StoneOfBlink, PrizeFilter::PotionOfInvisibility]);
        }
        random.shuffle_array(&mut order);
        let first = order[0];
        let second = order[1];
        if let Some(item) = self.find_prize_item(first) {
            return Some(item);
        }
        if let Some(item) = self.find_prize_item(second) {
            return Some(item);
        }
        let ghost middle = random@;
        let found = self.find_t3_solve_item(random);
        proof {
            assert(with_top(middle, top(random@)) =~= with_top(old(random)@, top(random@)));
        }
        found
    }
}

} // verus!
