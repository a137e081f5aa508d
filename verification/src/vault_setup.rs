//! Rolling one tier of vault equipment (`VaultLevel.setupEquipmentAtTier`)
//! as a sequence of verified steps.
//!
//! A tier holds two melee weapons, a thrown weapon, the tier's armor class, a
//! wand and a ring. Each class is drawn with the generator's default weights
//! and rejected while it repeats a class rolled before; the weapons and the
//! armor then keep or lose their enchantment on `Random.Int(3) >= tier`. The
//! weighted draws (the class roll and the rarity of a new enchantment) are
//! made by the caller on the same generator and handed in; every other draw
//! and every decision is made here.

use vstd::prelude::*;

use crate::catalog::{ArmorEffect, Effect, ItemId, WeaponEffect};
use crate::rng::{int_bound_from, top, with_top, RandomStack};
use crate::vault_loot::{holds_item, VaultEquipment, VaultEquipmentKind, VaultEquipmentLoot};

verus! {

/// A generator category that a vault tier rolls a class from.
#[derive(Clone, Copy, Debug, PartialEq, Eq, Structural)]
pub enum VaultCategory {
    /// Melee weapons of the given weapon tier (2 to 5).
    Weapon(u8),
    /// Thrown weapons of the given weapon tier (2 to 5).
    Missile(u8),
    Wand,
    Ring,
}

/// What the caller has to draw next for a tier being rolled.
#[derive(Clone, Copy, Debug, PartialEq, Eq, Structural)]
pub enum SetupRequest {
    /// Roll a class of this category with its default weights and offer it.
    Candidate(VaultCategory),
    /// Draw an enchantment rarity with `Random.chances({50, 40, 10})`.
    WeaponRarity,
    /// Draw a glyph rarity with `Random.chances({50, 40, 10})`.
    ArmorRarity,
    /// The tier is rolled and stored.
    Done,
}

/// Catalog facts the tier rolls depend on.
#[derive(Clone, Copy, Debug)]
pub struct VaultClassRules {
    /// The armor class of each tier: leather, mail, scale, plate.
    pub armor_classes: [ItemId; 4],
    /// Wands a vault never holds: regrowth, transfusion, corruption.
    pub excluded_wands: [ItemId; 3],
    /// Rings a vault never holds: wealth, might, force.
    pub excluded_rings: [ItemId; 3],
}

/// Where the roll of a tier stands.
#[derive(Clone, Copy, Debug, PartialEq, Eq, Structural)]
pub enum Awaiting {
    Candidate,
    /// An accepted weapon class waits for its enchantment's rarity; the
    /// effect it was rolled with is the one a new enchantment avoids.
    WeaponRarity(ItemId, Option<WeaponEffect>),
    ArmorRarity,
    Done,
}

/// One tier being rolled: the items finished so far, in slot order.
pub struct TierSetup {
    tier: usize,
    items: Vec<VaultEquipment>,
    awaiting: Awaiting,
}

/// Melee tier of the first weapon of each vault tier.
pub open spec fn first_weapon_tier(tier: int) -> u8 {
    if tier <= 1 {
        2
    } else {
        (tier + 1) as u8
    }
}

/// The category the slot `stage` of a tier rolls from.
pub open spec fn slot_category(tier: int, stage: int) -> VaultCategory {
    if stage == 0 {
        VaultCategory::Weapon(first_weapon_tier(tier))
    } else if stage == 1 {
        VaultCategory::Weapon((tier + 2) as u8)
    } else if stage == 2 {
        VaultCategory::Missile((tier + 2) as u8)
    } else if stage == 4 {
        VaultCategory::Wand
    } else {
        VaultCategory::Ring
    }
}

/// Whether a rolled class is kept for slot `stage`: the first weapon may
/// repeat an earlier class in tiers 0 and 1, the second in tier 0; the thrown
/// weapon never; wands and rings never, nor the excluded ones.
pub open spec fn accepts(
    rules: VaultClassRules,
    classes: Seq<ItemId>,
    tier: int,
    stage: int,
    item: ItemId,
) -> bool {
    if stage == 0 {
        !(tier > 1 && classes.contains(item))
    } else if stage == 1 {
        !(tier > 0 && classes.contains(item))
    } else if stage == 2 {
        !classes.contains(item)
    } else if stage == 4 {
        !classes.contains(item) && !rules.excluded_wands@.contains(item)
    } else {
        !classes.contains(item) && !rules.excluded_rings@.contains(item)
    }
}

/// The finished item of slot `stage`.
pub open spec fn slot_item(tier: int, stage: int, item: ItemId, effect: Option<Effect>) -> VaultEquipment {
    VaultEquipment {
        kind: if stage <= 1 {
            VaultEquipmentKind::MeleeWeapon
        } else if stage == 2 {
            VaultEquipmentKind::ThrownWeapon
        } else if stage == 3 {
            VaultEquipmentKind::Armor
        } else if stage == 4 {
            VaultEquipmentKind::Wand
        } else {
            VaultEquipmentKind::Ring
        },
        item,
        upgrade: if stage == 0 && tier > 0 {
            (tier + 1) as u8
        } else {
            tier as u8
        },
        effect,
        quantity: if stage == 2 {
            3
        } else {
            1
        },
    }
}

/// The common, uncommon and rare enchantments.
pub open spec fn weapon_table(rarity: int) -> Seq<WeaponEffect> {
    if rarity == 1 {
        seq![
            WeaponEffect::Blocking,
            WeaponEffect::Blooming,
            WeaponEffect::Eldritch,
            WeaponEffect::Elastic,
            WeaponEffect::Lucky,
            WeaponEffect::Projecting,
            WeaponEffect::Unstable,
            WeaponEffect::Vorpal,
        ]
    } else if rarity == 2 {
        seq![WeaponEffect::Corrupting, WeaponEffect::Crystal, WeaponEffect::Grim, WeaponEffect::Vampiric]
    } else {
        seq![
            WeaponEffect::Blazing,
            WeaponEffect::Chilling,
            WeaponEffect::Kinetic,
            WeaponEffect::Shocking,
            WeaponEffect::Venomous,
        ]
    }
}

/// The common, uncommon and rare glyphs.
pub open spec fn armor_table(rarity: int) -> Seq<ArmorEffect> {
    if rarity == 1 {
        seq![
            ArmorEffect::Brimstone,
            ArmorEffect::Stone,
            ArmorEffect::Entanglement,
            ArmorEffect::Repulsion,
            ArmorEffect::Camouflage,
            ArmorEffect::Flow,
        ]
    } else if rarity == 2 {
        seq![ArmorEffect::Affection, ArmorEffect::AntiMagic, ArmorEffect::Thorns]
    } else {
        seq![ArmorEffect::Obfuscation, ArmorEffect::Swiftness, ArmorEffect::Viscosity, ArmorEffect::Potential]
    }
}

/// A rarity table without the effect to avoid.
pub open spec fn without(table: Seq<WeaponEffect>, ignore: Option<WeaponEffect>) -> Seq<WeaponEffect> {
    table.filter(|effect: WeaponEffect| ignore != Some(effect))
}

/// The state of a tier roll: rolled classes, finished items, what is
/// awaited, and the generator stack.
pub struct SetupModel {
    pub classes: Seq<ItemId>,
    pub items: Seq<VaultEquipment>,
    pub awaiting: Awaiting,
    pub states: Seq<u64>,
}

/// After a slot is finished: the armor slot follows the thrown weapon at once
/// (its class recorded, then the keep-or-enchant draw), the tier is done after
/// six items, and otherwise the next class is awaited.
pub open spec fn after_slot(
    rules: VaultClassRules,
    tier: int,
    classes: Seq<ItemId>,
    items: Seq<VaultEquipment>,
    states: Seq<u64>,
) -> SetupModel {
    if items.len() == 3 {
        let armor_class = rules.armor_classes@[tier];
        let drawn = int_bound_from(top(states), 3);
        let states1 = with_top(states, drawn.1);
        if drawn.0 >= tier {
            SetupModel {
                classes: classes.push(armor_class),
                items: items.push(slot_item(tier, 3, armor_class, None)),
                awaiting: Awaiting::Candidate,
                states: states1,
            }
        } else {
            SetupModel {
                classes: classes.push(armor_class),
                items,
                awaiting: Awaiting::ArmorRarity,
                states: states1,
            }
        }
    } else if items.len() == 6 {
        SetupModel { classes, items, awaiting: Awaiting::Done, states }
    } else {
        SetupModel { classes, items, awaiting: Awaiting::Candidate, states }
    }
}

/// What offering a rolled class does, when a class is awaited.
pub open spec fn after_candidate(
    rules: VaultClassRules,
    tier: int,
    model: SetupModel,
    item: ItemId,
    current: Option<WeaponEffect>,
) -> SetupModel {
    let stage = model.items.len() as int;
    if !accepts(rules, model.classes, tier, stage, item) {
        model
    } else if stage >= 4 {
        after_slot(
            rules,
            tier,
            model.classes.push(item),
            model.items.push(slot_item(tier, stage, item, None)),
            model.states,
        )
    } else {
        let drawn = int_bound_from(top(model.states), 3);
        let states1 = with_top(model.states, drawn.1);
        if drawn.0 >= tier {
            after_slot(
                rules,
                tier,
                model.classes.push(item),
                model.items.push(slot_item(tier, stage, item, None)),
                states1,
            )
        } else {
            SetupModel {
                classes: model.classes.push(item),
                items: model.items,
                awaiting: Awaiting::WeaponRarity(item, current),
                states: states1,
            }
        }
    }
}

/// What offering a rarity does, when an enchantment or a glyph awaits one.
pub open spec fn after_rarity(rules: VaultClassRules, tier: int, model: SetupModel, rarity: int) -> SetupModel {
    let stage = model.items.len() as int;
    match model.awaiting {
        Awaiting::WeaponRarity(item, current) => {
            let choices = without(weapon_table(rarity), current);
            let drawn = int_bound_from(top(model.states), choices.len() as i32);
            after_slot(
                rules,
                tier,
                model.classes,
                model.items.push(
                    slot_item(tier, stage, item, Some(Effect::Weapon(choices[drawn.0 as int]))),
                ),
                with_top(model.states, drawn.1),
            )
        },
        _ => {
            let choices = armor_table(rarity);
            let drawn = int_bound_from(top(model.states), choices.len() as i32);
            after_slot(
                rules,
                tier,
                model.classes,
                model.items.push(
                    slot_item(
                        tier,
                        3,
                        rules.armor_classes@[tier],
                        Some(Effect::Armor(choices[drawn.0 as int])),
                    ),
                ),
                with_top(model.states, drawn.1),
            )
        },
    }
}

/// What the caller is asked for while `awaiting`, with `stage` items finished.
pub open spec fn request_for(tier: int, awaiting: Awaiting, stage: int) -> SetupRequest {
    match awaiting {
        Awaiting::Candidate => SetupRequest::Candidate(slot_category(tier, stage)),
        Awaiting::WeaponRarity(_, _) => SetupRequest::WeaponRarity,
        Awaiting::ArmorRarity => SetupRequest::ArmorRarity,
        Awaiting::Done => SetupRequest::Done,
    }
}

/// The loot after a step: the tier's six items stored once the roll is done,
/// every other tier and both cursors untouched.
pub open spec fn stored(
    old_loot: VaultEquipmentLoot,
    new_loot: VaultEquipmentLoot,
    tier: int,
    awaiting: Awaiting,
    items: Seq<VaultEquipment>,
) -> bool {
    &&& new_loot.wf()
    &&& new_loot.slots(tier) == (if awaiting == Awaiting::Done {
        Some(Seq::new(6, |i: int| Some(items[i])))
    } else {
        old_loot.slots(tier)
    })
    &&& forall|t: int| 0 <= t < 4 && t != tier ==> #[trigger] new_loot.slots(t) == old_loot.slots(t)
    &&& new_loot.cursor(0) == old_loot.cursor(0)
    &&& new_loot.cursor(2) == old_loot.cursor(2)
}

/// The items of a tier so far have the shape every vault tier has: each slot
/// its kind, upgrade and stack size; wands and rings plain; nothing enchanted
/// in tier 0, and every weapon and the armor enchanted in tier 3.
pub open spec fn shaped(tier: int, items: Seq<VaultEquipment>) -> bool {
    forall|i: int|
        0 <= i < items.len() ==> {
            let e = #[trigger] items[i];
            &&& e == slot_item(tier, i, e.item, e.effect)
            &&& i >= 4 ==> e.effect is None
            &&& tier == 0 ==> e.effect is None
            &&& tier == 3 && i < 4 ==> e.effect is Some
        }
}

/// The awaited step fits the number of finished items.
pub open spec fn consistent(awaiting: Awaiting, stage: int) -> bool {
    match awaiting {
        Awaiting::Candidate => 0 <= stage < 6 && stage != 3,
        Awaiting::WeaponRarity(_, _) => 0 <= stage < 3,
        Awaiting::ArmorRarity => stage == 3,
        Awaiting::Done => stage == 6,
    }
}

impl TierSetup {
    /// The tier being rolled.
    pub closed spec fn tier(&self) -> int {
        self.tier as int
    }

    /// The state of the roll, given the classes rolled so far and the
    /// generator stack.
    pub closed spec fn model(&self, classes: Seq<ItemId>, states: Seq<u64>) -> SetupModel {
        SetupModel { classes, items: self.items@, awaiting: self.awaiting, states }
    }

    /// The step the roll awaits.
    pub closed spec fn awaiting(&self) -> Awaiting {
        self.awaiting
    }

    /// The items finished so far, in slot order.
    pub closed spec fn items(&self) -> Seq<VaultEquipment> {
        self.items@
    }

    /// A tier below four, with the awaited step fitting the items finished.
    pub closed spec fn wf(&self) -> bool {
        &&& self.tier < 4
        &&& consistent(self.awaiting, self.items@.len() as int)
        &&& shaped(self.tier as int, self.items@)
        &&& (self.awaiting is WeaponRarity || self.awaiting is ArmorRarity) ==> self.tier > 0
    }

    /// Every tier being rolled, and so every tier stored, has the shape of a
    /// vault tier.
    pub proof fn lemma_shaped(&self)
        requires
            self.wf(),
        ensures
            shaped(self.tier(), self.items()),
    {
    }

    /// Starts rolling a tier: nothing finished, the first melee class awaited.
    pub fn begin(tier: usize) -> (setup: Self)
        requires
            tier < 4,
        ensures
            setup.wf(),
            setup.tier() == tier,
            setup.items().len() == 0,
            setup.awaiting() == Awaiting::Candidate,
    {
        TierSetup { tier, items: Vec::new(), awaiting: Awaiting::Candidate }
    }

    /// What the caller has to draw next.
    pub fn request(&self) -> (request: SetupRequest)
        requires
            self.wf(),
        ensures
            request == request_for(self.tier(), self.awaiting(), self.items().len() as int),
    {
        match self.awaiting {
            Awaiting::Candidate => SetupRequest::Candidate(category_of(self.tier, self.items.len())),
            Awaiting::WeaponRarity(_, _) => SetupRequest::WeaponRarity,
            Awaiting::ArmorRarity => SetupRequest::ArmorRarity,
            Awaiting::Done => SetupRequest::Done,
        }
    }

    /// Adds a finished item and moves on: the armor slot is rolled at once
    /// after the thrown weapon, and the six items are stored at the end.
    fn finish_slot(
        &mut self,
        loot: &mut VaultEquipmentLoot,
        rules: &VaultClassRules,
        equipment: VaultEquipment,
        random: &mut RandomStack,
    ) -> (request: SetupRequest)
        requires
            old(self).tier < 4,
            old(self).items@.len() < 6,
            shaped(old(self).tier as int, old(self).items@.push(equipment)),
            old(loot).wf(),
            old(random).wf(),
        ensures
            final(self).wf(),
            final(self).tier == old(self).tier,
            final(random).wf(),
            final(self).model(final(loot).classes(), final(random)@) == after_slot(
                *rules,
                old(self).tier as int,
                old(loot).classes(),
                old(self).items@.push(equipment),
                old(random)@,
            ),
            stored(*old(loot), *final(loot), old(self).tier as int, final(self).awaiting, final(self).items@),
            request == request_for(final(self).tier(), final(self).awaiting(), final(self).items().len() as int),
    {
        self.items.push(equipment);
        if self.items.len() == 3 {
            let armor_class = rules.armor_classes[self.tier];
            loot.record_generated(armor_class);
            let drawn = random.int_bound(3);
            if drawn >= self.tier as i32 {
                self.items.push(make_slot_item(self.tier, 3, armor_class, None));
                self.awaiting = Awaiting::Candidate;
            } else {
                self.awaiting = Awaiting::ArmorRarity;
            }
        } else if self.items.len() == 6 {
            let mut copy: Vec<VaultEquipment> = Vec::new();
            let mut i: usize = 0;
            while i < self.items.len()
                invariant
                    i <= self.items@.len(),
                    copy@ == self.items@.take(i as int),
                decreases self.items@.len() - i,
            {
                copy.push(self.items[i]);
                proof {
                    assert(self.items@.take(i + 1) =~= self.items@.take(i as int).push(self.items@[i as int]));
                }
                i = i + 1;
            }
            assert(self.items@.take(6) =~= self.items@);
            loot.install_tier(self.tier, copy);
            self.awaiting = Awaiting::Done;
            assert(Seq::new(6, |j: int| Some(copy@[j])) =~= Seq::new(6, |j: int| Some(self.items@[j])));
        } else {
            self.awaiting = Awaiting::Candidate;
        }
        self.request()
    }

    /// Offers a rolled class, with the effect it was rolled with, to the
    /// awaited slot. A repeated or excluded class is turned down and another
    /// is asked for; an accepted weapon keeps no effect on `Random.Int(3) >=
    /// tier` and otherwise asks for an enchantment's rarity.
    pub fn offer_candidate(
        &mut self,
        loot: &mut VaultEquipmentLoot,
        rules: &VaultClassRules,
        item: ItemId,
        current: Option<WeaponEffect>,
        random: &mut RandomStack,
    ) -> (request: SetupRequest)
        requires
            old(self).wf(),
            old(loot).wf(),
            old(random).wf(),
            old(self).awaiting() == Awaiting::Candidate,
        ensures
            final(self).wf(),
            final(self).tier() == old(self).tier(),
            final(random).wf(),
            final(self).model(final(loot).classes(), final(random)@) == after_candidate(
                *rules,
                old(self).tier(),
                old(self).model(old(loot).classes(), old(random)@),
                item,
                current,
            ),
            stored(*old(loot), *final(loot), old(self).tier(), final(self).awaiting(), final(self).items()),
            request == request_for(final(self).tier(), final(self).awaiting(), final(self).items().len() as int),
    {
        let stage = self.items.len();
        let seen = loot.has_generated(item);
        let accepted = if stage == 0 {
            !(self.tier > 1 && seen)
        } else if stage == 1 {
            !(self.tier > 0 && seen)
        } else if stage == 2 {
            !seen
        } else if stage == 4 {
            !seen && !listed(&rules.excluded_wands, item)
        } else {
            !seen && !listed(&rules.excluded_rings, item)
        };
        if !accepted {
            return self.request();
        }
        loot.record_generated(item);
        if stage >= 4 {
            self.finish_slot(loot, rules, make_slot_item(self.tier, stage, item, None), random)
        } else {
            let drawn = random.int_bound(3);
            if drawn >= self.tier as i32 {
                self.finish_slot(loot, rules, make_slot_item(self.tier, stage, item, None), random)
            } else {
                self.awaiting = Awaiting::WeaponRarity(item, current);
                self.request()
            }
        }
    }

    /// Offers the rarity drawn for the awaited enchantment or glyph: the
    /// effect is picked uniformly from that rarity's list (an enchantment
    /// avoiding the one the weapon was rolled with) and the item is finished.
    pub fn offer_rarity(
        &mut self,
        loot: &mut VaultEquipmentLoot,
        rules: &VaultClassRules,
        rarity: usize,
        random: &mut RandomStack,
    ) -> (request: SetupRequest)
        requires
            old(self).wf(),
            old(loot).wf(),
            old(random).wf(),
            old(self).awaiting() is WeaponRarity || old(self).awaiting() is ArmorRarity,
        ensures
            final(self).wf(),
            final(self).tier() == old(self).tier(),
            final(random).wf(),
            final(self).model(final(loot).classes(), final(random)@) == after_rarity(
                *rules,
                old(self).tier(),
                old(self).model(old(loot).classes(), old(random)@),
                rarity as int,
            ),
            stored(*old(loot), *final(loot), old(self).tier(), final(self).awaiting(), final(self).items()),
            request == request_for(final(self).tier(), final(self).awaiting(), final(self).items().len() as int),
    {
        let stage = self.items.len();
        match self.awaiting {
            Awaiting::WeaponRarity(item, current) => {
                let choices = enchantment_choices(rarity, current);
                let k = random.int_bound(choices.len() as i32);
                let effect = choices[k as usize];
                self.finish_slot(
                    loot,
                    rules,
                    make_slot_item(self.tier, stage, item, Some(Effect::Weapon(effect))),
                    random,
                )
            },
            _ => {
                let choices = glyph_choices(rarity);
                let k = random.int_bound(choices.len() as i32);
                let glyph = choices[k as usize];
                self.finish_slot(
                    loot,
                    rules,
                    make_slot_item(self.tier, 3, rules.armor_classes[self.tier], Some(Effect::Armor(glyph))),
                    random,
                )
            },
        }
    }

    /// Whether the tier is rolled and stored.
    pub fn is_done(&self) -> (done: bool)
        ensures
            done == (self.awaiting() == Awaiting::Done),
    {
        match self.awaiting {
            Awaiting::Done => true,
            _ => false,
        }
    }
}

/// The first tier, in tier order, that is unset or fully handed out.
pub open spec fn first_spent(loot: &VaultEquipmentLoot) -> Option<usize> {
    if !holds_item(loot.slots(0)) {
        Some(0)
    } else if !holds_item(loot.slots(1)) {
        Some(1)
    } else if !holds_item(loot.slots(2)) {
        Some(2)
    } else if !holds_item(loot.slots(3)) {
        Some(3)
    } else {
        None
    }
}

/// Mirrors the check in `VaultLevel.setupEquipment()`: the next tier to roll
/// again, if any is unset or fully handed out. Rolling a tier never changes
/// another, so taking them one by one visits them in tier order.
pub fn next_tier_to_set_up(loot: &VaultEquipmentLoot) -> (tier: Option<usize>)
    requires
        loot.wf(),
    ensures
        tier == first_spent(loot),
{
    let mut t: usize = 0;
    while t < 4
        invariant
            t <= 4,
            loot.wf(),
            forall|u: int| 0 <= u < t ==> holds_item(#[trigger] loot.slots(u)),
        decreases 4 - t,
    {
        if loot.is_spent(t) {
            return Some(t);
        }
        t = t + 1;
    }
    None
}

/// The category of slot `stage`.
fn category_of(tier: usize, stage: usize) -> (category: VaultCategory)
    requires
        tier < 4,
    ensures
        category == slot_category(tier as int, stage as int),
{
    if stage == 0 {
        VaultCategory::Weapon(if tier <= 1 { 2 } else { tier as u8 + 1 })
    } else if stage == 1 {
        VaultCategory::Weapon(tier as u8 + 2)
    } else if stage == 2 {
        VaultCategory::Missile(tier as u8 + 2)
    } else if stage == 4 {
        VaultCategory::Wand
    } else {
        VaultCategory::Ring
    }
}

/// The finished item of slot `stage`.
fn make_slot_item(tier: usize, stage: usize, item: ItemId, effect: Option<Effect>) -> (equipment: VaultEquipment)
    requires
        tier < 4,
    ensures
        equipment == slot_item(tier as int, stage as int, item, effect),
{
    VaultEquipment {
        kind: if stage <= 1 {
            VaultEquipmentKind::MeleeWeapon
        } else if stage == 2 {
            VaultEquipmentKind::ThrownWeapon
        } else if stage == 3 {
            VaultEquipmentKind::Armor
        } else if stage == 4 {
            VaultEquipmentKind::Wand
        } else {
            VaultEquipmentKind::Ring
        },
        item,
        upgrade: if stage == 0 && tier > 0 {
            tier as u8 + 1
        } else {
            tier as u8
        },
        effect,
        quantity: if stage == 2 {
            3
        } else {
            1
        },
    }
}

/// Whether an item is on a short list.
fn listed(list: &[ItemId; 3], item: ItemId) -> (found: bool)
    ensures
        found == list@.contains(item),
{
    let mut i: usize = 0;
    while i < 3
        invariant
            i <= 3,
            list@.len() == 3,
            forall|j: int| 0 <= j < i ==> list@[j] != item,
        decreases 3 - i,
    {
        if list[i] == item {
            assert(list@[i as int] == item);
            return true;
        }
        i = i + 1;
    }
    false
}

/// The rarity table of enchantments, without the one to avoid.
fn enchantment_choices(rarity: usize, ignore: Option<WeaponEffect>) -> (choices: Vec<WeaponEffect>)
    ensures
        choices@ == without(weapon_table(rarity as int), ignore),
        1 <= choices@.len() <= 8,
{
    let table: Vec<WeaponEffect> = if rarity == 1 {
        vec![
            WeaponEffect::Blocking,
            WeaponEffect::Blooming,
            WeaponEffect::Eldritch,
            WeaponEffect::Elastic,
            WeaponEffect::Lucky,
            WeaponEffect::Projecting,
            WeaponEffect::Unstable,
            WeaponEffect::Vorpal,
        ]
    } else if rarity == 2 {
        vec![WeaponEffect::Corrupting, WeaponEffect::Crystal, WeaponEffect::Grim, WeaponEffect::Vampiric]
    } else {
        vec![
            WeaponEffect::Blazing,
            WeaponEffect::Chilling,
            WeaponEffect::Kinetic,
            WeaponEffect::Shocking,
            WeaponEffect::Venomous,
        ]
    };
    assert(table@ == weapon_table(rarity as int));
    let mut choices: Vec<WeaponEffect> = Vec::new();
    let mut i: usize = 0;
    let ghost mut skipped_at: int = -1;
    while i < table.len()
        invariant
            i <= table@.len(),
            4 <= table@.len() <= 8,
            forall|a: int, b: int| 0 <= a < b < table@.len() ==> table@[a] != table@[b],
            choices@ == without(table@.take(i as int), ignore),
            skipped_at == -1 ==> choices@.len() == i,
            skipped_at != -1 ==> 0 <= skipped_at < i && ignore == Some(table@[skipped_at])
                && choices@.len() + 1 == i,
        decreases table@.len() - i,
    {
        let effect = table[i];
        proof {
            assert(table@.take(i + 1).drop_last() =~= table@.take(i as int));
            reveal(Seq::filter);
        }
        if ignore != Some(effect) {
            choices.push(effect);
        } else {
            proof {
                if skipped_at != -1 {
                    assert(table@[skipped_at] != table@[i as int]);
                }
                skipped_at = i as int;
            }
        }
        i = i + 1;
    }
    assert(table@.take(table@.len() as int) =~= table@);
    choices
}

/// The rarity table of glyphs.
fn glyph_choices(rarity: usize) -> (choices: Vec<ArmorEffect>)
    ensures
        choices@ == armor_table(rarity as int),
{
    let table: Vec<ArmorEffect> = if rarity == 1 {
        vec![
            ArmorEffect::Brimstone,
            ArmorEffect::Stone,
            ArmorEffect::Entanglement,
            ArmorEffect::Repulsion,
            ArmorEffect::Camouflage,
            ArmorEffect::Flow,
        ]
    } else if rarity == 2 {
        vec![ArmorEffect::Affection, ArmorEffect::AntiMagic, ArmorEffect::Thorns]
    } else {
        vec![ArmorEffect::Obfuscation, ArmorEffect::Swiftness, ArmorEffect::Viscosity, ArmorEffect::Potential]
    };
    assert(table@ == armor_table(rarity as int));
    table
}

/// A tier whose roll is done and stored holds items to hand out.
pub proof fn lemma_stored_tier_holds(setup: &TierSetup, loot: &VaultEquipmentLoot)
    requires
        setup.wf(),
        setup.awaiting() == Awaiting::Done,
        loot.slots(setup.tier()) == Some(Seq::new(6, |i: int| Some(setup.items()[i]))),
    ensures
        holds_item(loot.slots(setup.tier())),
{
    let slots = Seq::new(6, |i: int| Some(setup.items()[i]));
    assert(slots[0] is Some);
}

/// With no tier left to roll again, every tier can hand out an item.
pub proof fn lemma_nothing_spent(loot: &VaultEquipmentLoot)
    requires
        first_spent(loot) is None,
    ensures
        forall|t: int| 0 <= t < 4 ==> holds_item(#[trigger] loot.slots(t)),
{
    assert forall|t: int| 0 <= t < 4 implies holds_item(#[trigger] loot.slots(t)) by {
        if t == 0 {
        } else if t == 1 {
        } else if t == 2 {
        } else {
        }
    }
}

} // verus!
