//! The item facts that queries read: categories, weapon lines, tiers and the
//! enchantment/glyph families.

use vstd::prelude::*;

verus! {

/// Searchable item category.
#[derive(Clone, Copy, Debug, PartialEq, Eq, Structural, Hash)]
pub enum ItemKind {
    Weapon,
    Armor,
    Wand,
    Ring,
}

impl ItemKind {
    /// The highest upgrade a query may ask of the category: +4 for rings
    /// (the Imp's reward), +3 for everything else.
    pub fn maximum_search_upgrade(self) -> (maximum: u8)
        ensures
            maximum == max_search_upgrade(self),
    {
        match self {
            ItemKind::Ring => 4,
            _ => 3,
        }
    }
}

/// The highest upgrade a query may ask of a category.
pub open spec fn max_search_upgrade(kind: ItemKind) -> u8 {
    if kind == ItemKind::Ring {
        4
    } else {
        3
    }
}

/// Melee or thrown weapon line.
#[derive(Clone, Copy, Debug, PartialEq, Eq, Structural, Hash)]
pub enum WeaponCategory {
    Melee,
    Thrown,
}

/// One catalog item: its identity and the definition facts queries use.
#[derive(Clone, Copy, Debug, PartialEq, Eq, Structural, Hash)]
pub struct ItemId {
    /// Catalog position; distinct items have distinct positions.
    pub index: u16,
    pub kind: ItemKind,
    /// Equipment tier, for tiered weapons and armor.
    pub tier: Option<u8>,
    /// Melee/thrown line, for weapons.
    pub category: Option<WeaponCategory>,
}

impl ItemId {
    /// The weapon line of this item, if it is a weapon.
    pub fn weapon_category(self) -> (category: Option<WeaponCategory>)
        ensures
            category == self.category,
    {
        self.category
    }
}

/// Weapon enchantments and curses, in catalog order.
#[derive(Clone, Copy, Debug, PartialEq, Eq, Structural, Hash)]
pub enum WeaponEffect {
    Blazing,
    Chilling,
    Kinetic,
    Shocking,
    Venomous,
    Blocking,
    Blooming,
    Eldritch,
    Elastic,
    Lucky,
    Projecting,
    Unstable,
    Vorpal,
    Corrupting,
    Crystal,
    Grim,
    Vampiric,
    Annoying,
    Displacing,
    Dazzling,
    Explosive,
    Friendly,
    Polarized,
    Pressurized,
    Sacrificial,
    Wayward,
    Wondrous,
}

/// Armor glyphs and curses, in catalog order.
#[derive(Clone, Copy, Debug, PartialEq, Eq, Structural, Hash)]
pub enum ArmorEffect {
    Obfuscation,
    Swiftness,
    Viscosity,
    Potential,
    Brimstone,
    Stone,
    Entanglement,
    Repulsion,
    Camouflage,
    Flow,
    Affection,
    AntiMagic,
    Thorns,
    AntiEntropy,
    Corrosion,
    Displacement,
    Metabolism,
    Multiplicity,
    Stench,
    Overgrowth,
    Bulk,
}

/// An enchantment or a glyph.
#[derive(Clone, Copy, Debug, PartialEq, Eq, Structural, Hash)]
pub enum Effect {
    Weapon(WeaponEffect),
    Armor(ArmorEffect),
}

/// Number of weapon effects.
pub const WEAPON_EFFECT_COUNT: u8 = 27;

/// Number of armor effects.
pub const ARMOR_EFFECT_COUNT: u8 = 21;

/// Catalog position of a weapon effect.
pub open spec fn weapon_effect_index(effect: WeaponEffect) -> u8 {
    match effect {
        WeaponEffect::Blazing => 0,
        WeaponEffect::Chilling => 1,
        WeaponEffect::Kinetic => 2,
        WeaponEffect::Shocking => 3,
        WeaponEffect::Venomous => 4,
        WeaponEffect::Blocking => 5,
        WeaponEffect::Blooming => 6,
        WeaponEffect::Eldritch => 7,
        WeaponEffect::Elastic => 8,
        WeaponEffect::Lucky => 9,
        WeaponEffect::Projecting => 10,
        WeaponEffect::Unstable => 11,
        WeaponEffect::Vorpal => 12,
        WeaponEffect::Corrupting => 13,
        WeaponEffect::Crystal => 14,
        WeaponEffect::Grim => 15,
        WeaponEffect::Vampiric => 16,
        WeaponEffect::Annoying => 17,
        WeaponEffect::Displacing => 18,
        WeaponEffect::Dazzling => 19,
        WeaponEffect::Explosive => 20,
        WeaponEffect::Friendly => 21,
        WeaponEffect::Polarized => 22,
        WeaponEffect::Pressurized => 23,
        WeaponEffect::Sacrificial => 24,
        WeaponEffect::Wayward => 25,
        WeaponEffect::Wondrous => 26,
    }
}

/// Catalog position of an armor effect.
pub open spec fn armor_effect_index(effect: ArmorEffect) -> u8 {
    match effect {
        ArmorEffect::Obfuscation => 0,
        ArmorEffect::Swiftness => 1,
        ArmorEffect::Viscosity => 2,
        ArmorEffect::Potential => 3,
        ArmorEffect::Brimstone => 4,
        ArmorEffect::Stone => 5,
        ArmorEffect::Entanglement => 6,
        ArmorEffect::Repulsion => 7,
        ArmorEffect::Camouflage => 8,
        ArmorEffect::Flow => 9,
        ArmorEffect::Affection => 10,
        ArmorEffect::AntiMagic => 11,
        ArmorEffect::Thorns => 12,
        ArmorEffect::AntiEntropy => 13,
        ArmorEffect::Corrosion => 14,
        ArmorEffect::Displacement => 15,
        ArmorEffect::Metabolism => 16,
        ArmorEffect::Multiplicity => 17,
        ArmorEffect::Stench => 18,
        ArmorEffect::Overgrowth => 19,
        ArmorEffect::Bulk => 20,
    }
}

/// The family an effect belongs to.
pub open spec fn effect_family(effect: Effect) -> ItemKind {
    match effect {
        Effect::Weapon(_) => ItemKind::Weapon,
        Effect::Armor(_) => ItemKind::Armor,
    }
}

/// Position of an effect within its family.
pub open spec fn effect_index(effect: Effect) -> u8 {
    match effect {
        Effect::Weapon(e) => weapon_effect_index(e),
        Effect::Armor(e) => armor_effect_index(e),
    }
}

/// Number of effects a family holds (none for wands and rings).
pub open spec fn family_size(kind: ItemKind) -> u8 {
    match kind {
        ItemKind::Weapon => WEAPON_EFFECT_COUNT,
        ItemKind::Armor => ARMOR_EFFECT_COUNT,
        _ => 0,
    }
}

/// Curses come after the positive effects in each family.
pub open spec fn is_curse(effect: Effect) -> bool {
    match effect {
        Effect::Weapon(e) => weapon_effect_index(e) >= 17,
        Effect::Armor(e) => armor_effect_index(e) >= 13,
    }
}

/// The weapon effect at a catalog position (the last one past the end).
pub open spec fn weapon_effect_at(index: u8) -> WeaponEffect {
    match index {
        0 => WeaponEffect::Blazing,
        1 => WeaponEffect::Chilling,
        2 => WeaponEffect::Kinetic,
        3 => WeaponEffect::Shocking,
        4 => WeaponEffect::Venomous,
        5 => WeaponEffect::Blocking,
        6 => WeaponEffect::Blooming,
        7 => WeaponEffect::Eldritch,
        8 => WeaponEffect::Elastic,
        9 => WeaponEffect::Lucky,
        10 => WeaponEffect::Projecting,
        11 => WeaponEffect::Unstable,
        12 => WeaponEffect::Vorpal,
        13 => WeaponEffect::Corrupting,
        14 => WeaponEffect::Crystal,
        15 => WeaponEffect::Grim,
        16 => WeaponEffect::Vampiric,
        17 => WeaponEffect::Annoying,
        18 => WeaponEffect::Displacing,
        19 => WeaponEffect::Dazzling,
        20 => WeaponEffect::Explosive,
        21 => WeaponEffect::Friendly,
        22 => WeaponEffect::Polarized,
        23 => WeaponEffect::Pressurized,
        24 => WeaponEffect::Sacrificial,
        25 => WeaponEffect::Wayward,
        _ => WeaponEffect::Wondrous,
    }
}

/// The armor effect at a catalog position (the last one past the end).
pub open spec fn armor_effect_at(index: u8) -> ArmorEffect {
    match index {
        0 => ArmorEffect::Obfuscation,
        1 => ArmorEffect::Swiftness,
        2 => ArmorEffect::Viscosity,
        3 => ArmorEffect::Potential,
        4 => ArmorEffect::Brimstone,
        5 => ArmorEffect::Stone,
        6 => ArmorEffect::Entanglement,
        7 => ArmorEffect::Repulsion,
        8 => ArmorEffect::Camouflage,
        9 => ArmorEffect::Flow,
        10 => ArmorEffect::Affection,
        11 => ArmorEffect::AntiMagic,
        12 => ArmorEffect::Thorns,
        13 => ArmorEffect::AntiEntropy,
        14 => ArmorEffect::Corrosion,
        15 => ArmorEffect::Displacement,
        16 => ArmorEffect::Metabolism,
        17 => ArmorEffect::Multiplicity,
        18 => ArmorEffect::Stench,
        19 => ArmorEffect::Overgrowth,
        _ => ArmorEffect::Bulk,
    }
}

/// The effect at a position of a family that carries effects.
pub open spec fn effect_at(kind: ItemKind, index: u8) -> Effect {
    if kind == ItemKind::Weapon {
        Effect::Weapon(weapon_effect_at(index))
    } else {
        Effect::Armor(armor_effect_at(index))
    }
}

/// Whether a family carries enchantments or glyphs.
pub open spec fn carries_effects(kind: ItemKind) -> bool {
    kind == ItemKind::Weapon || kind == ItemKind::Armor
}

/// Catalog positions and effects correspond one to one within a family.
pub proof fn lemma_effect_positions(kind: ItemKind, index: u8, effect: Effect)
    ensures
        carries_effects(kind) && index < family_size(kind) ==> effect_family(effect_at(kind, index))
            == kind && effect_index(effect_at(kind, index)) == index,
        effect_at(effect_family(effect), effect_index(effect)) == effect,
        effect_index(effect) < family_size(effect_family(effect)),
        carries_effects(effect_family(effect)),
{
}

/// The weapon effect at a catalog position.
pub fn weapon_effect_from_index(index: u8) -> (effect: WeaponEffect)
    requires
        index < WEAPON_EFFECT_COUNT,
    ensures
        effect == weapon_effect_at(index),
{
    match index {
        0 => WeaponEffect::Blazing,
        1 => WeaponEffect::Chilling,
        2 => WeaponEffect::Kinetic,
        3 => WeaponEffect::Shocking,
        4 => WeaponEffect::Venomous,
        5 => WeaponEffect::Blocking,
        6 => WeaponEffect::Blooming,
        7 => WeaponEffect::Eldritch,
        8 => WeaponEffect::Elastic,
        9 => WeaponEffect::Lucky,
        10 => WeaponEffect::Projecting,
        11 => WeaponEffect::Unstable,
        12 => WeaponEffect::Vorpal,
        13 => WeaponEffect::Corrupting,
        14 => WeaponEffect::Crystal,
        15 => WeaponEffect::Grim,
        16 => WeaponEffect::Vampiric,
        17 => WeaponEffect::Annoying,
        18 => WeaponEffect::Displacing,
        19 => WeaponEffect::Dazzling,
        20 => WeaponEffect::Explosive,
        21 => WeaponEffect::Friendly,
        22 => WeaponEffect::Polarized,
        23 => WeaponEffect::Pressurized,
        24 => WeaponEffect::Sacrificial,
        25 => WeaponEffect::Wayward,
        _ => WeaponEffect::Wondrous,
    }
}

/// The armor effect at a catalog position.
pub fn armor_effect_from_index(index: u8) -> (effect: ArmorEffect)
    requires
        index < ARMOR_EFFECT_COUNT,
    ensures
        effect == armor_effect_at(index),
{
    match index {
        0 => ArmorEffect::Obfuscation,
        1 => ArmorEffect::Swiftness,
        2 => ArmorEffect::Viscosity,
        3 => ArmorEffect::Potential,
        4 => ArmorEffect::Brimstone,
        5 => ArmorEffect::Stone,
        6 => ArmorEffect::Entanglement,
        7 => ArmorEffect::Repulsion,
        8 => ArmorEffect::Camouflage,
        9 => ArmorEffect::Flow,
        10 => ArmorEffect::Affection,
        11 => ArmorEffect::AntiMagic,
        12 => ArmorEffect::Thorns,
        13 => ArmorEffect::AntiEntropy,
        14 => ArmorEffect::Corrosion,
        15 => ArmorEffect::Displacement,
        16 => ArmorEffect::Metabolism,
        17 => ArmorEffect::Multiplicity,
        18 => ArmorEffect::Stench,
        19 => ArmorEffect::Overgrowth,
        _ => ArmorEffect::Bulk,
    }
}

/// The effect at a position of a family that carries effects.
pub fn effect_from_index(kind: ItemKind, index: u8) -> (effect: Effect)
    requires
        carries_effects(kind),
        index < family_size(kind),
    ensures
        effect == effect_at(kind, index),
{
    if kind == ItemKind::Weapon {
        Effect::Weapon(weapon_effect_from_index(index))
    } else {
        Effect::Armor(armor_effect_from_index(index))
    }
}

impl Effect {
    /// Whether this effect is a curse.
    pub fn is_curse(self) -> (curse: bool)
        ensures
            curse == is_curse(self),
    {
        match self {
            Effect::Weapon(e) => weapon_index(e) >= 17,
            Effect::Armor(e) => armor_index(e) >= 13,
        }
    }

    /// The family this effect belongs to.
    pub fn family(self) -> (kind: ItemKind)
        ensures
            kind == effect_family(self),
    {
        match self {
            Effect::Weapon(_) => ItemKind::Weapon,
            Effect::Armor(_) => ItemKind::Armor,
        }
    }

    /// Position of this effect within its family.
    pub fn index(self) -> (index: u8)
        ensures
            index == effect_index(self),
            index < family_size(effect_family(self)),
    {
        match self {
            Effect::Weapon(e) => weapon_index(e),
            Effect::Armor(e) => armor_index(e),
        }
    }
}

/// Catalog position of a weapon effect.
pub fn weapon_index(effect: WeaponEffect) -> (index: u8)
    ensures
        index == weapon_effect_index(effect),
        index < WEAPON_EFFECT_COUNT,
{
    match effect {
        WeaponEffect::Blazing => 0,
        WeaponEffect::Chilling => 1,
        WeaponEffect::Kinetic => 2,
        WeaponEffect::Shocking => 3,
        WeaponEffect::Venomous => 4,
        WeaponEffect::Blocking => 5,
        WeaponEffect::Blooming => 6,
        WeaponEffect::Eldritch => 7,
        WeaponEffect::Elastic => 8,
        WeaponEffect::Lucky => 9,
        WeaponEffect::Projecting => 10,
        WeaponEffect::Unstable => 11,
        WeaponEffect::Vorpal => 12,
        WeaponEffect::Corrupting => 13,
        WeaponEffect::Crystal => 14,
        WeaponEffect::Grim => 15,
        WeaponEffect::Vampiric => 16,
        WeaponEffect::Annoying => 17,
        WeaponEffect::Displacing => 18,
        WeaponEffect::Dazzling => 19,
        WeaponEffect::Explosive => 20,
        WeaponEffect::Friendly => 21,
        WeaponEffect::Polarized => 22,
        WeaponEffect::Pressurized => 23,
        WeaponEffect::Sacrificial => 24,
        WeaponEffect::Wayward => 25,
        WeaponEffect::Wondrous => 26,
    }
}

/// Catalog position of an armor effect.
pub fn armor_index(effect: ArmorEffect) -> (index: u8)
    ensures
        index == armor_effect_index(effect),
        index < ARMOR_EFFECT_COUNT,
{
    match effect {
        ArmorEffect::Obfuscation => 0,
        ArmorEffect::Swiftness => 1,
        ArmorEffect::Viscosity => 2,
        ArmorEffect::Potential => 3,
        ArmorEffect::Brimstone => 4,
        ArmorEffect::Stone => 5,
        ArmorEffect::Entanglement => 6,
        ArmorEffect::Repulsion => 7,
        ArmorEffect::Camouflage => 8,
        ArmorEffect::Flow => 9,
        ArmorEffect::Affection => 10,
        ArmorEffect::AntiMagic => 11,
        ArmorEffect::Thorns => 12,
        ArmorEffect::AntiEntropy => 13,
        ArmorEffect::Corrosion => 14,
        ArmorEffect::Displacement => 15,
        ArmorEffect::Metabolism => 16,
        ArmorEffect::Multiplicity => 17,
        ArmorEffect::Stench => 18,
        ArmorEffect::Overgrowth => 19,
        ArmorEffect::Bulk => 20,
    }
}

} // verus!
