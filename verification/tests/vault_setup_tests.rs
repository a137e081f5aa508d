use seedfinder_core::catalog::{ArmorEffect, Effect, ItemId, ItemKind, WeaponCategory, WeaponEffect};
use seedfinder_core::rng::RandomStack;
use seedfinder_core::vault_loot::{VaultEquipmentKind, VaultEquipmentLoot};
use seedfinder_core::vault_setup::{
    next_tier_to_set_up, SetupRequest, TierSetup, VaultCategory, VaultClassRules,
};

fn weapon(index: u16, tier: u8, category: WeaponCategory) -> ItemId {
    ItemId {
        index,
        kind: ItemKind::Weapon,
        tier: Some(tier),
        category: Some(category),
    }
}

fn plain(index: u16, kind: ItemKind) -> ItemId {
    ItemId {
        index,
        kind,
        tier: None,
        category: None,
    }
}

fn rules() -> VaultClassRules {
    VaultClassRules {
        armor_classes: [
            plain(200, ItemKind::Armor),
            plain(201, ItemKind::Armor),
            plain(202, ItemKind::Armor),
            plain(203, ItemKind::Armor),
        ],
        excluded_wands: [
            plain(300, ItemKind::Wand),
            plain(301, ItemKind::Wand),
            plain(302, ItemKind::Wand),
        ],
        excluded_rings: [
            plain(400, ItemKind::Ring),
            plain(401, ItemKind::Ring),
            plain(402, ItemKind::Ring),
        ],
    }
}

#[test]
fn tier_zero_rolls_six_plain_items_and_rejects_repeats_where_the_slot_does() {
    let rules = rules();
    let mut loot = VaultEquipmentLoot::new();
    let mut random = RandomStack::with_base_seed(42);
    assert_eq!(next_tier_to_set_up(&loot), Some(0));

    let sword = weapon(10, 2, WeaponCategory::Melee);
    let darts = weapon(20, 2, WeaponCategory::Thrown);
    let wand = plain(310, ItemKind::Wand);
    let ring = plain(410, ItemKind::Ring);

    let mut setup = TierSetup::begin(0);
    assert_eq!(setup.request(), SetupRequest::Candidate(VaultCategory::Weapon(2)));
    let request = setup.offer_candidate(&mut loot, &rules, sword, Some(WeaponEffect::Blazing), &mut random);
    assert_eq!(request, SetupRequest::Candidate(VaultCategory::Weapon(2)));
    // Tier 0 lets the second weapon repeat the first class.
    let request = setup.offer_candidate(&mut loot, &rules, sword, None, &mut random);
    assert_eq!(request, SetupRequest::Candidate(VaultCategory::Missile(2)));
    // The thrown weapon never repeats a class.
    let request = setup.offer_candidate(&mut loot, &rules, sword, None, &mut random);
    assert_eq!(request, SetupRequest::Candidate(VaultCategory::Missile(2)));
    let request = setup.offer_candidate(&mut loot, &rules, darts, None, &mut random);
    // The armor follows at once.
    assert_eq!(request, SetupRequest::Candidate(VaultCategory::Wand));
    let request = setup.offer_candidate(&mut loot, &rules, plain(301, ItemKind::Wand), None, &mut random);
    assert_eq!(request, SetupRequest::Candidate(VaultCategory::Wand));
    let request = setup.offer_candidate(&mut loot, &rules, wand, None, &mut random);
    assert_eq!(request, SetupRequest::Candidate(VaultCategory::Ring));
    let request = setup.offer_candidate(&mut loot, &rules, plain(402, ItemKind::Ring), None, &mut random);
    assert_eq!(request, SetupRequest::Candidate(VaultCategory::Ring));
    let request = setup.offer_candidate(&mut loot, &rules, ring, None, &mut random);
    assert_eq!(request, SetupRequest::Done);
    assert!(setup.is_done());

    let items = loot.tier(0).unwrap();
    let kinds: Vec<VaultEquipmentKind> = items.iter().map(|slot| slot.unwrap().kind).collect();
    assert_eq!(
        kinds,
        vec![
            VaultEquipmentKind::MeleeWeapon,
            VaultEquipmentKind::MeleeWeapon,
            VaultEquipmentKind::ThrownWeapon,
            VaultEquipmentKind::Armor,
            VaultEquipmentKind::Wand,
            VaultEquipmentKind::Ring,
        ]
    );
    let classes: Vec<ItemId> = items.iter().map(|slot| slot.unwrap().item).collect();
    assert_eq!(classes, vec![sword, sword, darts, plain(200, ItemKind::Armor), wand, ring]);
    assert!(items.iter().all(|slot| slot.unwrap().upgrade == 0));
    assert!(items.iter().all(|slot| slot.unwrap().effect.is_none()));
    let quantities: Vec<i32> = items.iter().map(|slot| slot.unwrap().quantity).collect();
    assert_eq!(quantities, vec![1, 1, 3, 1, 1, 1]);

    assert_eq!(next_tier_to_set_up(&loot), Some(1));
    let first = loot.create_equipment(0);
    assert_eq!(first.item, sword);
}

#[test]
fn tier_three_enchants_every_weapon_and_the_armor() {
    let rules = rules();
    let mut loot = VaultEquipmentLoot::new();
    let mut random = RandomStack::with_base_seed(7);
    let mut setup = TierSetup::begin(3);
    assert_eq!(setup.request(), SetupRequest::Candidate(VaultCategory::Weapon(4)));
    let request = setup.offer_candidate(
        &mut loot,
        &rules,
        weapon(11, 4, WeaponCategory::Melee),
        Some(WeaponEffect::Blazing),
        &mut random,
    );
    assert_eq!(request, SetupRequest::WeaponRarity);
    let request = setup.offer_rarity(&mut loot, &rules, 0, &mut random);
    assert_eq!(request, SetupRequest::Candidate(VaultCategory::Weapon(5)));
    // The second weapon may not repeat the first class in tier 3.
    let request = setup.offer_candidate(&mut loot, &rules, weapon(11, 4, WeaponCategory::Melee), None, &mut random);
    assert_eq!(request, SetupRequest::Candidate(VaultCategory::Weapon(5)));
    let request = setup.offer_candidate(&mut loot, &rules, weapon(12, 5, WeaponCategory::Melee), None, &mut random);
    assert_eq!(request, SetupRequest::WeaponRarity);
    let request = setup.offer_rarity(&mut loot, &rules, 2, &mut random);
    assert_eq!(request, SetupRequest::Candidate(VaultCategory::Missile(5)));
    let request = setup.offer_candidate(&mut loot, &rules, weapon(21, 5, WeaponCategory::Thrown), None, &mut random);
    assert_eq!(request, SetupRequest::WeaponRarity);
    let request = setup.offer_rarity(&mut loot, &rules, 1, &mut random);
    assert_eq!(request, SetupRequest::ArmorRarity);
    let request = setup.offer_rarity(&mut loot, &rules, 2, &mut random);
    assert_eq!(request, SetupRequest::Candidate(VaultCategory::Wand));
    let request = setup.offer_candidate(&mut loot, &rules, plain(311, ItemKind::Wand), None, &mut random);
    assert_eq!(request, SetupRequest::Candidate(VaultCategory::Ring));
    let request = setup.offer_candidate(&mut loot, &rules, plain(411, ItemKind::Ring), None, &mut random);
    assert_eq!(request, SetupRequest::Done);

    let items: Vec<_> = loot.tier(3).unwrap().iter().map(|slot| slot.unwrap()).collect();
    let upgrades: Vec<u8> = items.iter().map(|item| item.upgrade).collect();
    assert_eq!(upgrades, vec![4, 3, 3, 3, 3, 3]);
    match items[0].effect {
        Some(Effect::Weapon(effect)) => {
            assert!([
                WeaponEffect::Chilling,
                WeaponEffect::Kinetic,
                WeaponEffect::Shocking,
                WeaponEffect::Venomous
            ]
            .contains(&effect));
        }
        other => panic!("first weapon not enchanted: {other:?}"),
    }
    match items[1].effect {
        Some(Effect::Weapon(effect)) => assert!([
            WeaponEffect::Corrupting,
            WeaponEffect::Crystal,
            WeaponEffect::Grim,
            WeaponEffect::Vampiric
        ]
        .contains(&effect)),
        other => panic!("second weapon not enchanted: {other:?}"),
    }
    assert!(matches!(items[2].effect, Some(Effect::Weapon(_))));
    match items[3].effect {
        Some(Effect::Armor(glyph)) => assert!([
            ArmorEffect::Affection,
            ArmorEffect::AntiMagic,
            ArmorEffect::Thorns
        ]
        .contains(&glyph)),
        other => panic!("armor not inscribed: {other:?}"),
    }
    assert_eq!(items[3].item, plain(203, ItemKind::Armor));
    assert!(items[4].effect.is_none() && items[5].effect.is_none());
}

#[test]
fn spent_tiers_are_rolled_again_in_tier_order() {
    let rules = rules();
    let mut loot = VaultEquipmentLoot::new();
    let mut random = RandomStack::with_base_seed(3);
    for tier in 0..4usize {
        assert_eq!(next_tier_to_set_up(&loot), Some(tier));
        let mut setup = TierSetup::begin(tier);
        let mut next_index = 1000u16 + 10 * tier as u16;
        loop {
            match setup.request() {
                SetupRequest::Candidate(category) => {
                    let kind = match category {
                        VaultCategory::Weapon(_) | VaultCategory::Missile(_) => ItemKind::Weapon,
                        VaultCategory::Wand => ItemKind::Wand,
                        VaultCategory::Ring => ItemKind::Ring,
                    };
                    next_index += 1;
                    setup.offer_candidate(&mut loot, &rules, plain(next_index, kind), None, &mut random);
                }
                SetupRequest::WeaponRarity | SetupRequest::ArmorRarity => {
                    setup.offer_rarity(&mut loot, &rules, 0, &mut random);
                }
                SetupRequest::Done => break,
            }
        }
    }
    assert_eq!(next_tier_to_set_up(&loot), None);
    for _ in 0..6 {
        loot.create_equipment(1);
    }
    assert_eq!(next_tier_to_set_up(&loot), Some(1));
}

/// `Random.chances({50, 40, 10})` on the current generator, in Java `float`s.
fn rarity(random: &mut RandomStack) -> usize {
    let value = (random.float_bits() as f32 / 16_777_216.0_f32) * 100.0_f32;
    if value < 50.0 {
        0
    } else if value < 90.0 {
        1
    } else {
        2
    }
}

/// Rolls every tier, offering each slot an excluded or repeated class first
/// and then a fresh one, each class roll consuming one draw.
fn setup_all_tiers(loot: &mut VaultEquipmentLoot, random: &mut RandomStack) {
    let rules = rules();
    let mut fresh = 500u16;
    while let Some(tier) = next_tier_to_set_up(loot) {
        let mut setup = TierSetup::begin(tier);
        loop {
            match setup.request() {
                SetupRequest::Candidate(category) => {
                    random.next_int();
                    let (decoy, kind) = match category {
                        VaultCategory::Weapon(_) | VaultCategory::Missile(_) => {
                            (weapon(10, 2, WeaponCategory::Melee), ItemKind::Weapon)
                        }
                        VaultCategory::Wand => (plain(300, ItemKind::Wand), ItemKind::Wand),
                        VaultCategory::Ring => (plain(401, ItemKind::Ring), ItemKind::Ring),
                    };
                    setup.offer_candidate(loot, &rules, decoy, None, random);
                    if setup.request() == SetupRequest::Candidate(category) {
                        random.next_int();
                        fresh += 1;
                        setup.offer_candidate(loot, &rules, plain(fresh, kind), None, random);
                    }
                }
                SetupRequest::WeaponRarity | SetupRequest::ArmorRarity => {
                    let drawn = rarity(random);
                    setup.offer_rarity(loot, &rules, drawn, random);
                }
                SetupRequest::Done => break,
            }
        }
    }
}

#[test]
fn tier_three_items_are_always_enchanted_and_tier_zero_never() {
    let rules = rules();
    for seed in 1..40_i64 {
        let mut random = RandomStack::with_base_seed(0);
        random.push(seed);
        let mut loot = VaultEquipmentLoot::new();
        setup_all_tiers(&mut loot, &mut random);
        let tier0 = loot.tier(0).unwrap();
        assert!(tier0[..4].iter().all(|item| item.unwrap().effect.is_none()));
        let tier3 = loot.tier(3).unwrap();
        assert!(tier3[..4].iter().all(|item| item.unwrap().effect.is_some()));
        assert_eq!(tier3[0].unwrap().upgrade, 4);
        assert_eq!(tier3[1].unwrap().upgrade, 3);
        assert_eq!(tier3[3].unwrap().item, rules.armor_classes[3]);
        let wand = tier3[4].unwrap().item;
        assert!(!rules.excluded_wands.contains(&wand));
        let ring = tier3[5].unwrap().item;
        assert!(!rules.excluded_rings.contains(&ring));
    }
}

/// `VaultLevel.createEquipment`: roll what is spent, then hand out.
fn create_equipment(
    loot: &mut VaultEquipmentLoot,
    tier: usize,
    random: &mut RandomStack,
) -> seedfinder_core::vault_loot::VaultEquipment {
    setup_all_tiers(loot, random);
    loot.create_equipment(tier)
}

#[test]
fn create_equipment_cycles_shared_indices_and_skips_taken_slots() {
    let mut random = RandomStack::with_base_seed(0);
    random.push(0x5eed);
    let mut loot = VaultEquipmentLoot::new();
    let tier0: Vec<_> = (0..4)
        .map(|_| create_equipment(&mut loot, 0, &mut random))
        .collect();
    assert_eq!(
        tier0.iter().map(|item| item.kind).collect::<Vec<_>>(),
        [
            VaultEquipmentKind::MeleeWeapon,
            VaultEquipmentKind::MeleeWeapon,
            VaultEquipmentKind::ThrownWeapon,
            VaultEquipmentKind::Armor
        ]
    );
    assert!(tier0
        .iter()
        .all(|item| item.upgrade == 0 && item.effect.is_none()));
    // The lower cursor is shared with tier one: the next tier-one item is
    // slot four (the wand), then the ring, then a wrap back to slot zero.
    let tier1: Vec<_> = (0..4)
        .map(|_| create_equipment(&mut loot, 1, &mut random))
        .collect();
    assert_eq!(
        tier1.iter().map(|item| item.kind).collect::<Vec<_>>(),
        [
            VaultEquipmentKind::Wand,
            VaultEquipmentKind::Ring,
            VaultEquipmentKind::MeleeWeapon,
            VaultEquipmentKind::MeleeWeapon
        ]
    );
    assert_eq!(tier1[0].upgrade, 1);
    assert_eq!(tier1[2].upgrade, 2);
    assert_eq!(tier1[3].upgrade, 1);
    // Tier zero still holds its wand and ring untouched.
    let remaining = loot.tier(0).unwrap();
    assert!(remaining[..4].iter().all(Option::is_none));
    assert_eq!(remaining[4].unwrap().kind, VaultEquipmentKind::Wand);
    assert_eq!(remaining[5].unwrap().kind, VaultEquipmentKind::Ring);
}
