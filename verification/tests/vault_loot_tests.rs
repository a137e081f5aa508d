use seedfinder_core::catalog::{ItemId, ItemKind, WeaponCategory};
use seedfinder_core::rng::RandomStack;
use seedfinder_core::vault_loot::{
    PotionKind, PrizeFilter, StoneKind, VaultConsumable, VaultConsumables, VaultEquipment,
    VaultEquipmentKind, VaultEquipmentLoot, VaultItem, VaultSpawnQueue,
};

#[test]
fn consumable_lists_keep_the_fixed_healing_potion_first() {
    let mut random = RandomStack::with_base_seed(0);
    random.push(3);
    let mut consumables = VaultConsumables::default();
    let first = consumables.create_consumable(0, &mut random);
    assert_eq!(
        first,
        VaultItem::Consumable(VaultConsumable::Potion(PotionKind::Healing))
    );
    assert_eq!(consumables.rolled.len(), 16);
    let second = consumables.create_consumable(0, &mut random);
    assert_eq!(
        second,
        VaultItem::ShuffledConsumable {
            tier: 0,
            refill: 0,
            slot: 0
        }
    );
    let tier3 = consumables.create_consumable(3, &mut random);
    assert_eq!(
        tier3,
        VaultItem::ShuffledConsumable {
            tier: 3,
            refill: 0,
            slot: 0
        }
    );
}

#[test]
fn solve_item_lookups_shuffle_before_searching() {
    let mut random = RandomStack::with_base_seed(0);
    random.push(5);
    let mut queue = VaultSpawnQueue::default();
    queue.add(VaultItem::Consumable(VaultConsumable::Stone(
        StoneKind::Blink,
    )));
    let before = random.clone();
    assert_eq!(
        queue.find_t2_solve_item(&mut random),
        Some(VaultItem::Consumable(VaultConsumable::Stone(
            StoneKind::Blink
        )))
    );
    let mut expected = before;
    let _ = expected.int_bound(2);
    assert_eq!(random.next_int(), expected.next_int());
    // Nothing left: both shuffles draw, then None.
    let before = random.clone();
    assert_eq!(queue.find_t2_solve_item(&mut random), None);
    let mut expected = before;
    let _ = expected.int_bound(2);
    let _ = expected.int_bound(2);
    assert_eq!(random.next_int(), expected.next_int());
}

fn equipment(kind: VaultEquipmentKind, index: u16, upgrade: u8) -> VaultEquipment {
    let item = ItemId {
        index,
        kind: match kind {
            VaultEquipmentKind::MeleeWeapon | VaultEquipmentKind::ThrownWeapon => ItemKind::Weapon,
            VaultEquipmentKind::Armor => ItemKind::Armor,
            VaultEquipmentKind::Wand => ItemKind::Wand,
            VaultEquipmentKind::Ring => ItemKind::Ring,
        },
        tier: None,
        category: match kind {
            VaultEquipmentKind::MeleeWeapon => Some(WeaponCategory::Melee),
            VaultEquipmentKind::ThrownWeapon => Some(WeaponCategory::Thrown),
            _ => None,
        },
    };
    VaultEquipment {
        kind,
        item,
        upgrade,
        effect: None,
        quantity: if kind == VaultEquipmentKind::ThrownWeapon { 3 } else { 1 },
    }
}

fn tier_items(tier: u8) -> Vec<VaultEquipment> {
    let base = u16::from(tier) * 10;
    let first_upgrade = if tier == 0 { 0 } else { tier + 1 };
    vec![
        equipment(VaultEquipmentKind::MeleeWeapon, base, first_upgrade),
        equipment(VaultEquipmentKind::MeleeWeapon, base + 1, tier),
        equipment(VaultEquipmentKind::ThrownWeapon, base + 2, tier),
        equipment(VaultEquipmentKind::Armor, base + 3, tier),
        equipment(VaultEquipmentKind::Wand, base + 4, tier),
        equipment(VaultEquipmentKind::Ring, base + 5, tier),
    ]
}

#[test]
fn hand_outs_share_the_lower_cursor_and_skip_taken_slots() {
    let mut loot = VaultEquipmentLoot::new();
    for tier in 0..4u8 {
        assert!(loot.is_spent(usize::from(tier)));
        loot.install_tier(usize::from(tier), tier_items(tier));
        assert!(!loot.is_spent(usize::from(tier)));
    }
    let tier0: Vec<_> = (0..4).map(|_| loot.create_equipment(0)).collect();
    assert_eq!(
        tier0.iter().map(|item| item.kind).collect::<Vec<_>>(),
        [
            VaultEquipmentKind::MeleeWeapon,
            VaultEquipmentKind::MeleeWeapon,
            VaultEquipmentKind::ThrownWeapon,
            VaultEquipmentKind::Armor
        ]
    );
    // The lower cursor is shared with tier one: the next tier-one item is
    // slot four (the wand), then the ring, then a wrap back to slot zero.
    let tier1: Vec<_> = (0..4).map(|_| loot.create_equipment(1)).collect();
    assert_eq!(
        tier1.iter().map(|item| item.kind).collect::<Vec<_>>(),
        [
            VaultEquipmentKind::Wand,
            VaultEquipmentKind::Ring,
            VaultEquipmentKind::MeleeWeapon,
            VaultEquipmentKind::MeleeWeapon
        ]
    );
    assert_eq!(tier1[0].upgrade, 1);
    assert_eq!(tier1[2].upgrade, 2);
    assert_eq!(tier1[3].upgrade, 1);
    let remaining = loot.tier(0).unwrap();
    assert!(remaining[..4].iter().all(Option::is_none));
    assert_eq!(remaining[4].unwrap().kind, VaultEquipmentKind::Wand);
    assert_eq!(remaining[5].unwrap().kind, VaultEquipmentKind::Ring);
    // Tier two uses its own cursor, still at slot zero.
    assert_eq!(loot.create_equipment(2).item.index, 20);
}

#[test]
fn spent_tiers_and_generated_classes_are_tracked() {
    let mut loot = VaultEquipmentLoot::new();
    loot.install_tier(3, tier_items(3));
    for _ in 0..6 {
        let _ = loot.create_equipment(3);
    }
    assert!(loot.is_spent(3));
    let sword = tier_items(1)[0].item;
    assert!(!loot.has_generated(sword));
    loot.record_generated(sword);
    assert!(loot.has_generated(sword));
}

#[test]
fn prize_lookups_take_the_first_queued_match() {
    let mut queue = VaultSpawnQueue::default();
    let wand = VaultItem::Equipment(equipment(VaultEquipmentKind::Wand, 4, 1));
    let ring = VaultItem::Equipment(equipment(VaultEquipmentKind::Ring, 5, 1));
    queue.add(wand);
    queue.add(VaultItem::Torch);
    queue.add(ring);
    queue.add(VaultItem::Dart);
    assert!(!wand.is_equipable());
    assert!(ring.is_equipable());
    assert!(VaultItem::Dart.is_equipable());
    assert_eq!(wand.equipment().unwrap().kind, VaultEquipmentKind::Wand);
    assert_eq!(VaultItem::Torch.equipment(), None);
    assert_eq!(queue.find_prize_item(PrizeFilter::Equipable), Some(ring));
    assert_eq!(queue.find_prize_item(PrizeFilter::Equipable), Some(VaultItem::Dart));
    assert_eq!(queue.find_prize_item(PrizeFilter::Equipable), None);
    assert_eq!(queue.items, vec![wand, VaultItem::Torch]);
    assert!(PrizeFilter::PotionOfInvisibility.matches(VaultItem::Consumable(
        VaultConsumable::Potion(PotionKind::Invisibility)
    )));

    let mut random = RandomStack::with_base_seed(0);
    let mut expected = random.clone();
    let index = expected.int_bound(2) as usize;
    let picked = queue.find_random_prize_item(&mut random).unwrap();
    assert_eq!(picked, [wand, VaultItem::Torch][index]);
    assert_eq!(queue.items.len(), 1);
    assert_eq!(random.next_int(), expected.next_int());
    let mut empty = VaultSpawnQueue::default();
    assert_eq!(empty.find_random_prize_item(&mut random), None);
}
