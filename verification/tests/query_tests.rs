use seedfinder_core::catalog::{
    ArmorEffect, Effect, ItemId, ItemKind, WeaponCategory, WeaponEffect,
};
use seedfinder_core::model::{Accessibility, Challenges, GeneratedWorld, ItemSource, WorldItem};
use seedfinder_core::query::{
    best_match_indices, EffectRequirement, EffectSet, QueryError, Requirement, SearchQuery,
    TierRequirement, UpgradeRequirement, UpgradeSum,
};
use seedfinder_core::seed::DungeonSeed;

fn weapon(index: u16, tier: u8, category: WeaponCategory) -> ItemId {
    ItemId {
        index,
        kind: ItemKind::Weapon,
        tier: Some(tier),
        category: Some(category),
    }
}

fn id_sword() -> ItemId {
    weapon(10, 3, WeaponCategory::Melee)
}

fn id_greatsword() -> ItemId {
    weapon(11, 5, WeaponCategory::Melee)
}

fn id_longsword() -> ItemId {
    weapon(12, 4, WeaponCategory::Melee)
}

fn id_spear() -> ItemId {
    weapon(13, 2, WeaponCategory::Melee)
}

fn id_greatshield() -> ItemId {
    weapon(14, 5, WeaponCategory::Melee)
}

fn id_shuriken() -> ItemId {
    weapon(20, 2, WeaponCategory::Thrown)
}

fn id_poison_dart() -> ItemId {
    weapon(21, 1, WeaponCategory::Thrown)
}

fn id_throwing_hammer() -> ItemId {
    weapon(22, 5, WeaponCategory::Thrown)
}

fn id_mail_armor() -> ItemId {
    ItemId {
        index: 30,
        kind: ItemKind::Armor,
        tier: Some(3),
        category: None,
    }
}

fn wand(index: u16) -> ItemId {
    ItemId {
        index,
        kind: ItemKind::Wand,
        tier: None,
        category: None,
    }
}

fn id_wand_frost() -> ItemId {
    wand(40)
}

fn id_wand_lightning() -> ItemId {
    wand(41)
}

fn id_wand_corruption() -> ItemId {
    wand(42)
}

fn ring(index: u16) -> ItemId {
    ItemId {
        index,
        kind: ItemKind::Ring,
        tier: None,
        category: None,
    }
}

fn id_ring_sharpshooting() -> ItemId {
    ring(50)
}

fn id_ring_might() -> ItemId {
    ring(51)
}

fn id_ring_haste() -> ItemId {
    ring(52)
}

fn world_item(item: ItemId, accessibility: Accessibility) -> WorldItem {
    WorldItem {
        item,
        upgrade: 2,
        effect: None,
        cursed: false,
        depth: 3,
        source: ItemSource::GhostReward,
        accessibility,
    }
}

fn requirement(item: ItemId) -> Requirement {
    Requirement {
        kind: item.kind,
        weapon_category: None,
        item: Some(item),
        tier: TierRequirement::Any,
        upgrade: UpgradeRequirement::Exact(2),
        effect: EffectRequirement::Any,
        require_uncursed: false,
        source: None,
        identity_group: None,
        max_depth: None,
        alternative_group: None,
        upgrade_sum: None,
    }
}

fn query(requirements: Vec<Requirement>, max_depth: u8) -> SearchQuery {
    SearchQuery {
        requirements,
        max_depth,
        challenges: Challenges::none(),
        require_blacksmith: false,
        exclude_blacksmith_rewards: false,
        fast_mode: false,
    }
}

fn world(items: Vec<WorldItem>) -> GeneratedWorld {
    GeneratedWorld {
        seed: DungeonSeed::min_seed(),
        items,
    }
}

fn plain(item: ItemId, upgrade: u8) -> WorldItem {
    WorldItem {
        item,
        upgrade,
        effect: None,
        cursed: false,
        depth: 3,
        source: ItemSource::Heap,
        accessibility: Accessibility::Independent,
    }
}

#[test]
fn and_query_requires_distinct_item_occurrences() {
    let two_swords = query(
        vec![requirement(id_sword()), requirement(id_sword())],
        4,
    );
    let one = world(vec![world_item(id_sword(), Accessibility::Independent)]);
    assert!(!two_swords.matches(&one));
    let two = world(vec![
        world_item(id_sword(), Accessibility::Independent),
        world_item(id_sword(), Accessibility::Independent),
    ]);
    assert!(two_swords.matches(&two));
}

#[test]
fn uncursed_requirement_rejects_cursed_copies() {
    let mut candidate = world_item(id_sword(), Accessibility::Independent);
    let mut wanted = requirement(id_sword());
    wanted.require_uncursed = true;

    assert!(wanted.matches(&candidate));
    candidate.cursed = true;
    assert!(!wanted.matches(&candidate));
    wanted.require_uncursed = false;
    assert!(wanted.matches(&candidate));
}

#[test]
fn requirement_floor_limit_is_inclusive() {
    let sample = world(vec![world_item(id_sword(), Accessibility::Independent)]);
    let mut limited = requirement(id_sword());
    limited.max_depth = Some(2);
    let mut floor_limited = query(vec![limited], 24);
    assert!(!floor_limited.matches(&sample));
    floor_limited.requirements[0].max_depth = Some(3);
    assert!(floor_limited.matches(&sample));
}

#[test]
fn mutually_exclusive_rewards_cannot_satisfy_and_query() {
    let both = query(
        vec![requirement(id_sword()), requirement(id_mail_armor())],
        4,
    );
    let exclusive = world(vec![
        world_item(
            id_sword(),
            Accessibility::Choice {
                group: 1,
                option: 0,
            },
        ),
        world_item(
            id_mail_armor(),
            Accessibility::Choice {
                group: 1,
                option: 1,
            },
        ),
    ]);
    assert!(!both.matches(&exclusive));
}

#[test]
fn same_choice_option_and_independent_rewards_can_match() {
    let both = query(
        vec![requirement(id_sword()), requirement(id_mail_armor())],
        4,
    );
    let compatible = world(vec![
        world_item(
            id_sword(),
            Accessibility::Choice {
                group: 2,
                option: 0,
            },
        ),
        world_item(
            id_mail_armor(),
            Accessibility::Choice {
                group: 2,
                option: 0,
            },
        ),
    ]);
    assert!(both.matches(&compatible));
}

#[test]
fn scenario_masks_model_prerequisite_paths_without_false_choices() {
    let sword = world_item(
        id_sword(),
        Accessibility::Scenarios {
            group: 7,
            mask: 0b0011,
        },
    );
    let armor = world_item(
        id_mail_armor(),
        Accessibility::Scenarios {
            group: 7,
            mask: 0b0110,
        },
    );
    let wand = world_item(
        id_wand_frost(),
        Accessibility::Scenarios {
            group: 7,
            mask: 0b1100,
        },
    );
    let sample = world(vec![sword, armor, wand]);

    let compatible = query(
        vec![requirement(id_sword()), requirement(id_mail_armor())],
        4,
    );
    assert!(compatible.matches(&sample));

    let incompatible = query(
        vec![requirement(id_sword()), requirement(id_wand_frost())],
        4,
    );
    assert!(!incompatible.matches(&sample));
}

#[test]
fn validation_rejects_wrong_category() {
    let invalid = Requirement {
        kind: ItemKind::Wand,
        ..requirement(id_sword())
    };
    assert_eq!(invalid.validate(), Err(QueryError::ItemKindMismatch));
}

#[test]
fn weapon_category_narrows_wildcard_weapon_requirements() {
    let any_weapon = Requirement {
        item: None,
        upgrade: UpgradeRequirement::Any,
        ..requirement(id_sword())
    };
    let melee = Requirement {
        weapon_category: Some(WeaponCategory::Melee),
        ..any_weapon
    };
    let thrown = Requirement {
        weapon_category: Some(WeaponCategory::Thrown),
        ..any_weapon
    };
    let sword = world_item(id_sword(), Accessibility::Independent);
    let shuriken = world_item(id_shuriken(), Accessibility::Independent);
    let dart = world_item(id_poison_dart(), Accessibility::Independent);

    assert!(any_weapon.matches(&sword));
    assert!(any_weapon.matches(&shuriken));
    assert!(melee.matches(&sword));
    assert!(!melee.matches(&shuriken));
    assert!(!melee.matches(&dart));
    assert!(!thrown.matches(&sword));
    assert!(thrown.matches(&shuriken));
    assert!(thrown.matches(&dart));

    // Tier filters compose with the category filter.
    let tier_five_thrown = Requirement {
        tier: TierRequirement::Exact(5),
        ..thrown
    };
    assert_eq!(tier_five_thrown.validate(), Ok(()));
    assert!(tier_five_thrown.matches(&world_item(
        id_throwing_hammer(),
        Accessibility::Independent
    )));
    assert!(
        !tier_five_thrown.matches(&world_item(id_greatsword(), Accessibility::Independent))
    );
    assert!(!tier_five_thrown.matches(&shuriken));
}

#[test]
fn weapon_category_validation_requires_a_consistent_weapon() {
    let melee_wand = Requirement {
        weapon_category: Some(WeaponCategory::Melee),
        ..requirement(id_wand_frost())
    };
    assert_eq!(
        melee_wand.validate(),
        Err(QueryError::InvalidWeaponCategory)
    );

    let melee_shuriken = Requirement {
        weapon_category: Some(WeaponCategory::Melee),
        ..requirement(id_shuriken())
    };
    assert_eq!(
        melee_shuriken.validate(),
        Err(QueryError::InvalidWeaponCategory)
    );

    let thrown_shuriken = Requirement {
        weapon_category: Some(WeaponCategory::Thrown),
        ..requirement(id_shuriken())
    };
    assert_eq!(thrown_shuriken.validate(), Ok(()));
}

#[test]
fn validation_rejects_uncursed_items_limited_to_curses() {
    let invalid = Requirement {
        effect: EffectRequirement::OneOf(EffectSet::single(Effect::Weapon(
            WeaponEffect::Displacing,
        ))),
        require_uncursed: true,
        ..requirement(id_sword())
    };
    assert_eq!(invalid.validate(), Err(QueryError::UncursedWithCurse));

    let mixed = Requirement {
        effect: EffectRequirement::OneOf(
            EffectSet::from_effects(&[
                Effect::Weapon(WeaponEffect::Displacing),
                Effect::Weapon(WeaponEffect::Blazing),
            ])
            .unwrap(),
        ),
        require_uncursed: true,
        ..requirement(id_sword())
    };
    assert_eq!(mixed.validate(), Ok(()));
}

#[test]
fn plus_four_is_valid_only_for_rings() {
    let ring = Requirement {
        upgrade: UpgradeRequirement::Exact(4),
        ..requirement(id_ring_sharpshooting())
    };
    assert_eq!(ring.validate(), Ok(()));

    let wand = Requirement {
        upgrade: UpgradeRequirement::Exact(4),
        ..requirement(id_wand_frost())
    };
    assert_eq!(wand.validate(), Err(QueryError::InvalidUpgrade));
}

#[test]
fn tier_predicates_match_exact_minimum_and_maximum_tiers() {
    let tier_five = Requirement {
        kind: ItemKind::Weapon,
        weapon_category: None,
        item: None,
        tier: TierRequirement::Exact(5),
        ..requirement(id_sword())
    };
    assert!(tier_five.matches(&world_item(id_greatsword(), Accessibility::Independent)));
    assert!(!tier_five.matches(&world_item(id_longsword(), Accessibility::Independent)));

    let tier_four_plus = Requirement {
        tier: TierRequirement::AtLeast(4),
        ..tier_five
    };
    assert!(tier_four_plus.matches(&world_item(id_longsword(), Accessibility::Independent)));
    assert!(
        tier_four_plus.matches(&world_item(id_greatsword(), Accessibility::Independent))
    );
    assert!(!tier_four_plus.matches(&world_item(id_sword(), Accessibility::Independent)));

    let tier_four_or_lower = Requirement {
        tier: TierRequirement::AtMost(4),
        ..tier_five
    };
    assert!(
        tier_four_or_lower.matches(&world_item(id_longsword(), Accessibility::Independent))
    );
    assert!(tier_four_or_lower.matches(&world_item(id_sword(), Accessibility::Independent)));
    assert!(
        !tier_four_or_lower
            .matches(&world_item(id_greatsword(), Accessibility::Independent))
    );

    let invalid = Requirement {
        kind: ItemKind::Wand,
        item: None,
        ..tier_five
    };
    assert_eq!(invalid.validate(), Err(QueryError::InvalidTier));

    let tier_one = Requirement {
        tier: TierRequirement::Exact(1),
        ..tier_five
    };
    assert_eq!(tier_one.validate(), Err(QueryError::InvalidTier));

    for redundant in [
        TierRequirement::AtLeast(2),
        TierRequirement::AtLeast(5),
        TierRequirement::AtMost(2),
        TierRequirement::AtMost(5),
    ] {
        assert_eq!(
            Requirement {
                tier: redundant,
                ..tier_five
            }
            .validate(),
            Err(QueryError::InvalidTier)
        );
    }
}

#[test]
fn linked_wands_require_distinct_copies_and_a_blacksmith_in_range() {
    let linked = |upgrade, source| Requirement {
        kind: ItemKind::Wand,
        weapon_category: None,
        item: None,
        upgrade,
        source,
        identity_group: Some(1),
        ..requirement(id_wand_frost())
    };
    let mut staff = query(
        vec![
            linked(
                UpgradeRequirement::Exact(3),
                Some(ItemSource::WandmakerReward),
            ),
            linked(UpgradeRequirement::AtLeast(0), None),
            linked(UpgradeRequirement::AtLeast(0), None),
            Requirement {
                kind: ItemKind::Wand,
                weapon_category: None,
                item: None,
                upgrade: UpgradeRequirement::Exact(1),
                ..requirement(id_wand_frost())
            },
        ],
        14,
    );
    staff.require_blacksmith = true;
    let make = |item, upgrade, depth, source| WorldItem {
        item,
        upgrade,
        effect: None,
        cursed: false,
        depth,
        source,
        accessibility: Accessibility::Independent,
    };
    let sample = world(vec![
        make(id_wand_frost(), 3, 7, ItemSource::WandmakerReward),
        make(id_wand_frost(), 0, 2, ItemSource::Heap),
        make(id_wand_frost(), 1, 4, ItemSource::Chest),
        make(id_wand_lightning(), 1, 5, ItemSource::Heap),
        make(id_sword(), 2, 13, ItemSource::BlacksmithReward),
    ]);

    assert_eq!(staff.validate(), Ok(()));
    assert!(staff.matches(&sample));

    let mut wrong_type = sample.clone();
    wrong_type.items[2].item = id_wand_lightning();
    assert!(!staff.matches(&wrong_type));

    staff.max_depth = 12;
    assert!(!staff.matches(&sample));
}

#[test]
fn smith_rewards_can_be_excluded_without_hiding_the_blacksmith() {
    let mut reforging = query(vec![requirement(id_sword())], 14);
    reforging.require_blacksmith = true;
    reforging.exclude_blacksmith_rewards = true;
    let make = |source| WorldItem {
        item: id_sword(),
        upgrade: 2,
        effect: None,
        cursed: false,
        depth: 13,
        source,
        accessibility: Accessibility::Independent,
    };
    let smith_only = world(vec![make(ItemSource::BlacksmithReward)]);

    assert!(!reforging.matches(&smith_only));

    let mut reforging_setup = smith_only.clone();
    reforging_setup.items.push(make(ItemSource::Heap));
    assert!(reforging.matches(&reforging_setup));

    reforging.require_blacksmith = false;
    let no_blacksmith = world(vec![make(ItemSource::Heap)]);
    assert!(reforging.matches(&no_blacksmith));
}

#[test]
fn wildcard_does_not_hide_conflicting_concrete_identity_group_members() {
    let linked = |item| Requirement {
        kind: ItemKind::Wand,
        weapon_category: None,
        item,
        upgrade: UpgradeRequirement::Any,
        identity_group: Some(1),
        ..requirement(id_wand_frost())
    };
    let inconsistent = query(
        vec![
            linked(Some(id_wand_frost())),
            linked(None),
            linked(Some(id_wand_lightning())),
        ],
        24,
    );
    assert_eq!(
        inconsistent.validate(),
        Err(QueryError::InconsistentIdentityGroup)
    );
}

#[test]
fn identity_groups_may_disagree_across_alternatives_of_one_slot() {
    let linked = |item, alternative_group| Requirement {
        kind: ItemKind::Wand,
        item,
        upgrade: UpgradeRequirement::Any,
        identity_group: Some(1),
        alternative_group,
        ..requirement(id_wand_frost())
    };
    // Alternatives are never assigned together, so they may name
    // different items while sharing an identity group.
    let alternatives = query(
        vec![
            linked(Some(id_wand_frost()), Some(1)),
            linked(Some(id_wand_lightning()), Some(1)),
            linked(None, None),
        ],
        24,
    );
    assert_eq!(alternatives.validate(), Ok(()));
    // A concrete requirement outside the slot still has to agree with
    // every member it could be assigned alongside.
    let conflicting = query(
        vec![
            linked(Some(id_wand_frost()), Some(1)),
            linked(Some(id_wand_lightning()), Some(1)),
            linked(Some(id_wand_corruption()), None),
        ],
        24,
    );
    assert_eq!(
        conflicting.validate(),
        Err(QueryError::InconsistentIdentityGroup)
    );
}

#[test]
fn one_of_effect_sets_match_any_member_and_nothing_else() {
    let wanted = Requirement {
        item: Some(id_greatshield()),
        upgrade: UpgradeRequirement::Exact(2),
        effect: EffectRequirement::OneOf(
            EffectSet::from_effects(&[
                Effect::Weapon(WeaponEffect::Blocking),
                Effect::Weapon(WeaponEffect::Projecting),
                Effect::Weapon(WeaponEffect::Vampiric),
            ])
            .unwrap(),
        ),
        ..requirement(id_greatshield())
    };
    assert_eq!(wanted.validate(), Ok(()));

    let mut candidate = world_item(id_greatshield(), Accessibility::Independent);
    assert!(!wanted.matches(&candidate));
    candidate.effect = Some(Effect::Weapon(WeaponEffect::Projecting));
    assert!(wanted.matches(&candidate));
    candidate.effect = Some(Effect::Weapon(WeaponEffect::Blazing));
    assert!(!wanted.matches(&candidate));
}

#[test]
fn any_enchantment_set_requires_a_non_curse_effect() {
    let enchanted = Requirement {
        item: None,
        kind: ItemKind::Weapon,
        upgrade: UpgradeRequirement::Any,
        effect: EffectRequirement::OneOf(EffectSet::enchantments(ItemKind::Weapon).unwrap()),
        ..requirement(id_sword())
    };
    assert_eq!(enchanted.validate(), Ok(()));

    let mut candidate = world_item(id_sword(), Accessibility::Independent);
    assert!(!enchanted.matches(&candidate));
    candidate.effect = Some(Effect::Weapon(WeaponEffect::Lucky));
    assert!(enchanted.matches(&candidate));
    candidate.effect = Some(Effect::Weapon(WeaponEffect::Annoying));
    assert!(!enchanted.matches(&candidate));

    let glyphed = EffectSet::enchantments(ItemKind::Armor).unwrap();
    assert!(glyphed.contains(Effect::Armor(ArmorEffect::Thorns)));
    assert!(!glyphed.contains(Effect::Armor(ArmorEffect::Stench)));
    assert!(EffectSet::enchantments(ItemKind::Ring).is_none());
}

#[test]
fn effect_sets_reject_foreign_families() {
    assert!(
        EffectSet::from_effects(&[
            Effect::Weapon(WeaponEffect::Blazing),
            Effect::Armor(ArmorEffect::Thorns),
        ])
        .is_none()
    );

    let mismatched = Requirement {
        effect: EffectRequirement::OneOf(EffectSet::single(Effect::Armor(ArmorEffect::Thorns))),
        ..requirement(id_sword())
    };
    assert_eq!(mismatched.validate(), Err(QueryError::EffectKindMismatch));

    let on_ring = Requirement {
        effect: EffectRequirement::OneOf(EffectSet::single(Effect::Weapon(
            WeaponEffect::Blazing,
        ))),
        upgrade: UpgradeRequirement::Any,
        ..requirement(id_ring_might())
    };
    assert_eq!(on_ring.validate(), Err(QueryError::EffectKindMismatch));
}

#[test]
fn alternatives_satisfy_the_group_with_any_single_member() {
    let alternative = |item, upgrade| Requirement {
        item: Some(item),
        kind: ItemKind::Weapon,
        upgrade: UpgradeRequirement::Exact(upgrade),
        alternative_group: Some(1),
        ..requirement(item)
    };
    let either = query(
        vec![
            alternative(id_spear(), 3),
            alternative(id_shuriken(), 2),
            alternative(id_sword(), 1),
        ],
        24,
    );
    assert_eq!(either.validate(), Ok(()));

    let make = |item, upgrade| WorldItem {
        item,
        upgrade,
        effect: None,
        cursed: false,
        depth: 3,
        source: ItemSource::Heap,
        accessibility: Accessibility::Independent,
    };
    assert!(either.matches(&world(vec![make(id_shuriken(), 2)])));
    assert!(either.matches(&world(vec![make(id_sword(), 1)])));
    assert!(!either.matches(&world(vec![
        make(id_sword(), 2),
        make(id_spear(), 1),
        make(id_shuriken(), 3),
    ])));
}

#[test]
fn an_alternative_group_occupies_one_slot_alongside_other_requirements() {
    let alternative = |item| Requirement {
        item: Some(item),
        kind: ItemKind::Weapon,
        upgrade: UpgradeRequirement::Any,
        alternative_group: Some(3),
        ..requirement(item)
    };
    let sword_and_either = query(
        vec![
            alternative(id_spear()),
            alternative(id_sword()),
            Requirement {
                upgrade: UpgradeRequirement::Any,
                ..requirement(id_sword())
            },
        ],
        24,
    );
    let make = |item| WorldItem {
        item,
        upgrade: 0,
        effect: None,
        cursed: false,
        depth: 3,
        source: ItemSource::Heap,
        accessibility: Accessibility::Independent,
    };
    // One sword cannot satisfy both the group and the plain requirement.
    assert!(!sword_and_either.matches(&world(vec![make(id_sword())])));
    assert!(sword_and_either.matches(&world(vec![make(id_sword()), make(id_spear())])));
    assert!(sword_and_either.matches(&world(vec![make(id_sword()), make(id_sword())])));
}

#[test]
fn upgrade_sum_totals_combine_linked_ring_upgrades() {
    let ring = || Requirement {
        kind: ItemKind::Ring,
        item: Some(id_ring_might()),
        upgrade: UpgradeRequirement::Any,
        identity_group: Some(1),
        upgrade_sum: Some(UpgradeSum {
            group: 1,
            minimum_total: 2,
        }),
        ..requirement(id_ring_might())
    };
    let pair = query(vec![ring(), ring()], 4);
    assert_eq!(pair.validate(), Ok(()));

    let make = |item, upgrade| WorldItem {
        item,
        upgrade,
        effect: None,
        cursed: false,
        depth: 3,
        source: ItemSource::Heap,
        accessibility: Accessibility::Independent,
    };
    // +0 and +2 total the wanted +2, as do two +1 rings.
    assert!(pair.matches(&world(vec![
        make(id_ring_might(), 0),
        make(id_ring_might(), 2),
    ])));
    assert!(pair.matches(&world(vec![
        make(id_ring_might(), 1),
        make(id_ring_might(), 1),
    ])));
    // Two +0 rings fall short; a +2 alone is only one distinct copy.
    assert!(!pair.matches(&world(vec![
        make(id_ring_might(), 0),
        make(id_ring_might(), 0),
    ])));
    assert!(!pair.matches(&world(vec![make(id_ring_might(), 2)])));
    // The identity group still applies: different rings never pair up.
    assert!(!pair.matches(&world(vec![
        make(id_ring_might(), 1),
        make(id_ring_haste(), 1),
    ])));
}

#[test]
fn upgrade_sum_members_keep_their_own_upgrade_predicates() {
    let member = |upgrade| Requirement {
        kind: ItemKind::Wand,
        item: Some(id_wand_frost()),
        upgrade,
        upgrade_sum: Some(UpgradeSum {
            group: 2,
            minimum_total: 3,
        }),
        ..requirement(id_wand_frost())
    };
    let wands = query(
        vec![
            member(UpgradeRequirement::AtLeast(2)),
            member(UpgradeRequirement::Any),
        ],
        24,
    );
    let make = |upgrade| WorldItem {
        item: id_wand_frost(),
        upgrade,
        effect: None,
        cursed: false,
        depth: 3,
        source: ItemSource::Heap,
        accessibility: Accessibility::Independent,
    };
    // +1/+2 reaches the total but violates the first member's predicate on
    // one assignment order; the matcher must find the valid one.
    assert!(wands.matches(&world(vec![make(1), make(2)])));
    assert!(!wands.matches(&world(vec![make(1), make(1)])));
    assert!(wands.matches(&world(vec![make(3), make(0)])));
}

#[test]
fn upgrade_sum_validation_rejects_inconsistent_or_unattainable_groups() {
    let member = |minimum_total| Requirement {
        kind: ItemKind::Ring,
        item: None,
        upgrade: UpgradeRequirement::Any,
        upgrade_sum: Some(UpgradeSum {
            group: 1,
            minimum_total,
        }),
        ..requirement(id_ring_might())
    };
    let inconsistent = query(vec![member(2), member(3)], 24);
    assert_eq!(
        inconsistent.validate(),
        Err(QueryError::InconsistentUpgradeSum)
    );

    let unattainable = query(vec![member(9), member(9)], 24);
    assert_eq!(
        unattainable.validate(),
        Err(QueryError::UnattainableUpgradeSum)
    );

    let attainable = query(vec![member(8), member(8)], 24);
    assert_eq!(attainable.validate(), Ok(()));

    let zero_total = query(vec![member(0), member(0)], 24);
    assert_eq!(zero_total.validate(), Err(QueryError::InvalidUpgradeSum));

    let mut inside_alternative = member(2);
    inside_alternative.alternative_group = Some(1);
    assert_eq!(
        inside_alternative.validate(),
        Err(QueryError::UpgradeSumInsideAlternative)
    );
}

#[test]
fn exact_upgrades_bound_what_a_sum_group_can_reach() {
    let member = |upgrade| Requirement {
        kind: ItemKind::Wand,
        item: None,
        upgrade,
        upgrade_sum: Some(UpgradeSum {
            group: 1,
            minimum_total: 5,
        }),
        ..requirement(id_wand_frost())
    };
    let capped = query(
        vec![
            member(UpgradeRequirement::Exact(1)),
            member(UpgradeRequirement::Exact(2)),
        ],
        24,
    );
    assert_eq!(capped.validate(), Err(QueryError::UnattainableUpgradeSum));

    let reachable = query(
        vec![
            member(UpgradeRequirement::Exact(2)),
            member(UpgradeRequirement::Exact(3)),
        ],
        24,
    );
    assert_eq!(reachable.validate(), Ok(()));
}

#[test]
fn best_match_indices_reports_partial_and_grouped_matches() {
    let make = |item, upgrade, depth| WorldItem {
        item,
        upgrade,
        effect: None,
        cursed: false,
        depth,
        source: ItemSource::Heap,
        accessibility: Accessibility::Independent,
    };
    let sample = world(vec![
        make(id_ring_might(), 0, 2),
        make(id_sword(), 1, 3),
        make(id_ring_might(), 1, 5),
    ]);

    // A satisfied pair plus a missing wand: only the pair is highlighted.
    let ring = || Requirement {
        kind: ItemKind::Ring,
        item: Some(id_ring_might()),
        upgrade: UpgradeRequirement::Any,
        identity_group: Some(1),
        upgrade_sum: Some(UpgradeSum {
            group: 1,
            minimum_total: 1,
        }),
        ..requirement(id_ring_might())
    };
    let mixed = query(
        vec![ring(), ring(), {
            Requirement {
                kind: ItemKind::Wand,
                item: Some(id_wand_frost()),
                upgrade: UpgradeRequirement::Any,
                ..requirement(id_wand_frost())
            }
        }],
        24,
    );
    let mut matched = best_match_indices(&mixed, &sample);
    matched.sort_unstable();
    assert_eq!(matched, vec![0, 2]);

    // A pair that misses its total leaves both rings unhighlighted, while
    // an alternative group still claims the sword.
    let short_ring = || Requirement {
        upgrade_sum: Some(UpgradeSum {
            group: 1,
            minimum_total: 4,
        }),
        ..ring()
    };
    let alternative = |item| Requirement {
        item: Some(item),
        kind: ItemKind::Weapon,
        upgrade: UpgradeRequirement::Any,
        alternative_group: Some(1),
        ..requirement(item)
    };
    let grouped = query(
        vec![
            short_ring(),
            short_ring(),
            alternative(id_spear()),
            alternative(id_sword()),
        ],
        24,
    );
    assert_eq!(best_match_indices(&grouped, &sample), vec![1]);
}

#[test]
fn best_match_indices_agrees_with_full_matching() {
    let make = |item, upgrade| WorldItem {
        item,
        upgrade,
        effect: None,
        cursed: false,
        depth: 3,
        source: ItemSource::Heap,
        accessibility: Accessibility::Independent,
    };
    let ring = || Requirement {
        kind: ItemKind::Ring,
        item: Some(id_ring_might()),
        upgrade: UpgradeRequirement::Any,
        identity_group: Some(1),
        upgrade_sum: Some(UpgradeSum {
            group: 1,
            minimum_total: 2,
        }),
        ..requirement(id_ring_might())
    };
    let pair = query(vec![ring(), ring()], 24);
    let matching = world(vec![make(id_ring_might(), 0), make(id_ring_might(), 2)]);
    let short = world(vec![make(id_ring_might(), 0), make(id_ring_might(), 1)]);
    assert!(pair.matches(&matching));
    assert_eq!(best_match_indices(&pair, &matching).len(), 2);
    assert!(!pair.matches(&short));
    assert!(best_match_indices(&pair, &short).is_empty());
}

#[test]
fn effect_sets_list_members_in_catalog_order() {
    let set = EffectSet::from_effects(&[
        Effect::Weapon(WeaponEffect::Vampiric),
        Effect::Weapon(WeaponEffect::Blazing),
        Effect::Weapon(WeaponEffect::Blazing),
        Effect::Weapon(WeaponEffect::Lucky),
    ])
    .unwrap();
    assert_eq!(
        set.effects(),
        vec![
            Effect::Weapon(WeaponEffect::Blazing),
            Effect::Weapon(WeaponEffect::Lucky),
            Effect::Weapon(WeaponEffect::Vampiric),
        ]
    );
    assert_eq!(set.len(), 3);
    assert!(!set.is_empty());
    assert_eq!(set.family(), ItemKind::Weapon);
    assert!(EffectSet::from_effects(&[]).is_none());
    assert_eq!(EffectSet::enchantments(ItemKind::Weapon).unwrap().len(), 17);
    assert_eq!(EffectSet::enchantments(ItemKind::Armor).unwrap().len(), 13);
    assert!(EffectSet::enchantments(ItemKind::Wand).is_none());
}

#[test]
fn effect_set_intersections_and_curse_filters() {
    let left = EffectSet::from_effects(&[
        Effect::Armor(ArmorEffect::Thorns),
        Effect::Armor(ArmorEffect::Stench),
        Effect::Armor(ArmorEffect::Flow),
    ])
    .unwrap();
    let right = EffectSet::from_effects(&[
        Effect::Armor(ArmorEffect::Stench),
        Effect::Armor(ArmorEffect::Flow),
    ])
    .unwrap();
    let shared = left.intersection(right).unwrap();
    assert_eq!(
        shared.effects(),
        vec![Effect::Armor(ArmorEffect::Flow), Effect::Armor(ArmorEffect::Stench)]
    );
    let blazing = EffectSet::single(Effect::Weapon(WeaponEffect::Blazing));
    assert!(left.intersection(blazing).is_none());
    let thorns = EffectSet::single(Effect::Armor(ArmorEffect::Thorns));
    assert!(right.intersection(thorns).is_none());

    let positives = left.without_curses().unwrap();
    assert_eq!(
        positives.effects(),
        vec![Effect::Armor(ArmorEffect::Flow), Effect::Armor(ArmorEffect::Thorns)]
    );
    assert!(!left.is_curses_only());
    let stench = EffectSet::single(Effect::Armor(ArmorEffect::Stench));
    assert!(stench.without_curses().is_none());
    assert!(stench.is_curses_only());
}

#[test]
fn an_empty_query_matches_every_world_but_does_not_validate() {
    let empty = query(Vec::new(), 10);
    assert_eq!(empty.validate(), Err(QueryError::Empty));
    assert!(empty.matches(&world(Vec::new())));
    assert!(best_match_indices(&empty, &world(vec![plain(id_sword(), 1)])).is_empty());
    assert_eq!(query(vec![requirement(id_sword())], 0).validate(), Err(QueryError::InvalidDepth));
    assert_eq!(query(vec![requirement(id_sword())], 25).validate(), Err(QueryError::InvalidDepth));
}

#[test]
fn requirement_depth_and_group_labels_are_validated() {
    let mut limited = requirement(id_sword());
    limited.max_depth = Some(25);
    assert_eq!(limited.validate(), Err(QueryError::InvalidDepth));
    limited.max_depth = Some(24);
    assert_eq!(limited.validate(), Ok(()));

    let mut identity = requirement(id_sword());
    identity.identity_group = Some(0);
    assert_eq!(identity.validate(), Err(QueryError::InvalidIdentityGroup));

    let mut alternative = requirement(id_sword());
    alternative.alternative_group = Some(0);
    assert_eq!(alternative.validate(), Err(QueryError::InvalidAlternativeGroup));

    let mut exact_zero = requirement(id_sword());
    exact_zero.upgrade = UpgradeRequirement::Exact(0);
    assert_eq!(exact_zero.validate(), Err(QueryError::InvalidUpgrade));

    let mut at_least = requirement(id_ring_might());
    at_least.upgrade = UpgradeRequirement::AtLeast(4);
    assert_eq!(at_least.validate(), Ok(()));
    assert_eq!(at_least.maximum_upgrade(), 4);
    let mut wand_exact = requirement(id_wand_frost());
    wand_exact.upgrade = UpgradeRequirement::Exact(3);
    assert_eq!(wand_exact.maximum_upgrade(), 3);
    wand_exact.upgrade = UpgradeRequirement::Any;
    assert_eq!(wand_exact.maximum_upgrade(), 3);
}

#[test]
fn matching_identity_reports_the_candidate_item() {
    let mut wildcard = requirement(id_sword());
    wildcard.item = None;
    wildcard.upgrade = UpgradeRequirement::AtLeast(1);
    let candidate = plain(id_longsword(), 1);
    assert_eq!(wildcard.matching_identity(&candidate), Some(id_longsword()));
    assert_eq!(wildcard.matching_identity(&plain(id_longsword(), 0)), None);
    assert_eq!(requirement(id_sword()).matching_identity(&plain(id_longsword(), 2)), None);
    let mut sourced = requirement(id_sword());
    sourced.source = Some(ItemSource::Chest);
    assert!(!sourced.matches(&plain(id_sword(), 2)));
    sourced.source = Some(ItemSource::Heap);
    assert!(sourced.matches(&plain(id_sword(), 2)));
}

#[test]
fn scenario_masks_must_share_one_bit_across_all_chosen_items() {
    let masked = |item, mask| WorldItem {
        accessibility: Accessibility::Scenarios { group: 4, mask },
        ..plain(item, 2)
    };
    let items = world(vec![
        masked(id_sword(), 0b011),
        masked(id_mail_armor(), 0b110),
        masked(id_wand_frost(), 0b101),
    ]);
    let pairs = query(vec![requirement(id_sword()), requirement(id_mail_armor())], 10);
    assert!(pairs.matches(&items));
    let all_three = query(
        vec![requirement(id_sword()), requirement(id_mail_armor()), requirement(id_wand_frost())],
        10,
    );
    assert!(!all_three.matches(&items));
}

#[test]
fn query_error_messages_explain_the_problem() {
    assert_eq!(QueryError::Empty.message(), "at least one item requirement is needed");
    assert_eq!(
        QueryError::InvalidDepth.message(),
        "maximum depth must be between 1 and 24"
    );
    assert_eq!(
        QueryError::UnattainableUpgradeSum.message(),
        "the combined upgrade total exceeds what the group's items can carry"
    );
}
