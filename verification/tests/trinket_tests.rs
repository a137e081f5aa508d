use seedfinder_core::rng::RandomStack;
use seedfinder_core::tables::Feeling;
use seedfinder_core::catalog::{ItemId, ItemKind};
use seedfinder_core::query::{EffectRequirement, Requirement, TierRequirement, UpgradeRequirement};
use seedfinder_core::trinkets::{resolve_selection, TrinketEffects, TrinketKind};

fn reference_schedule(seed: i64, moss: bool, shuffles: u32) -> Vec<bool> {
    let mut schedule = if moss {
        [true, true, false, false, false, false]
    } else {
        [true, true, true, false, false, false]
    };
    let mut random = RandomStack::with_base_seed(0);
    random.push(seed.wrapping_add(1));
    for _ in 0..=shuffles {
        random.shuffle_list(&mut schedule);
    }
    schedule.to_vec()
}

#[test]
fn brewed_trinkets_are_level_three() {
    let effects = TrinketEffects::new(Some(TrinketKind::RatSkull), 42);
    assert!(effects.is(TrinketKind::RatSkull));
    assert!(!effects.is(TrinketKind::MimicTooth));
    assert_eq!(effects.level(TrinketKind::RatSkull), 3);
    assert_eq!(effects.level(TrinketKind::MossyClump), -1);
    let none = TrinketEffects::new(None, 42);
    assert_eq!(none.level(TrinketKind::RatSkull), -1);
}

#[test]
fn feelings_follow_the_reshuffled_schedule() {
    let mut effects = TrinketEffects::new(None, 1234);
    let first = reference_schedule(1234, false, 0);
    for marked in &first {
        let expected = if *marked { Feeling::Traps } else { Feeling::Chasm };
        assert_eq!(effects.next_feeling(), expected);
    }
    let second = reference_schedule(1234, false, 1);
    for marked in &second {
        let expected = if *marked { Feeling::Traps } else { Feeling::Chasm };
        assert_eq!(effects.next_feeling(), expected);
    }
    assert_eq!(first.iter().filter(|marked| **marked).count(), 3);

    let mut mossy = TrinketEffects::new(Some(TrinketKind::MossyClump), 99);
    let schedule = reference_schedule(99, true, 0);
    let feelings: Vec<Feeling> = (0..6).map(|_| mossy.next_feeling()).collect();
    assert_eq!(feelings.iter().filter(|f| **f == Feeling::Grass).count(), 2);
    for (feeling, marked) in feelings.iter().zip(schedule) {
        assert_eq!(*feeling, if marked { Feeling::Grass } else { Feeling::Water });
    }
}

fn trinket(index: u16) -> ItemId {
    ItemId {
        index,
        kind: ItemKind::Ring,
        tier: None,
        category: None,
    }
}

fn asks_for(item: ItemId) -> Requirement {
    Requirement {
        kind: item.kind,
        weapon_category: None,
        item: Some(item),
        tier: TierRequirement::Any,
        upgrade: UpgradeRequirement::Any,
        effect: EffectRequirement::Any,
        require_uncursed: false,
        source: None,
        identity_group: None,
        max_depth: None,
        alternative_group: None,
        upgrade_sum: None,
    }
}

#[test]
fn selection_resolves_only_a_single_requested_initial_offer() {
    let order: Vec<ItemId> = (0..17).map(trinket).collect();
    // One requested offer.
    assert_eq!(resolve_selection(&order, &[vec![asks_for(trinket(2))]]), Some(trinket(2)));
    // An alternative that is not offered at first does not spoil it.
    assert_eq!(
        resolve_selection(&order, &[vec![asks_for(trinket(2)), asks_for(trinket(9))]]),
        Some(trinket(2))
    );
    // Two requested offers, within a slot or across slots, select nothing.
    assert_eq!(
        resolve_selection(&order, &[vec![asks_for(trinket(2)), asks_for(trinket(0))]]),
        None
    );
    assert_eq!(
        resolve_selection(&order, &[vec![asks_for(trinket(3))], vec![asks_for(trinket(1))]]),
        None
    );
    // Only the first four trinkets are offered.
    assert_eq!(resolve_selection(&order, &[vec![asks_for(trinket(4))]]), None);
    assert_eq!(resolve_selection(&order, &[]), None);
}
