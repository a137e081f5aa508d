use seedfinder_core::shop::{
    DirectShopItem, ShopBagKind, ShopBagOffer, ShopBagSet, ShopBagState, ShopError,
    ShopHourglassState, ShopRunState,
};

#[test]
fn bag_tie_is_metadata_only_and_three_shops_exhaust_all_remaining_bags() {
    let mut state = ShopRunState::default();
    let first = state.bags.offer_next().unwrap();
    assert_eq!(
        first,
        ShopBagOffer::RuntimeHashMapTie {
            candidates: ShopBagSet::one(ShopBagKind::PotionBandolier)
                .union(ShopBagSet::one(ShopBagKind::MagicalHolster))
        }
    );
    assert!(state.bags.offer_next().is_some());
    assert_eq!(
        state.bags.offer_next(),
        Some(ShopBagOffer::Deterministic(ShopBagKind::ScrollHolder))
    );
    assert!(state.bags.offer_next().is_none());
    assert!(state.bags.possibly_remaining().is_empty());
}

#[test]
fn bag_sets_list_members_in_declaration_order() {
    let all = ShopBagSet::all();
    assert_eq!(all.len(), 4);
    assert_eq!(
        all.iter(),
        vec![
            ShopBagKind::VelvetPouch,
            ShopBagKind::ScrollHolder,
            ShopBagKind::PotionBandolier,
            ShopBagKind::MagicalHolster
        ]
    );
    let without = all.without(ShopBagKind::ScrollHolder);
    assert!(!without.contains(ShopBagKind::ScrollHolder));
    assert!(without.contains(ShopBagKind::VelvetPouch));
    assert_eq!(without.len(), 3);
    assert!(ShopBagSet::empty().is_empty());
    assert!(!ShopBagSet::one(ShopBagKind::VelvetPouch).is_empty());
    assert_eq!(
        ShopBagOffer::Deterministic(ShopBagKind::ScrollHolder).candidates(),
        ShopBagSet::one(ShopBagKind::ScrollHolder)
    );
}

#[test]
fn a_fresh_warrior_can_still_find_every_bag_but_the_pouch() {
    let state = ShopBagState::canonical_warrior();
    let remaining = state.possibly_remaining();
    assert_eq!(
        remaining.iter(),
        vec![
            ShopBagKind::ScrollHolder,
            ShopBagKind::PotionBandolier,
            ShopBagKind::MagicalHolster
        ]
    );
    assert_eq!(ShopBagState::default(), state);
    let mut scored = ShopBagState::with_scores(ShopBagSet::all(), [0, 2, 1, 2]);
    assert_eq!(
        scored.offer_next(),
        Some(ShopBagOffer::RuntimeHashMapTie {
            candidates: ShopBagSet::one(ShopBagKind::ScrollHolder)
                .union(ShopBagSet::one(ShopBagKind::MagicalHolster))
        })
    );
    // Either tie winner may be gone; the bandolier is the best of what is left.
    assert_eq!(
        scored.offer_next(),
        Some(ShopBagOffer::RuntimeHashMapTie {
            candidates: ShopBagSet::one(ShopBagKind::ScrollHolder)
                .union(ShopBagSet::one(ShopBagKind::MagicalHolster))
        })
    );
    assert_eq!(
        scored.offer_next(),
        Some(ShopBagOffer::Deterministic(ShopBagKind::PotionBandolier))
    );
    assert_eq!(
        scored.offer_next(),
        Some(ShopBagOffer::Deterministic(ShopBagKind::VelvetPouch))
    );
    assert_eq!(scored.offer_next(), None);
}

#[test]
fn shop_errors_and_direct_stock_read_plainly() {
    assert_eq!(
        ShopError::UnsupportedDepth(7).message(),
        "no canonical shop at depth 7"
    );
    assert_eq!(
        ShopError::UnsupportedDepth(-12).message(),
        "no canonical shop at depth -12"
    );
    assert_eq!(
        ShopError::CacheInvariant.message(),
        "shop cache failed to retain stock"
    );
    let bag = DirectShopItem::Bag(ShopBagOffer::Deterministic(ShopBagKind::ScrollHolder));
    assert_ne!(bag, DirectShopItem::Torch);
    let run = ShopRunState::default();
    assert_eq!(run.hourglass, ShopHourglassState::Ineligible);
}
