use seedfinder_core::catalog::{ItemId, ItemKind};
use seedfinder_core::model::{Accessibility, ItemSource, WorldItem};
use seedfinder_core::rng::RandomStack;
use seedfinder_core::shop::{DirectShopItem, ShopError, ShopHourglassState, ShopRunState};
use seedfinder_core::shop_stock::{
    ShopInventory, ShopRoomCache, ShopStock, ShopStockItem, StockRequest,
};

fn plain(index: u16, kind: ItemKind) -> ItemId {
    ItemId {
        index,
        kind,
        tier: None,
        category: None,
    }
}

fn armor_classes() -> [ItemId; 4] {
    [
        plain(200, ItemKind::Armor),
        plain(201, ItemKind::Armor),
        plain(202, ItemKind::Armor),
        plain(203, ItemKind::Armor),
    ]
}

/// Stocks a shop, answering every roll with a fresh number or item and
/// every sand-bag question with `sand_bags`.
fn stock_shop(
    depth: i32,
    run_state: &mut ShopRunState,
    random: &mut RandomStack,
    sand_bags: i32,
) -> (ShopInventory<u32>, Vec<StockRequest>) {
    let mut stock: ShopStock<u32> = ShopStock::begin(depth, &armor_classes()).unwrap();
    let mut requests = Vec::new();
    let mut next = 0u32;
    loop {
        let request = stock.request(run_state);
        requests.push(request);
        next += 1;
        match request {
            StockRequest::Weapon(_) | StockRequest::Missile(_) | StockRequest::Wand => {
                stock.offer_searchable(plain(next as u16, ItemKind::Weapon), random);
            }
            StockRequest::TippedDart => {
                stock.offer_dart(plain(next as u16, ItemKind::Weapon), 0, None, false, run_state, random);
            }
            StockRequest::Potion | StockRequest::Scroll | StockRequest::Ring | StockRequest::Artifact => {
                stock.offer_generated(next, run_state, random);
            }
            StockRequest::SandBags(_) => {
                stock.offer_sand_bags(sand_bags, run_state, random);
            }
            StockRequest::Done => break,
        }
    }
    (stock.into_inventory(), requests)
}

fn count_direct(inventory: &ShopInventory<u32>, wanted: DirectShopItem) -> usize {
    inventory
        .items
        .iter()
        .filter(|item| **item == ShopStockItem::Direct(wanted))
        .count()
}

#[test]
fn only_the_five_shop_depths_have_a_shop() {
    for depth in [6, 11, 16, 20, 21] {
        assert!(ShopStock::<u32>::begin(depth, &armor_classes()).is_ok());
    }
    for depth in [-1, 0, 5, 7, 15, 19, 22, 26] {
        assert!(matches!(
            ShopStock::<u32>::begin(depth, &armor_classes()),
            Err(ShopError::UnsupportedDepth(d)) if d == depth
        ));
    }
}

#[test]
fn a_first_shop_stocks_the_fixed_items_around_the_rolls() {
    let mut run_state = ShopRunState::default();
    let mut random = RandomStack::with_base_seed(1234);
    let (inventory, requests) = stock_shop(6, &mut run_state, &mut random, 0);
    assert_eq!(inventory.depth, 6);
    assert_eq!(requests[0], StockRequest::Weapon(2));
    assert_eq!(requests[1], StockRequest::Missile(2));
    assert_eq!(requests[2], StockRequest::TippedDart);
    assert_eq!(requests[3], StockRequest::Potion);
    assert_eq!(requests[4], StockRequest::Potion);
    assert_eq!(*requests.last().unwrap(), StockRequest::Done);

    // Armor, weapon, missile, dart, alchemize, bag, healing, two potions,
    // three scrolls, two draws, two rations, bomb, ankh, stone, rare item.
    assert_eq!(inventory.items.len(), 20);
    for fixed in [
        DirectShopItem::PotionOfHealing,
        DirectShopItem::ScrollOfIdentify,
        DirectShopItem::ScrollOfRemoveCurse,
        DirectShopItem::ScrollOfMagicMapping,
        DirectShopItem::Ankh,
        DirectShopItem::StoneOfAugmentation,
    ] {
        assert_eq!(count_direct(&inventory, fixed), 1, "{fixed:?}");
    }
    assert_eq!(count_direct(&inventory, DirectShopItem::SmallRation), 2);
    assert_eq!(count_direct(&inventory, DirectShopItem::Torch), 0);
    let alchemize: Vec<i32> = inventory
        .items
        .iter()
        .filter_map(|item| match item {
            ShopStockItem::Direct(DirectShopItem::Alchemize { quantity }) => Some(*quantity),
            _ => None,
        })
        .collect();
    assert_eq!(alchemize.len(), 1);
    assert!((2..=3).contains(&alchemize[0]));
    let armor: Vec<_> = inventory
        .items
        .iter()
        .filter_map(|item| match item {
            ShopStockItem::Searchable(found) if found.item.kind == ItemKind::Armor => Some(*found),
            _ => None,
        })
        .collect();
    assert_eq!(armor.len(), 1);
    assert_eq!(armor[0].item, plain(200, ItemKind::Armor));
    assert_eq!(armor[0].source, ItemSource::Shop);
    assert_eq!(armor[0].accessibility, Accessibility::Independent);
    assert_eq!(armor[0].depth, 6);
    assert_eq!(armor[0].upgrade, 0);
}

#[test]
fn the_last_shops_add_torches_and_plate() {
    let mut run_state = ShopRunState::default();
    let mut random = RandomStack::with_base_seed(99);
    let (inventory, requests) = stock_shop(21, &mut run_state, &mut random, 0);
    assert_eq!(requests[0], StockRequest::Weapon(5));
    assert_eq!(count_direct(&inventory, DirectShopItem::Torch), 3);
    assert!(inventory.items.iter().any(|item| matches!(
        item,
        ShopStockItem::Searchable(found) if found.item == plain(203, ItemKind::Armor)
    )));
}

#[test]
fn a_carried_hourglass_gets_the_sand_bags_it_is_owed() {
    let mut run_state = ShopRunState::default();
    run_state.hourglass = ShopHourglassState::Eligible { sand_bags: 1 };
    let mut random = RandomStack::with_base_seed(5);
    let (inventory, requests) = stock_shop(16, &mut run_state, &mut random, 2);
    assert!(requests.contains(&StockRequest::SandBags(1)));
    assert_eq!(count_direct(&inventory, DirectShopItem::HourglassSandBag), 2);
    assert_eq!(run_state.hourglass, ShopHourglassState::Eligible { sand_bags: 3 });
}

#[test]
fn the_stock_is_shuffled_on_a_child_of_one_long_draw() {
    let mut run_state = ShopRunState::default();
    let mut random = RandomStack::with_base_seed(1234);
    let (inventory, _) = stock_shop(6, &mut run_state, &mut random, 0);
    // The same run again gives the same seed and order; the level stream
    // after the shop has moved past exactly that one `Long()`.
    let mut again_state = ShopRunState::default();
    let mut again = RandomStack::with_base_seed(1234);
    let (repeat, _) = stock_shop(6, &mut again_state, &mut again, 0);
    assert_eq!(inventory.shuffle_seed, repeat.shuffle_seed);
    assert!(inventory.items == repeat.items);
    assert_eq!(random.next_int(), again.next_int());
}

#[test]
fn same_room_cache_keeps_the_first_stock() {
    let mut cache: ShopRoomCache<u32> = ShopRoomCache::new();
    assert!(!cache.is_generated());
    assert!(cache.cached().is_none());
    let mut run_state = ShopRunState::default();
    let mut random = RandomStack::with_base_seed(8);
    let (inventory, _) = stock_shop(11, &mut run_state, &mut random, 0);
    let seed = inventory.shuffle_seed;
    let count = inventory.items.len();
    cache.store(inventory);
    assert!(cache.is_generated());
    let cached = cache.cached().unwrap();
    assert_eq!(cached.shuffle_seed, seed);
    assert_eq!(cached.items.len(), count);
    assert_eq!(cached.depth, 11);
}

#[test]
fn searchable_items_lists_only_the_searchable_stock_in_order() {
    let sold = |index: u16| WorldItem {
        item: plain(index, ItemKind::Weapon),
        upgrade: 0,
        effect: None,
        cursed: false,
        depth: 6,
        source: ItemSource::Shop,
        accessibility: Accessibility::Independent,
    };
    let inventory: ShopInventory<u32> = ShopInventory {
        depth: 6,
        items: vec![
            ShopStockItem::Searchable(sold(7)),
            ShopStockItem::Direct(DirectShopItem::Torch),
            ShopStockItem::Generated(3),
            ShopStockItem::Searchable(sold(5)),
        ],
        shuffle_seed: 0,
    };
    assert_eq!(inventory.searchable_items(), vec![sold(7), sold(5)]);
}

#[test]
fn every_searchable_shop_item_has_a_cleared_roll() {
    for depth in [6, 11, 16, 20, 21] {
        let mut run_state = ShopRunState::default();
        let mut random = RandomStack::with_base_seed(i64::from(depth) * 7);
        let (inventory, _) = stock_shop(depth, &mut run_state, &mut random, 1);
        let searchable = inventory.searchable_items();
        assert!(searchable.len() >= 4);
        for item in searchable {
            assert_eq!(item.upgrade, 0);
            assert_eq!(item.effect, None);
            assert!(!item.cursed);
            assert_eq!(item.source, ItemSource::Shop);
            assert_eq!(item.depth, depth as u8);
        }
    }
}
