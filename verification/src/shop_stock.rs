//! Shop stock (`ShopRoom.generateItems()`) as a sequence of verified steps.
//!
//! The shops of depths 6, 11, 16, 20 and 21 stock the tier's armor, torches
//! on the last floors, a weapon, a thrown weapon, a tipped dart, alchemize,
//! the next bag, potions and scrolls, food, a bomb or honeypot, an ankh, a
//! stone of augmentation, hourglass sand bags and one rare item, then shuffle
//! the list on a child generator. Items that the item generator rolls with
//! its weighted tables are rolled by the caller on the same generator and
//! handed in; every other draw and every decision is made here. Generated
//! items that queries do not search are carried as the caller's type `G`.

use vstd::prelude::*;

use crate::catalog::{Effect, ItemId};
use crate::model::{Accessibility, ItemSource, WorldItem};
use crate::rng::{
    int_bound_from, lcg_next, list_shuffle, long_from, scrambled, seeded_state, top, with_top,
    RandomStack,
};
use crate::shop::{
    bag_index, offered_bag, remains_after, ShopBagKind, DirectShopItem, ShopBagOffer, ShopBagState, ShopError, ShopHourglassState,
    ShopRunState,
};

verus! {

/// The two bombs a shop may stock.
#[derive(Clone, Copy, Debug, PartialEq, Eq, Structural)]
pub enum ShopBomb {
    Plain,
    Double,
}

/// One entry of a shop's stock list.
#[derive(Clone, Copy, Debug, PartialEq, Eq)]
pub enum ShopStockItem<G> {
    /// Weapons, armor, thrown weapons and rare wands, which queries search.
    Searchable(WorldItem),
    /// A rolled item that queries do not search.
    Generated(G),
    /// A bomb, constructed without a roll.
    Bomb(ShopBomb),
    /// Stock constructed without any roll.
    Direct(DirectShopItem),
}

/// What the caller has to roll next for a shop being stocked.
#[derive(Clone, Copy, Debug, PartialEq, Eq, Structural)]
pub enum StockRequest {
    /// A melee weapon of the given weapon tier, from the generator's deck.
    Weapon(u8),
    /// A thrown weapon of the given weapon tier, from the generator's deck.
    Missile(u8),
    /// A tipped dart stack of two.
    TippedDart,
    /// A potion with the default weights.
    Potion,
    /// A scroll with the default weights.
    Scroll,
    /// The number of hourglass sand bags for a carried hourglass with this
    /// many bags: `ceil((5 - sand_bags) * fraction)` for the depth's fraction.
    SandBags(i32),
    /// A rare wand, from the generator's deck; its roll is cleared.
    Wand,
    /// A rare ring, from the generator's deck; its roll is cleared.
    Ring,
    /// A rare artifact, from the generator's deck, uncursed.
    Artifact,
    /// The stock is complete and shuffled.
    Done,
}

/// Where the stocking of a shop stands.
#[derive(Clone, Copy, Debug, PartialEq, Eq, Structural)]
pub enum StockPhase {
    Weapon,
    Missile,
    TippedDart,
    /// The first or second potion.
    Potion(u8),
    /// The first or second draw between a potion and a scroll.
    Choice(u8, bool),
    SandBags,
    RareWand,
    RareRing,
    RareArtifact,
    Done,
}

/// The complete stock of one shop.
pub struct ShopInventory<G> {
    pub depth: u8,
    /// The stock in the order the shuffle left it.
    pub items: Vec<ShopStockItem<G>>,
    /// The one `Long()` of the level's generator that seeded the shuffle.
    pub shuffle_seed: i64,
}

/// A stock entry that queries search carries a cleared roll and the shop
/// as its source.
pub open spec fn clean_entry<G>(entry: ShopStockItem<G>) -> bool {
    match entry {
        ShopStockItem::Searchable(w) => w.upgrade == 0 && w.effect is None && !w.cursed && w.source == ItemSource::Shop,
        _ => true,
    }
}

/// Every searchable entry of a stock list is clean.
pub open spec fn clean_searchables<G>(items: Seq<ShopStockItem<G>>) -> bool {
    forall|i: int| 0 <= i < items.len() ==> clean_entry(#[trigger] items[i])
}

/// Reordering a stock list keeps its searchable entries clean.
proof fn lemma_clean_reordered<G>(before: Seq<ShopStockItem<G>>, after: Seq<ShopStockItem<G>>)
    requires
        before.to_multiset() == after.to_multiset(),
        clean_searchables(before),
    ensures
        clean_searchables(after),
{
    before.to_multiset_ensures();
    after.to_multiset_ensures();
    assert forall|j: int| 0 <= j < after.len() implies clean_entry(#[trigger] after[j]) by {
        assert(after.contains(after[j]));
        assert(after.to_multiset().count(after[j]) > 0);
        assert(before.to_multiset().count(after[j]) > 0);
        assert(before.contains(after[j]));
        let i = choose|i: int| 0 <= i < before.len() && before[i] == after[j];
        assert(clean_entry(before[i]));
    }
}

/// The searchable entries of a stock list, in order.
pub open spec fn searchable_of<G>(items: Seq<ShopStockItem<G>>) -> Seq<WorldItem>
    decreases items.len(),
{
    if items.len() == 0 {
        Seq::empty()
    } else {
        let earlier = searchable_of(items.drop_last());
        match items.last() {
            ShopStockItem::Searchable(item) => earlier.push(item),
            _ => earlier,
        }
    }
}

impl<G> ShopInventory<G> {
    /// The stock that queries search, in stock order.
    pub fn searchable_items(&self) -> (found: Vec<WorldItem>)
        ensures
            found@ == searchable_of(self.items@),
    {
        let mut found: Vec<WorldItem> = Vec::new();
        let mut i: usize = 0;
        while i < self.items.len()
            invariant
                i <= self.items@.len(),
                found@ == searchable_of(self.items@.take(i as int)),
            decreases self.items@.len() - i,
        {
            proof {
                assert(self.items@.take(i + 1).drop_last() =~= self.items@.take(i as int));
            }
            match &self.items[i] {
                ShopStockItem::Searchable(item) => {
                    found.push(*item);
                },
                _ => {},
            }
            i = i + 1;
        }
        proof {
            assert(self.items@.take(self.items@.len() as int) =~= self.items@);
        }
        found
    }
}

/// A shop being stocked.
pub struct ShopStock<G> {
    depth: u8,
    items: Vec<ShopStockItem<G>>,
    phase: StockPhase,
    shuffle_seed: i64,
}

/// The weapon tier a shop at `depth` stocks from.
pub open spec fn shop_tier(depth: int) -> u8 {
    if depth == 6 {
        2
    } else if depth == 11 {
        3
    } else if depth == 16 {
        4
    } else {
        5
    }
}

/// The depths that have a shop.
pub open spec fn is_shop_depth(depth: int) -> bool {
    depth == 6 || depth == 11 || depth == 16 || depth == 20 || depth == 21
}

/// A shop item as queries see it: found at the shop, reachable on its own.
pub open spec fn shop_item(item: ItemId, upgrade: u8, effect: Option<Effect>, cursed: bool, depth: u8) -> WorldItem {
    WorldItem {
        item,
        upgrade,
        effect,
        cursed,
        depth,
        source: ItemSource::Shop,
        accessibility: Accessibility::Independent,
    }
}

/// The stock a shop starts from: the tier's armor, and three torches on the
/// last floors.
pub open spec fn opening_stock<G>(depth: u8, armor_classes: Seq<ItemId>) -> Seq<ShopStockItem<G>> {
    let armor = seq![
        ShopStockItem::Searchable(shop_item(armor_classes[shop_tier(depth as int) - 2], 0, None, false, depth)),
    ];
    if depth >= 20 {
        armor + seq![
            ShopStockItem::Direct(DirectShopItem::Torch),
            ShopStockItem::Direct(DirectShopItem::Torch),
            ShopStockItem::Direct(DirectShopItem::Torch),
        ]
    } else {
        armor
    }
}

/// The state of a shop being stocked, with the generator stack and the run's
/// shop state.
pub struct StockModel<G> {
    pub items: Seq<ShopStockItem<G>>,
    pub phase: StockPhase,
    pub states: Seq<u64>,
    pub shuffle_seed: i64,
}

/// The stock complete: one `Long()` seeds a child generator that shuffles
/// the list, and is popped again.
pub open spec fn finished<G>(items: Seq<ShopStockItem<G>>, states: Seq<u64>) -> StockModel<G> {
    let seed = long_from(top(states));
    StockModel {
        items: list_shuffle(items, seeded_state(scrambled(seed)), items.len()).0,
        phase: StockPhase::Done,
        states: with_top(states, lcg_next(lcg_next(top(states)))),
        shuffle_seed: seed,
    }
}

/// The rare item: a draw of ten picks a wand, a ring, an artifact, or
/// (seven times in ten) a stylus that completes the stock at once.
pub open spec fn after_rare_draw<G>(items: Seq<ShopStockItem<G>>, states: Seq<u64>) -> StockModel<G> {
    let drawn = int_bound_from(top(states), 10);
    let states1 = with_top(states, drawn.1);
    if drawn.0 == 0 {
        StockModel { items, phase: StockPhase::RareWand, states: states1, shuffle_seed: 0 }
    } else if drawn.0 == 1 {
        StockModel { items, phase: StockPhase::RareRing, states: states1, shuffle_seed: 0 }
    } else if drawn.0 == 2 {
        StockModel { items, phase: StockPhase::RareArtifact, states: states1, shuffle_seed: 0 }
    } else {
        finished(items.push(ShopStockItem::Direct(DirectShopItem::Stylus)), states1)
    }
}

/// After the second potion-or-scroll: two rations, a draw of four for a
/// plain bomb, a double bomb (two in four) or a honeypot, an ankh and a stone
/// of augmentation; then sand bags for a carried hourglass, or the rare item.
pub open spec fn after_choices<G>(
    items: Seq<ShopStockItem<G>>,
    states: Seq<u64>,
    hourglass: ShopHourglassState,
) -> StockModel<G> {
    let drawn = int_bound_from(top(states), 4);
    let states1 = with_top(states, drawn.1);
    let bomb = if drawn.0 == 0 {
        ShopStockItem::Bomb(ShopBomb::Plain)
    } else if drawn.0 <= 2 {
        ShopStockItem::Bomb(ShopBomb::Double)
    } else {
        ShopStockItem::Direct(DirectShopItem::Honeypot)
    };
    let items1 = items + seq![
        ShopStockItem::Direct(DirectShopItem::SmallRation),
        ShopStockItem::Direct(DirectShopItem::SmallRation),
        bomb,
        ShopStockItem::Direct(DirectShopItem::Ankh),
        ShopStockItem::Direct(DirectShopItem::StoneOfAugmentation),
    ];
    if hourglass is Eligible {
        StockModel { items: items1, phase: StockPhase::SandBags, states: states1, shuffle_seed: 0 }
    } else {
        after_rare_draw(items1, states1)
    }
}

/// A draw of two between a potion (0) and a scroll.
pub open spec fn after_choice_draw<G>(items: Seq<ShopStockItem<G>>, states: Seq<u64>, which: u8) -> StockModel<G> {
    let drawn = int_bound_from(top(states), 2);
    StockModel {
        items,
        phase: StockPhase::Choice(which, drawn.0 != 0),
        states: with_top(states, drawn.1),
        shuffle_seed: 0,
    }
}

/// What handing in a rolled, unsearched item does.
pub open spec fn after_generated<G>(
    model: StockModel<G>,
    item: G,
    hourglass: ShopHourglassState,
) -> StockModel<G> {
    let items = model.items.push(ShopStockItem::Generated(item));
    match model.phase {
        StockPhase::Potion(0) => StockModel { items, phase: StockPhase::Potion(1), ..model },
        StockPhase::Potion(_) => after_choice_draw(
            items + seq![
                ShopStockItem::Direct(DirectShopItem::ScrollOfIdentify),
                ShopStockItem::Direct(DirectShopItem::ScrollOfRemoveCurse),
                ShopStockItem::Direct(DirectShopItem::ScrollOfMagicMapping),
            ],
            model.states,
            0,
        ),
        StockPhase::Choice(0, _) => after_choice_draw(items, model.states, 1),
        StockPhase::Choice(_, _) => after_choices(items, model.states, hourglass),
        _ => finished(items, model.states),
    }
}

/// What handing in a rolled weapon, thrown weapon or rare wand does: it is
/// stocked with a cleared roll.
pub open spec fn after_searchable<G>(model: StockModel<G>, item: ItemId, depth: u8) -> StockModel<G> {
    let items = model.items.push(ShopStockItem::Searchable(shop_item(item, 0, None, false, depth)));
    match model.phase {
        StockPhase::Weapon => StockModel { items, phase: StockPhase::Missile, ..model },
        StockPhase::Missile => StockModel { items, phase: StockPhase::TippedDart, ..model },
        _ => finished(items, model.states),
    }
}

/// The request of a phase.
pub open spec fn request_of(phase: StockPhase, depth: u8, hourglass: ShopHourglassState) -> StockRequest {
    match phase {
        StockPhase::Weapon => StockRequest::Weapon(shop_tier(depth as int)),
        StockPhase::Missile => StockRequest::Missile(shop_tier(depth as int)),
        StockPhase::TippedDart => StockRequest::TippedDart,
        StockPhase::Potion(_) => StockRequest::Potion,
        StockPhase::Choice(_, scroll) => if scroll {
            StockRequest::Scroll
        } else {
            StockRequest::Potion
        },
        StockPhase::SandBags => StockRequest::SandBags(match hourglass {
            ShopHourglassState::Eligible { sand_bags } => sand_bags,
            ShopHourglassState::Ineligible => 0,
        }),
        StockPhase::RareWand => StockRequest::Wand,
        StockPhase::RareRing => StockRequest::Ring,
        StockPhase::RareArtifact => StockRequest::Artifact,
        StockPhase::Done => StockRequest::Done,
    }
}

/// The bag state after a shop offered `offer`, as `ShopBagState::offer_next`
/// states it.
pub open spec fn bag_offered(before: ShopBagState, after: ShopBagState) -> bool {
    &&& after.scores() == before.scores()
    &&& forall|n: u8| n < 16 ==> (after.possible(n) <==> remains_after(before.masks(), before.scores(), n))
}

/// The offer `ShopBagState::offer_next` makes from a bag state: nothing when
/// no bag may remain, the one best-scoring bag, or every tied bag.
pub open spec fn bag_offer_made(bags: ShopBagState, offer: Option<ShopBagOffer>) -> bool {
    match offer {
        None => forall|j: u8| j < 4 ==> !offered_bag(bags.masks(), bags.scores(), j),
        Some(ShopBagOffer::Deterministic(bag)) => forall|j: u8|
            j < 4 ==> (offered_bag(bags.masks(), bags.scores(), j) <==> j == bag_index(bag)),
        Some(ShopBagOffer::RuntimeHashMapTie { candidates }) => candidates@.len() > 1 && forall|
            b: ShopBagKind,
        | candidates@.contains(b) <==> offered_bag(bags.masks(), bags.scores(), bag_index(b)),
    }
}

impl<G: Copy> ShopStock<G> {
    /// The shop's depth.
    pub closed spec fn depth(&self) -> u8 {
        self.depth
    }

    /// The state of the stocking, given the generator stack.
    pub closed spec fn model(&self, states: Seq<u64>) -> StockModel<G> {
        StockModel { items: self.items@, phase: self.phase, states, shuffle_seed: self.shuffle_seed }
    }

    /// The step the stocking awaits.
    pub closed spec fn phase(&self) -> StockPhase {
        self.phase
    }

    /// The stock so far, shuffled once the phase is done.
    pub closed spec fn items(&self) -> Seq<ShopStockItem<G>> {
        self.items@
    }

    /// The `Long()` that seeded the shuffle, once done.
    pub closed spec fn seed(&self) -> i64 {
        self.shuffle_seed
    }

    /// A shop depth, and no shuffle seed before the stock is done.
    pub closed spec fn wf(&self) -> bool {
        &&& is_shop_depth(self.depth as int)
        &&& self.phase != StockPhase::Done ==> self.shuffle_seed == 0
    }

    /// Starts stocking the shop at `depth`: the tier's armor and, on the last
    /// floors, three torches; then a weapon is awaited. Only the five shop
    /// depths have a shop.
    pub fn begin(depth: i32, armor_classes: &[ItemId; 4]) -> (result: Result<Self, ShopError>)
        ensures
            result matches Ok(stock) ==> clean_searchables(stock.items()),
            (result is Err) <==> !is_shop_depth(depth as int),
            result is Err ==> result == Err::<Self, ShopError>(ShopError::UnsupportedDepth(depth)),
            result matches Ok(stock) ==> {
                &&& stock.wf()
                &&& stock.depth() == depth
                &&& stock.phase() == StockPhase::Weapon
                &&& stock.items() == opening_stock::<G>(depth as u8, armor_classes@)
            },
    {
        let tier: usize = if depth == 6 {
            0
        } else if depth == 11 {
            1
        } else if depth == 16 {
            2
        } else if depth == 20 || depth == 21 {
            3
        } else {
            return Err(ShopError::UnsupportedDepth(depth));
        };
        let depth_u8 = depth as u8;
        let mut items: Vec<ShopStockItem<G>> = Vec::new();
        items.push(ShopStockItem::Searchable(make_shop_item(armor_classes[tier], 0, None, false, depth_u8)));
        if depth >= 20 {
            items.push(ShopStockItem::Direct(DirectShopItem::Torch));
            items.push(ShopStockItem::Direct(DirectShopItem::Torch));
            items.push(ShopStockItem::Direct(DirectShopItem::Torch));
        }
        let stock = ShopStock { depth: depth_u8, items, phase: StockPhase::Weapon, shuffle_seed: 0 };
        assert(stock.items() =~= opening_stock::<G>(depth as u8, armor_classes@));
        Ok(stock)
    }

    /// Seeds a child generator with one `Long()`, shuffles the stock on it
    /// and pops it again.
    #[verifier::spinoff_prover]
    fn finish(&mut self, random: &mut RandomStack)
        requires
            old(random).wf(),
        ensures
            clean_searchables(old(self).items()) ==> clean_searchables(final(self).items()),
            final(random).wf(),
            final(self).depth == old(self).depth,
            final(self).items@ == finished(old(self).items@, old(random)@).items,
            final(self).phase == StockPhase::Done,
            final(self).shuffle_seed == finished(old(self).items@, old(random)@).shuffle_seed,
            final(random)@ == finished(old(self).items@, old(random)@).states,
            final(self).items@.to_multiset() == old(self).items@.to_multiset(),
    {
        let seed = random.long();
        shuffle_on_child(&mut self.items, seed, random);
        self.shuffle_seed = seed;
        self.phase = StockPhase::Done;
        proof {
            if clean_searchables(old(self).items@) {
                lemma_clean_reordered(old(self).items@, self.items@);
            }
        }
    }

    /// The rare item's draw; a stylus completes the stock at once.
    fn draw_rare(&mut self, random: &mut RandomStack)
        requires
            old(random).wf(),
        ensures
            clean_searchables(old(self).items()) ==> clean_searchables(final(self).items()),
            final(random).wf(),
            final(self).depth == old(self).depth,
            final(self).model(final(random)@) == after_rare_draw(old(self).items@, old(random)@),
    {
        let drawn = random.int_bound(10);
        if drawn == 0 {
            self.phase = StockPhase::RareWand;
            self.shuffle_seed = 0;
        } else if drawn == 1 {
            self.phase = StockPhase::RareRing;
            self.shuffle_seed = 0;
        } else if drawn == 2 {
            self.phase = StockPhase::RareArtifact;
            self.shuffle_seed = 0;
        } else {
            self.items.push(ShopStockItem::Direct(DirectShopItem::Stylus));
            self.finish(random);
        }
    }

    /// Hands in the weapon, the thrown weapon or the rare wand that was
    /// asked for; it is stocked with a cleared roll.
    pub fn offer_searchable(&mut self, item: ItemId, random: &mut RandomStack)
        requires
            old(self).wf(),
            old(random).wf(),
            old(self).phase() == StockPhase::Weapon || old(self).phase() == StockPhase::Missile
                || old(self).phase() == StockPhase::RareWand,
        ensures
            clean_searchables(old(self).items()) ==> clean_searchables(final(self).items()),
            final(self).wf(),
            final(random).wf(),
            final(self).depth() == old(self).depth(),
            final(self).model(final(random)@) == after_searchable(
                old(self).model(old(random)@),
                item,
                old(self).depth(),
            ),
    {
        self.items.push(ShopStockItem::Searchable(make_shop_item(item, 0, None, false, self.depth)));
        match self.phase {
            StockPhase::Weapon => {
                self.phase = StockPhase::Missile;
            },
            StockPhase::Missile => {
                self.phase = StockPhase::TippedDart;
            },
            _ => {
                self.finish(random);
            },
        }
    }

    /// Hands in the tipped dart stack that was asked for, with its roll; then
    /// alchemize in a quantity of two or three is drawn, the next bag is
    /// offered if one may remain, and a potion of healing is stocked.
    pub fn offer_dart(
        &mut self,
        item: ItemId,
        upgrade: u8,
        effect: Option<Effect>,
        cursed: bool,
        run_state: &mut ShopRunState,
        random: &mut RandomStack,
    ) -> (offer: Option<ShopBagOffer>)
        requires
            old(self).wf(),
            old(random).wf(),
            old(self).phase() == StockPhase::TippedDart,
        ensures
            clean_searchables(old(self).items()) && upgrade == 0 && effect is None && !cursed ==> clean_searchables(final(self).items()),
            final(self).wf(),
            final(random).wf(),
            final(self).depth() == old(self).depth(),
            final(self).phase() == StockPhase::Potion(0),
            final(self).seed() == old(self).seed(),
            final(random)@ == with_top(old(random)@, int_bound_from(top(old(random)@), 2).1),
            final(self).items() == old(self).items().push(
                ShopStockItem::Searchable(shop_item(item, upgrade, effect, cursed, old(self).depth())),
            ).push(
                ShopStockItem::Direct(
                    DirectShopItem::Alchemize { quantity: (2 + int_bound_from(top(old(random)@), 2).0) as i32 },
                ),
            ) + match offer {
                Some(bag) => seq![ShopStockItem::Direct(DirectShopItem::Bag(bag))],
                None => Seq::empty(),
            } + seq![ShopStockItem::Direct(DirectShopItem::PotionOfHealing)],
            bag_offered(old(run_state).bags, final(run_state).bags),
            final(run_state).hourglass == old(run_state).hourglass,
            bag_offer_made(old(run_state).bags, offer),
    {
        self.items.push(ShopStockItem::Searchable(make_shop_item(item, upgrade, effect, cursed, self.depth)));
        let drawn = random.int_bound(2);
        self.items.push(ShopStockItem::Direct(DirectShopItem::Alchemize { quantity: 2 + drawn }));
        let ghost before = self.items@;
        let offer = run_state.bags.offer_next();
        match offer {
            Some(bag) => {
                self.items.push(ShopStockItem::Direct(DirectShopItem::Bag(bag)));
            },
            None => {},
        }
        self.items.push(ShopStockItem::Direct(DirectShopItem::PotionOfHealing));
        self.phase = StockPhase::Potion(0);
        proof {
            match offer {
                Some(bag) => {
                    assert(self.items@ =~= before + seq![ShopStockItem::Direct(DirectShopItem::Bag(bag))]
                        + seq![ShopStockItem::Direct(DirectShopItem::PotionOfHealing)]);
                },
                None => {
                    assert(self.items@ =~= before + Seq::<ShopStockItem<G>>::empty()
                        + seq![ShopStockItem::Direct(DirectShopItem::PotionOfHealing)]);
                },
            }
        }
        offer
    }

    /// Hands in the potion, scroll, ring or artifact that was asked for.
    pub fn offer_generated(&mut self, item: G, run_state: &ShopRunState, random: &mut RandomStack)
        requires
            old(self).wf(),
            old(random).wf(),
            old(self).phase() is Potion || old(self).phase() is Choice || old(self).phase()
                == StockPhase::RareRing || old(self).phase() == StockPhase::RareArtifact,
        ensures
            clean_searchables(old(self).items()) ==> clean_searchables(final(self).items()),
            final(self).wf(),
            final(random).wf(),
            final(self).depth() == old(self).depth(),
            final(self).model(final(random)@) == after_generated(
                old(self).model(old(random)@),
                item,
                run_state.hourglass,
            ),
    {
        self.items.push(ShopStockItem::Generated(item));
        match self.phase {
            StockPhase::Potion(which) => self.after_potion(which, random),
            StockPhase::Choice(which, _) => self.after_choice(which, run_state, random),
            _ => self.finish(random),
        }
    }

    /// After a potion: the second one is awaited, or after the second the
    /// three fixed scrolls are stocked and the first potion-or-scroll drawn.
    fn after_potion(&mut self, which: u8, random: &mut RandomStack)
        requires
            old(random).wf(),
        ensures
            clean_searchables(old(self).items()) ==> clean_searchables(final(self).items()),
            final(random).wf(),
            final(self).depth == old(self).depth,
            final(self).model(final(random)@) == (if which == 0 {
                StockModel { phase: StockPhase::Potion(1), ..old(self).model(old(random)@) }
            } else {
                after_choice_draw(
                    old(self).items@ + seq![
                        ShopStockItem::Direct(DirectShopItem::ScrollOfIdentify),
                        ShopStockItem::Direct(DirectShopItem::ScrollOfRemoveCurse),
                        ShopStockItem::Direct(DirectShopItem::ScrollOfMagicMapping),
                    ],
                    old(random)@,
                    0,
                )
            }),
    {
        if which == 0 {
            self.phase = StockPhase::Potion(1);
        } else {
            self.items.push(ShopStockItem::Direct(DirectShopItem::ScrollOfIdentify));
            self.items.push(ShopStockItem::Direct(DirectShopItem::ScrollOfRemoveCurse));
            self.items.push(ShopStockItem::Direct(DirectShopItem::ScrollOfMagicMapping));
            let drawn = random.int_bound(2);
            self.phase = StockPhase::Choice(0, drawn != 0);
            self.shuffle_seed = 0;
            assert(self.items@ =~= old(self).items@ + seq![
                ShopStockItem::Direct(DirectShopItem::ScrollOfIdentify),
                ShopStockItem::Direct(DirectShopItem::ScrollOfRemoveCurse),
                ShopStockItem::Direct(DirectShopItem::ScrollOfMagicMapping),
            ]);
        }
    }

    /// After a potion-or-scroll: the second is drawn, or after the second
    /// the closing stock follows.
    fn after_choice(&mut self, which: u8, run_state: &ShopRunState, random: &mut RandomStack)
        requires
            old(random).wf(),
        ensures
            clean_searchables(old(self).items()) ==> clean_searchables(final(self).items()),
            final(random).wf(),
            final(self).depth == old(self).depth,
            final(self).model(final(random)@) == (if which == 0 {
                after_choice_draw(old(self).items@, old(random)@, 1)
            } else {
                after_choices(old(self).items@, old(random)@, run_state.hourglass)
            }),
    {
        if which == 0 {
            let drawn = random.int_bound(2);
            self.phase = StockPhase::Choice(1, drawn != 0);
            self.shuffle_seed = 0;
        } else {
            self.closing_stock(run_state, random);
        }
    }

    /// Rations, the bomb draw, the ankh and the stone; then sand bags or the
    /// rare item.
    fn closing_stock(&mut self, run_state: &ShopRunState, random: &mut RandomStack)
        requires
            old(random).wf(),
        ensures
            clean_searchables(old(self).items()) ==> clean_searchables(final(self).items()),
            final(random).wf(),
            final(self).depth == old(self).depth,
            final(self).model(final(random)@) == after_choices(old(self).items@, old(random)@, run_state.hourglass),
    {
        let drawn = random.int_bound(4);
        let bomb = if drawn == 0 {
            ShopStockItem::Bomb(ShopBomb::Plain)
        } else if drawn <= 2 {
            ShopStockItem::Bomb(ShopBomb::Double)
        } else {
            ShopStockItem::Direct(DirectShopItem::Honeypot)
        };
        let ghost before = self.items@;
        self.items.push(ShopStockItem::Direct(DirectShopItem::SmallRation));
        self.items.push(ShopStockItem::Direct(DirectShopItem::SmallRation));
        self.items.push(bomb);
        self.items.push(ShopStockItem::Direct(DirectShopItem::Ankh));
        self.items.push(ShopStockItem::Direct(DirectShopItem::StoneOfAugmentation));
        assert(self.items@ =~= before + seq![
            ShopStockItem::Direct(DirectShopItem::SmallRation),
            ShopStockItem::Direct(DirectShopItem::SmallRation),
            bomb,
            ShopStockItem::Direct(DirectShopItem::Ankh),
            ShopStockItem::Direct(DirectShopItem::StoneOfAugmentation),
        ]);
        match run_state.hourglass {
            ShopHourglassState::Eligible { .. } => {
                self.phase = StockPhase::SandBags;
                self.shuffle_seed = 0;
            },
            ShopHourglassState::Ineligible => {
                self.draw_rare(random);
            },
        }
    }

    /// Hands in the number of sand bags for the carried hourglass: that many
    /// are stocked and counted as carried, then the rare item is drawn.
    pub fn offer_sand_bags(&mut self, count: i32, run_state: &mut ShopRunState, random: &mut RandomStack)
        requires
            old(self).wf(),
            old(random).wf(),
            old(self).phase() == StockPhase::SandBags,
            0 <= count,
            old(run_state).hourglass matches ShopHourglassState::Eligible { sand_bags } && sand_bags + count
                <= i32::MAX,
        ensures
            clean_searchables(old(self).items()) ==> clean_searchables(final(self).items()),
            final(self).wf(),
            final(random).wf(),
            final(self).depth() == old(self).depth(),
            final(self).model(final(random)@) == after_rare_draw(
                old(self).items() + Seq::new(count as nat, |i: int| ShopStockItem::Direct(DirectShopItem::HourglassSandBag)),
                old(random)@,
            ),
            final(run_state).bags == old(run_state).bags,
            final(run_state).hourglass == (match old(run_state).hourglass {
                ShopHourglassState::Eligible { sand_bags } => ShopHourglassState::Eligible {
                    sand_bags: (sand_bags + count) as i32,
                },
                ShopHourglassState::Ineligible => ShopHourglassState::Ineligible,
            }),
    {
        let mut items: Vec<ShopStockItem<G>> = Vec::new();
        std::mem::swap(&mut items, &mut self.items);
        let ghost start = items@;
        let mut added: i32 = 0;
        while added < count
            invariant
                0 <= added <= count,
                items@ == start + Seq::new(added as nat, |i: int| ShopStockItem::<G>::Direct(DirectShopItem::HourglassSandBag)),
            decreases count - added,
        {
            items.push(ShopStockItem::Direct(DirectShopItem::HourglassSandBag));
            added = added + 1;
            assert(items@ =~= start + Seq::new(added as nat, |i: int| ShopStockItem::<G>::Direct(DirectShopItem::HourglassSandBag)));
        }
        self.items = items;
        match run_state.hourglass {
            ShopHourglassState::Eligible { sand_bags } => {
                run_state.hourglass = ShopHourglassState::Eligible { sand_bags: sand_bags + count };
            },
            ShopHourglassState::Ineligible => {},
        }
        self.draw_rare(random);
    }

    /// The finished stock in its shuffled order, with the seed of its shuffle.
    pub fn into_inventory(self) -> (inventory: ShopInventory<G>)
        requires
            self.phase() == StockPhase::Done,
        ensures
            inventory.depth == self.depth(),
            inventory.items@ == self.items(),
            inventory.shuffle_seed == self.seed(),
    {
        ShopInventory { depth: self.depth, items: self.items, shuffle_seed: self.shuffle_seed }
    }

    /// What the caller has to roll next.
    pub fn request(&self, run_state: &ShopRunState) -> (request: StockRequest)
        ensures
            request == request_of(self.phase(), self.depth(), run_state.hourglass),
    {
        match self.phase {
            StockPhase::Weapon => StockRequest::Weapon(tier_of(self.depth)),
            StockPhase::Missile => StockRequest::Missile(tier_of(self.depth)),
            StockPhase::TippedDart => StockRequest::TippedDart,
            StockPhase::Potion(_) => StockRequest::Potion,
            StockPhase::Choice(_, scroll) => if scroll {
                StockRequest::Scroll
            } else {
                StockRequest::Potion
            },
            StockPhase::SandBags => StockRequest::SandBags(match run_state.hourglass {
                ShopHourglassState::Eligible { sand_bags } => sand_bags,
                ShopHourglassState::Ineligible => 0,
            }),
            StockPhase::RareWand => StockRequest::Wand,
            StockPhase::RareRing => StockRequest::Ring,
            StockPhase::RareArtifact => StockRequest::Artifact,
            StockPhase::Done => StockRequest::Done,
        }
    }
}

/// The weapon tier a shop at `depth` stocks from.
fn tier_of(depth: u8) -> (tier: u8)
    ensures
        tier == shop_tier(depth as int),
{
    if depth == 6 {
        2
    } else if depth == 11 {
        3
    } else if depth == 16 {
        4
    } else {
        5
    }
}

/// A shop item as queries see it.
fn make_shop_item(item: ItemId, upgrade: u8, effect: Option<Effect>, cursed: bool, depth: u8) -> (found: WorldItem)
    ensures
        found == shop_item(item, upgrade, effect, cursed, depth),
{
    WorldItem {
        item,
        upgrade,
        effect,
        cursed,
        depth,
        source: ItemSource::Shop,
        accessibility: Accessibility::Independent,
    }
}

/// Shuffles a list on a child generator seeded with `seed`, which is popped
/// again.
fn shuffle_on_child<T>(items: &mut Vec<T>, seed: i64, random: &mut RandomStack)
    requires
        old(random).wf(),
    ensures
        final(random).wf(),
        final(random)@ == old(random)@,
        final(items)@ == list_shuffle(old(items)@, seeded_state(scrambled(seed)), old(items)@.len()).0,
        final(items)@.to_multiset() == old(items)@.to_multiset(),
{
    let ghost outer = random@;
    proof {
        random.lemma_wf_view();
    }
    random.push(seed);
    let ghost pushed = random@;
    random.shuffle_list(items);
    assert(random@.len() == pushed.len());
    random.pop();
    assert(random@ =~= outer);
}

/// The stock a shop room spawns, generated at most once per room: a second
/// request returns the cached stock and consumes no roll.
pub struct ShopRoomCache<G> {
    inventory: Option<ShopInventory<G>>,
}

impl<G> ShopRoomCache<G> {
    /// Whether the room's stock was generated.
    pub closed spec fn generated(&self) -> bool {
        self.inventory is Some
    }

    /// The room's stock, once generated.
    pub closed spec fn stored(&self) -> Option<ShopInventory<G>> {
        self.inventory
    }

    /// A room whose stock was not generated yet.
    pub fn new() -> (cache: Self)
        ensures
            !cache.generated(),
    {
        ShopRoomCache { inventory: None }
    }

    /// Whether this room has already consumed its generation side effects.
    pub fn is_generated(&self) -> (generated: bool)
        ensures
            generated == self.generated(),
    {
        self.inventory.is_some()
    }

    /// The cached stock, once generated.
    pub fn cached(&self) -> (inventory: Option<&ShopInventory<G>>)
        ensures
            match inventory {
                Some(stock) => self.stored() == Some(*stock),
                None => !self.generated(),
            },
    {
        self.inventory.as_ref()
    }

    /// Keeps the room's stock; a room's stock is generated only once.
    pub fn store(&mut self, inventory: ShopInventory<G>)
        requires
            !old(self).generated(),
        ensures
            final(self).generated(),
            final(self).stored() == Some(inventory),
    {
        self.inventory = Some(inventory);
    }
}


/// The rare item's draw of ten: 0 asks for a wand, 1 for a ring, 2 for an
/// artifact, and anything else completes the stock with a stylus; the
/// draw's result decides the next request.
pub proof fn lemma_rare_draw_decides<G>(
    items: Seq<ShopStockItem<G>>,
    states: Seq<u64>,
    depth: u8,
    hourglass: ShopHourglassState,
)
    ensures
        ({
            let drawn = int_bound_from(top(states), 10).0;
            let after = after_rare_draw(items, states);
            &&& (after.phase == StockPhase::RareWand) <==> drawn == 0
            &&& (after.phase == StockPhase::RareRing) <==> drawn == 1
            &&& (after.phase == StockPhase::RareArtifact) <==> drawn == 2
            &&& (after.phase == StockPhase::Done) <==> !(0 <= drawn <= 2)
            &&& (request_of(after.phase, depth, hourglass) == StockRequest::Wand) <==> drawn == 0
            &&& (request_of(after.phase, depth, hourglass) == StockRequest::Ring) <==> drawn == 1
            &&& (request_of(after.phase, depth, hourglass) == StockRequest::Artifact) <==> drawn == 2
            &&& (request_of(after.phase, depth, hourglass) == StockRequest::Done) <==> !(0 <= drawn <= 2)
            &&& 0 <= drawn <= 2 ==> after.items == items && after.states == with_top(
                states,
                int_bound_from(top(states), 10).1,
            )
        }),
{
}

} // verus!
