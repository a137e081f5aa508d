//! The +3 trinket a run brews, and the floor feelings the Mossy Clump or the
//! default trinket schedule forces.

use vstd::prelude::*;

use crate::catalog::ItemId;
use crate::query::Requirement;
use crate::rng::{list_shuffle, scrambled, seeded_state, top, RandomStack};
use crate::tables::Feeling;

verus! {

/// Every trinket of the catalyst deck.
#[derive(Clone, Copy, Debug, PartialEq, Eq, Structural, Hash)]
pub enum TrinketKind {
    RatSkull,
    ParchmentScrap,
    PetrifiedSeed,
    ExoticCrystals,
    MossyClump,
    DimensionalSundial,
    ThirteenLeafClover,
    TrapMechanism,
    MimicTooth,
    WondrousResin,
    EyeOfNewt,
    SaltCube,
    VialOfBlood,
    ShardOfOblivion,
    ChaoticCenser,
    FerretTuft,
    CrackedSpyglass,
}

/// The forced-feeling schedule before shuffling: two grass floors among six
/// with the Mossy Clump, otherwise three trap floors among six.
pub open spec fn schedule(moss: bool) -> Seq<bool> {
    if moss {
        seq![true, true, false, false, false, false]
    } else {
        seq![true, true, true, false, false, false]
    }
}

/// A schedule shuffled `times` times in a row by one generator.
pub open spec fn shuffled_times(values: Seq<bool>, state: u64, times: nat) -> (Seq<bool>, u64)
    decreases times,
{
    if times == 0 {
        (values, state)
    } else {
        let (earlier, after) = shuffled_times(values, state, (times - 1) as nat);
        list_shuffle(earlier, after, earlier.len())
    }
}

/// The feeling a schedule entry forces.
pub open spec fn forced_feeling(moss: bool, marked: bool) -> Feeling {
    if moss {
        if marked {
            Feeling::Grass
        } else {
            Feeling::Water
        }
    } else {
        if marked {
            Feeling::Traps
        } else {
            Feeling::Chasm
        }
    }
}

/// Per-run +3 generation effects: the brewed trinket and the feeling
/// schedule it forces, refilled and reshuffled whenever it runs out.
#[derive(Clone, Debug)]
pub struct TrinketEffects {
    pub selected: Option<TrinketKind>,
    dungeon_seed: i64,
    feelings: Vec<bool>,
    shuffles: u32,
}

impl TrinketEffects {
    /// The brewed trinket.
    pub closed spec fn brewed(&self) -> Option<TrinketKind> {
        self.selected
    }

    /// The dungeon seed the schedule is shuffled from.
    pub closed spec fn seed(&self) -> i64 {
        self.dungeon_seed
    }

    /// The schedule entries not yet used.
    pub closed spec fn pending(&self) -> Seq<bool> {
        self.feelings@
    }

    /// How many times the schedule was filled.
    pub closed spec fn refills(&self) -> u32 {
        self.shuffles
    }

    /// The effects of a run brewing `selected`.
    pub fn new(selected: Option<TrinketKind>, dungeon_seed: i64) -> (effects: Self)
        ensures
            effects.brewed() == selected,
            effects.seed() == dungeon_seed,
            effects.pending().len() == 0,
            effects.refills() == 0,
    {
        TrinketEffects { selected, dungeon_seed, feelings: Vec::new(), shuffles: 0 }
    }

    /// Whether the run brews this trinket.
    pub fn is(&self, kind: TrinketKind) -> (brewed: bool)
        ensures
            brewed == (self.brewed() == Some(kind)),
    {
        match self.selected {
            Some(selected) => selected == kind,
            None => false,
        }
    }

    /// The trinket's level: +3 when brewed, otherwise -1 (not held).
    pub fn level(&self, kind: TrinketKind) -> (level: i32)
        ensures
            level == (if self.brewed() == Some(kind) {
                3i32
            } else {
                -1i32
            }),
    {
        if self.is(kind) {
            3
        } else {
            -1
        }
    }

    /// The next forced floor feeling. An exhausted schedule is refilled and
    /// shuffled once more than the last time, by a fresh generator seeded
    /// with the dungeon seed plus one; every refill is a rearrangement of the
    /// schedule, so each six floors force the same feelings in some order.
    pub fn next_feeling(&mut self) -> (feeling: Feeling)
        requires
            old(self).refills() < u32::MAX,
        ensures
            final(self).brewed() == old(self).brewed(),
            final(self).seed() == old(self).seed(),
            ({
                let moss = old(self).brewed() == Some(TrinketKind::MossyClump);
                if old(self).pending().len() == 0 {
                    let filled = shuffled_times(
                        schedule(moss),
                        seeded_state(scrambled(old(self).seed().wrapping_add(1))),
                        (old(self).refills() + 1) as nat,
                    ).0;
                    &&& filled.to_multiset() == schedule(moss).to_multiset()
                    &&& feeling == forced_feeling(moss, filled[0])
                    &&& final(self).pending() == filled.drop_first()
                    &&& final(self).refills() == old(self).refills() + 1
                } else {
                    &&& feeling == forced_feeling(moss, old(self).pending()[0])
                    &&& final(self).pending() == old(self).pending().drop_first()
                    &&& final(self).refills() == old(self).refills()
                }
            }),
    {
        let moss = self.is(TrinketKind::MossyClump);
        if self.feelings.len() == 0 {
            let mut fresh: [bool; 6] = if moss {
                [true, true, false, false, false, false]
            } else {
                [true, true, true, false, false, false]
            };
            proof {
                assert(fresh@ =~= schedule(moss));
            }
            let mut random = RandomStack::with_base_seed(0);
            random.push(self.dungeon_seed.wrapping_add(1));
            let ghost start = top(random@);
            proof {
                assert(start == seeded_state(scrambled(self.dungeon_seed.wrapping_add(1))));
            }
            let mut round: u64 = 0;
            while round <= self.shuffles as u64
                invariant
                    random.wf(),
                    round <= self.shuffles as u64 + 1,
                    (fresh@, top(random@)) == shuffled_times(schedule(moss), start, round as nat),
                    fresh@.len() == 6,
                    fresh@.to_multiset() == schedule(moss).to_multiset(),
                decreases self.shuffles as u64 + 1 - round,
            {
                random.shuffle_list(&mut fresh);
                round = round + 1;
            }
            self.shuffles = self.shuffles + 1;
            let mut feelings: Vec<bool> = Vec::new();
            let mut i: usize = 0;
            while i < 6
                invariant
                    i <= 6,
                    feelings@ == fresh@.take(i as int),
                decreases 6 - i,
            {
                feelings.push(fresh[i]);
                proof {
                    assert(fresh@.take((i + 1) as int) =~= fresh@.take(i as int).push(fresh@[i as int]));
                }
                i = i + 1;
            }
            proof {
                assert(fresh@.take(6) =~= fresh@);
            }
            self.feelings = feelings;
        }
        let marked = self.feelings.remove(0);
        if moss {
            if marked {
                Feeling::Grass
            } else {
                Feeling::Water
            }
        } else {
            if marked {
                Feeling::Traps
            } else {
                Feeling::Chasm
            }
        }
    }
}

/// How many trinkets the catalyst offers at first.
pub const INITIAL_OFFER_COUNT: usize = 4;

/// Some alternative of some slot asks for this trinket.
pub open spec fn requested(slots: Seq<Vec<Requirement>>, id: ItemId) -> bool {
    exists|i: int, j: int| 0 <= i < slots.len() && 0 <= j < slots[i]@.len() && #[trigger] slots[i]@[j].item == Some(id)
}

/// The offers some slot asks for, in offer order.
pub open spec fn requested_offers(offers: Seq<ItemId>, slots: Seq<Vec<Requirement>>) -> Seq<ItemId>
    decreases offers.len(),
{
    if offers.len() == 0 {
        Seq::empty()
    } else {
        let earlier = requested_offers(offers.drop_last(), slots);
        if requested(slots, offers.last()) {
            earlier.push(offers.last())
        } else {
            earlier
        }
    }
}

/// Whether some alternative of some slot asks for the trinket.
fn is_requested(slots: &[Vec<Requirement>], id: ItemId) -> (found: bool)
    ensures
        found == requested(slots@, id),
{
    let mut i: usize = 0;
    while i < slots.len()
        invariant
            i <= slots@.len(),
            forall|a: int, b: int| 0 <= a < i && 0 <= b < slots@[a]@.len() ==> #[trigger] slots@[a]@[b].item != Some(id),
        decreases slots@.len() - i,
    {
        let slot = &slots[i];
        let mut j: usize = 0;
        while j < slot.len()
            invariant
                i < slots@.len(),
                slot == &slots@[i as int],
                j <= slot@.len(),
                forall|b: int| 0 <= b < j ==> #[trigger] slot@[b].item != Some(id),
            decreases slot@.len() - j,
        {
            let asked = match slot[j].item {
                Some(x) => x == id,
                None => false,
            };
            if asked {
                proof {
                    assert(slots@[i as int]@[j as int].item == Some(id));
                }
                return true;
            }
            j = j + 1;
        }
        i = i + 1;
    }
    false
}

/// The trinket a run's queries select: the one initial offer that some
/// slot asks for, and none when no offer or more than one is asked for.
/// `order` is the run's trinket deck in draw order.
pub fn resolve_selection(order: &[ItemId], slots: &[Vec<Requirement>]) -> (selected: Option<ItemId>)
    requires
        order@.len() >= INITIAL_OFFER_COUNT,
    ensures
        ({
            let asked = requested_offers(order@.take(INITIAL_OFFER_COUNT as int), slots@);
            selected == if asked.len() == 1 { Some(asked[0]) } else { None::<ItemId> }
        }),
{
    let mut selected: Option<ItemId> = None;
    let mut count: usize = 0;
    let mut k: usize = 0;
    while k < INITIAL_OFFER_COUNT
        invariant
            k <= INITIAL_OFFER_COUNT <= order@.len(),
            count == requested_offers(order@.take(k as int), slots@).len(),
            count >= 1 ==> selected == Some(requested_offers(order@.take(k as int), slots@)[0]),
            count <= k,
        decreases INITIAL_OFFER_COUNT - k,
    {
        proof {
            assert(order@.take(k + 1).drop_last() =~= order@.take(k as int));
        }
        if is_requested(slots, order[k]) {
            if count == 0 {
                selected = Some(order[k]);
            }
            count = count + 1;
        }
        k = k + 1;
    }
    if count == 1 {
        selected
    } else {
        None
    }
}

} // verus!
