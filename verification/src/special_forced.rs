//! Pieces of the forced special rooms that stand on their own: the Alchemy
//! Guide's page names and the Pit room's landing draw.

use vstd::prelude::*;

use crate::rng::{int_bound_from, top, with_top, RandomStack};

verus! {

/// The Alchemy Guide's pages, in the order the game lists their names.
#[derive(Clone, Copy, Debug, PartialEq, Eq, Structural, Hash)]
pub enum AlchemyGuidePage {
    Potions,
    Stones,
    EnergyFood,
    ExoticPotions,
    ExoticScrolls,
    Bombs,
    Weapons,
    BrewsElixirs,
    Spells,
}

/// The game's name of each page.
pub open spec fn page_name(page: AlchemyGuidePage) -> Seq<char> {
    match page {
        AlchemyGuidePage::Potions => "Potions"@,
        AlchemyGuidePage::Stones => "Stones"@,
        AlchemyGuidePage::EnergyFood => "Energy_Food"@,
        AlchemyGuidePage::ExoticPotions => "Exotic_Potions"@,
        AlchemyGuidePage::ExoticScrolls => "Exotic_Scrolls"@,
        AlchemyGuidePage::Bombs => "Bombs"@,
        AlchemyGuidePage::Weapons => "Weapons"@,
        AlchemyGuidePage::BrewsElixirs => "Brews_Elixirs"@,
        AlchemyGuidePage::Spells => "Spells"@,
    }
}

/// Every page, in the game's order.
pub open spec fn page_order() -> Seq<AlchemyGuidePage> {
    seq![
        AlchemyGuidePage::Potions,
        AlchemyGuidePage::Stones,
        AlchemyGuidePage::EnergyFood,
        AlchemyGuidePage::ExoticPotions,
        AlchemyGuidePage::ExoticScrolls,
        AlchemyGuidePage::Bombs,
        AlchemyGuidePage::Weapons,
        AlchemyGuidePage::BrewsElixirs,
        AlchemyGuidePage::Spells,
    ]
}

impl AlchemyGuidePage {
    /// Every page, in the game's order.
    pub fn all() -> (pages: [AlchemyGuidePage; 9])
        ensures
            pages@ == page_order(),
    {
        let pages = [
            AlchemyGuidePage::Potions,
            AlchemyGuidePage::Stones,
            AlchemyGuidePage::EnergyFood,
            AlchemyGuidePage::ExoticPotions,
            AlchemyGuidePage::ExoticScrolls,
            AlchemyGuidePage::Bombs,
            AlchemyGuidePage::Weapons,
            AlchemyGuidePage::BrewsElixirs,
            AlchemyGuidePage::Spells,
        ];
        assert(pages@ =~= page_order());
        pages
    }

    /// The page's name in the game.
    pub fn java_name(self) -> (name: &'static str)
        ensures
            name@ == page_name(self),
    {
        match self {
            AlchemyGuidePage::Potions => "Potions",
            AlchemyGuidePage::Stones => "Stones",
            AlchemyGuidePage::EnergyFood => "Energy_Food",
            AlchemyGuidePage::ExoticPotions => "Exotic_Potions",
            AlchemyGuidePage::ExoticScrolls => "Exotic_Scrolls",
            AlchemyGuidePage::Bombs => "Bombs",
            AlchemyGuidePage::Weapons => "Weapons",
            AlchemyGuidePage::BrewsElixirs => "Brews_Elixirs",
            AlchemyGuidePage::Spells => "Spells",
        }
    }
}

/// Picks the Pit room's landing cell from a precomputed candidate list the
/// way `Random.element` picks from a list: one bounded draw. An empty list
/// leaves the generator untouched.
pub fn choose_pit_fall_cell(candidates: &[usize], random: &mut RandomStack) -> (cell: Option<usize>)
    requires
        old(random).wf(),
        candidates@.len() <= i32::MAX,
    ensures
        final(random).wf(),
        candidates@.len() == 0 ==> cell is None && final(random)@ == old(random)@,
        candidates@.len() > 0 ==> {
            let drawn = int_bound_from(top(old(random)@), candidates@.len() as i32);
            &&& cell == Some(candidates@[drawn.0 as int])
            &&& final(random)@ == with_top(old(random)@, drawn.1)
        },
{
    if candidates.len() == 0 {
        return None;
    }
    let index = random.int_bound(candidates.len() as i32);
    Some(candidates[index as usize])
}

} // verus!
