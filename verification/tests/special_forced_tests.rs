use seedfinder_core::rng::RandomStack;
use seedfinder_core::special_forced::{AlchemyGuidePage, choose_pit_fall_cell};

#[test]
fn alchemy_pages_keep_the_game_names_and_order() {
    let names: Vec<&str> = AlchemyGuidePage::all().iter().map(|page| page.java_name()).collect();
    assert_eq!(
        names,
        [
            "Potions",
            "Stones",
            "Energy_Food",
            "Exotic_Potions",
            "Exotic_Scrolls",
            "Bombs",
            "Weapons",
            "Brews_Elixirs",
            "Spells"
        ]
    );
}

#[test]
fn pit_landing_is_one_bounded_draw() {
    let mut random = RandomStack::with_base_seed(0);
    random.push(77);
    let mut reference = random.clone();
    let candidates = [12, 40, 41, 95, 130];
    let expected = candidates[reference.int_bound(5) as usize];
    assert_eq!(choose_pit_fall_cell(&candidates, &mut random), Some(expected));
    assert_eq!(random.next_int(), reference.next_int());
}

#[test]
fn an_empty_landing_list_leaves_the_generator_alone() {
    let mut random = RandomStack::with_base_seed(0);
    random.push(5);
    let mut reference = random.clone();
    assert_eq!(choose_pit_fall_cell(&[], &mut random), None);
    assert_eq!(random.next_int(), reference.next_int());
}
