//! Seed finding for Shattered Pixel Dungeon: a bit-exact replica of the
//! game's random number generators, seed codes, and the query, queue and
//! loot rules that decide what a generated world offers.

pub mod rng;
pub mod text;
pub mod seed;
pub mod catalog;
pub mod model;
pub mod query;
pub mod coverage;
pub mod artifacts;
pub mod vault_loot;
pub mod vault_floor;
pub mod vault_sentries;
pub mod vault_setup;
pub mod vault_paint;
pub mod secret_paint;
pub mod tables;
pub mod trinkets;
pub mod level_prelude;
pub mod room_decks;
pub mod special_forced;
pub mod results_export;
pub mod shop;
pub mod shop_stock;
