# seedfinder_core

The deterministic core of a Shattered Pixel Dungeon seed finder, written in
Verus: the game's random number generators, seed codes and daily seeds, the
search-query model and its matcher, and the queue, loot and room rules that
decide what a generated world offers. Every function in `src/` carries a
contract that Verus proves.

## Layout

- `src/rng.rs` — Java's `Random`, the game's generator stack, the MX3 seed
  scramble, and both shuffles.
- `src/seed.rs`, `src/text.rs` — seed codes, daily dates and free-text seeds,
  with the round-trip laws between parsing and printing.
- `src/catalog.rs`, `src/model.rs` — the item facts and world items queries
  read.
- `src/query.rs` — requirements, validation, the exact matcher and the
  best-partial-match highlighter.
- `src/coverage.rs`, `src/artifacts.rs` — capacitated matching over coverage
  sets, and counting artifact placements.
- `src/room_decks.rs`, `src/level_prelude.rs`, `src/special_forced.rs`,
  `src/trinkets.rs` — special-room queues and the once-per-region
  laboratory, the Pit room's landing draw and the Alchemy Guide's pages, and
  trinket feeling schedules.
- `src/shop.rs`, `src/shop_stock.rs` — shop bag offers, and a shop's stock
  as verified steps between the item generator's rolls.
- `src/vault_loot.rs`, `src/vault_setup.rs`, `src/vault_floor.rs`,
  `src/vault_sentries.rs` — the Imp's vault: loot decks and the rolling of
  each equipment tier as verified steps, heaps, and sentry patterns.
- `src/vault_paint.rs` — the vault painters: the entrance room, hallways,
  the cross, ring, circle, lasers, quadrants and enemy-centre rooms, the
  circle-scan, flame-path and laser treasure rooms, and the treasure
  placed in each, stated step by step over the map, the heaps and the
  generator stack.
- `src/secret_paint.rs` — the runestone secret room, as verified steps
  between the item generator's stone rolls.
- `src/tables.rs`, `src/results_export.rs` — packed probability tables and
  the results-file rules.
- `app/` — the floating-point draws (`Random.Float`, `Random.chances`) and
  the decisions made with them, trinket multipliers, Euclidean cell
  distances, the JSON documents for parsed seeds and sentry snapshots, and
  the loops that drive the vault-tier and shop-stock steps with the item
  generator's rolls, and the entrance room's furthest-place choice.
- `tests/` — scenario tests against the compiled library.
