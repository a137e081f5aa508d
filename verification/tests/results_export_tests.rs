use seedfinder_core::catalog::{ItemId, ItemKind};
use seedfinder_core::model::Challenges;
use seedfinder_core::query::{
    EffectRequirement, Requirement, SearchQuery, TierRequirement, UpgradeRequirement,
};
use seedfinder_core::results_export::{
    check_envelope, decode_result_seed, dedupe_and_cap, is_canonical_code, unexportable_group,
    DeclaredVersion, ResultsError,
};
use seedfinder_core::seed::SeedError;
use seedfinder_core::seed::DungeonSeed;

fn seeds(codes: &[&str]) -> Vec<DungeonSeed> {
    codes
        .iter()
        .map(|code| DungeonSeed::from_code(code).unwrap())
        .collect()
}

#[test]
fn importers_dedupe_then_cap_preserving_first_occurrences() {
    let raw = seeds(&["AAA-AAA-AAC", "AAA-AAA-AAB", "AAA-AAA-AAC"]);
    let (kept, dropped) = dedupe_and_cap(&raw, 1_024);
    assert_eq!(kept, seeds(&["AAA-AAA-AAC", "AAA-AAA-AAB"]));
    assert_eq!(dropped, 1);

    let many: Vec<_> = (0..1_500)
        .map(|value| DungeonSeed::new(value).unwrap())
        .collect();
    let (kept, dropped) = dedupe_and_cap(&many, 1_024);
    assert_eq!(kept.len(), 1_024);
    assert_eq!(dropped, 476);
}

#[test]
fn a_zero_cap_keeps_nothing() {
    let raw = seeds(&["AAA-AAA-AAC", "AAA-AAA-AAB"]);
    assert_eq!(dedupe_and_cap(&raw, 0), (Vec::new(), 2));
    assert_eq!(dedupe_and_cap(&[], 5), (Vec::new(), 0));
}

#[test]
fn only_the_dashed_capital_spelling_is_canonical() {
    assert!(is_canonical_code("ABC-DEF-GHI"));
    assert!(!is_canonical_code("abc-def-ghi"));
    assert!(!is_canonical_code("ABCDEFGHI"));
    assert!(!is_canonical_code("ABC-DEF-GH"));
    assert!(!is_canonical_code("ABC DEF GHI"));
    assert!(!is_canonical_code("ABC-DEF-GHIJ"));
}

#[test]
fn linked_groups_past_d_cannot_be_exported() {
    let wand = ItemId {
        index: 40,
        kind: ItemKind::Wand,
        tier: None,
        category: None,
    };
    let linked = |group| Requirement {
        kind: ItemKind::Wand,
        weapon_category: None,
        item: Some(wand),
        tier: TierRequirement::Any,
        upgrade: UpgradeRequirement::Any,
        effect: EffectRequirement::Any,
        require_uncursed: false,
        source: None,
        identity_group: group,
        max_depth: None,
        alternative_group: None,
        upgrade_sum: None,
    };
    let mut query = SearchQuery {
        requirements: vec![linked(Some(1)), linked(None), linked(Some(4))],
        max_depth: 10,
        challenges: Challenges::none(),
        require_blacksmith: false,
        exclude_blacksmith_rewards: false,
        fast_mode: false,
    };
    assert_eq!(unexportable_group(&query), None);
    query.requirements.push(linked(Some(5)));
    query.requirements.push(linked(Some(6)));
    assert_eq!(unexportable_group(&query), Some(3));
}

#[test]
fn envelopes_are_checked_in_order() {
    assert_eq!(
        check_envelope(false, DeclaredVersion::Number(1), true),
        Err(ResultsError::NotResultsFile)
    );
    assert_eq!(
        check_envelope(true, DeclaredVersion::Missing, true),
        Err(ResultsError::MissingVersion)
    );
    assert_eq!(
        check_envelope(true, DeclaredVersion::NotAnInteger, true),
        Err(ResultsError::InvalidVersion)
    );
    assert_eq!(
        check_envelope(true, DeclaredVersion::Number(0), true),
        Err(ResultsError::InvalidVersion)
    );
    assert_eq!(
        check_envelope(true, DeclaredVersion::Number(2), true),
        Err(ResultsError::NewerVersion(2))
    );
    assert_eq!(
        check_envelope(true, DeclaredVersion::Number(1), false),
        Err(ResultsError::MissingQuery)
    );
    assert_eq!(check_envelope(true, DeclaredVersion::Number(1), true), Ok(1));
}

#[test]
fn result_entries_need_a_canonical_seed_code() {
    assert_eq!(
        decode_result_seed(0, Some("AAA-AAA-AAB")),
        Ok(DungeonSeed::new(1).unwrap())
    );
    assert_eq!(
        decode_result_seed(2, None),
        Err(ResultsError::MissingSeed { result: 3 })
    );
    assert_eq!(
        decode_result_seed(4, Some("aaa-aaa-aab")),
        Err(ResultsError::NonCanonicalSeed { result: 5 })
    );
    assert_eq!(
        decode_result_seed(0, Some("AAAAAAAAB")),
        Err(ResultsError::NonCanonicalSeed { result: 1 })
    );
}

#[test]
fn refusals_explain_themselves() {
    assert_eq!(
        ResultsError::NotResultsFile.message(),
        "this is not a Seed Seeker results file: missing \"format\": \"seed-seeker-results\""
    );
    assert_eq!(
        ResultsError::NewerVersion(7).message(),
        "this results file uses format version 7, but this app understands up to version 1; \
         update Seed Seeker to import it"
    );
    assert_eq!(
        ResultsError::GroupOutOfRange { requirement: 2 }.message(),
        "requirement 2: same-item group must be between 1 and 4 (A..D)"
    );
    assert_eq!(
        ResultsError::MissingSeed { result: 12 }.message(),
        "result 12: missing \"seed\" code"
    );
    assert_eq!(
        ResultsError::NonCanonicalSeed { result: 1 }.message(),
        "result 1: seed code must use the canonical XXX-XXX-XXX form"
    );
    assert_eq!(
        ResultsError::InvalidSeed {
            result: 3,
            error: SeedError::InvalidCode
        }
        .message(),
        "result 3: seed code must contain nine A-Z characters"
    );
    assert_eq!(
        ResultsError::MissingResults.message(),
        "this results file is missing its \"results\" list"
    );
}
