use seedfinder_core::seed::{
    format_input, format_text, from_text, DungeonSeed, SeedError, TOTAL_SEEDS,
};

#[test]
fn daily_dates_use_utc_milliseconds_without_reducing_to_code_space() {
    for (date, value) in [
        ("1970-01-01", 5_429_503_678_976),
        ("2000-02-29", 6_381_286_078_976),
        ("2024-02-29", 7_138_668_478_976),
        ("2026-09-25", 7_219_798_078_976),
        ("2100-03-01", 9_537_046_078_976),
        ("2400-02-29", 19_004_066_878_976),
        ("9999-12-31", 258_831_718_078_976),
    ] {
        let seed = DungeonSeed::from_daily_date(date).unwrap();
        assert_eq!(seed.value(), value, "{date}");
        assert_eq!(seed.to_code(), date);
        assert_eq!(DungeonSeed::from_scout_input(date), Ok(seed));
        assert_eq!(format_input(date), date);
        assert!(DungeonSeed::new(value).is_err());
        assert!(DungeonSeed::from_code(date).is_err());
        assert_ne!(from_text(date), i64::try_from(value).unwrap());
    }
}

#[test]
fn daily_dates_reject_invalid_calendar_dates_and_noncanonical_input() {
    for date in [
        "",
        "2026-2-03",
        "2026-02-30",
        "2025-02-29",
        "2100-02-29",
        "2026-00-01",
        "2026-13-01",
        "2026-01-00",
        "2026-04-31",
        "1969-12-31",
        "10000-01-01",
        "2026-09-25Z",
        " 2026-09-25",
        "２０２６-09-25",
        "202x-09-25",
    ] {
        assert_eq!(
            DungeonSeed::from_daily_date(date),
            Err(SeedError::InvalidDate),
            "{date}"
        );
    }
}

#[test]
fn daily_clock_changes_only_at_utc_midnight() {
    let date = DungeonSeed::from_daily_date("2026-09-25").unwrap();
    let midnight = (date.value() - TOTAL_SEEDS) / 1000;
    assert_eq!(
        DungeonSeed::daily_at_unix_seconds(midnight - 1)
            .unwrap()
            .to_code(),
        "2026-09-24"
    );
    assert_eq!(DungeonSeed::daily_at_unix_seconds(midnight), Ok(date));
    assert_eq!(
        DungeonSeed::daily_at_unix_seconds(midnight + 86_399),
        Ok(date)
    );
    assert_eq!(
        DungeonSeed::daily_at_unix_seconds(midnight + 86_400)
            .unwrap()
            .to_code(),
        "2026-09-26"
    );
    assert!(DungeonSeed::daily_at_unix_seconds(u64::MAX).is_err());
}

#[test]
fn known_code_boundaries_match_upstream() {
    assert_eq!(DungeonSeed::min_seed().to_code(), "AAA-AAA-AAA");
    assert_eq!(DungeonSeed::max_seed().to_code(), "ZZZ-ZZZ-ZZZ");
    assert_eq!(DungeonSeed::from_code("AAA-AAA-AAB").unwrap().value(), 1);
    assert_eq!(
        DungeonSeed::from_code("ZZZ-ZZZ-ZZZ").unwrap().value(),
        TOTAL_SEEDS - 1
    );
}

#[test]
fn code_round_trips_representative_values() {
    for value in [0, 1, 25, 26, 17_576, 123_456_789, TOTAL_SEEDS - 1] {
        let seed = DungeonSeed::new(value).unwrap();
        assert_eq!(DungeonSeed::from_code(&seed.to_code()), Ok(seed));
    }
}

#[test]
fn parsing_matches_upstream_case_and_separator_rules() {
    assert_eq!(DungeonSeed::from_code("aaa-aaa-aab").unwrap().value(), 1);
    assert_eq!(
        DungeonSeed::from_code("A A A-A A A-A A B").unwrap().value(),
        1
    );
    assert_eq!(
        DungeonSeed::from_code("aaaaaaaaa"),
        Err(SeedError::InvalidCode)
    );
    assert_eq!(
        DungeonSeed::from_code("AAA-AAA-AA0"),
        Err(SeedError::InvalidCode)
    );
}

#[test]
fn rejects_numeric_values_outside_user_seed_space() {
    assert_eq!(DungeonSeed::new(TOTAL_SEEDS), Err(SeedError::OutOfRange));
    assert_eq!(DungeonSeed::new(u64::MAX), Err(SeedError::OutOfRange));
}

#[test]
fn arbitrary_text_matches_java_utf16_hash_fixtures() {
    assert_eq!(from_text("abc-def-ghi"), 8_687_205_886);
    assert_eq!(from_text("abcdefghi"), 4_074_933_826_149);
    assert_eq!(from_text("123 456"), 123_456);
    assert_eq!(from_text("-1"), -1);
    assert_eq!(from_text("Shattered Pixel Dungeon"), 2_149_886_743_767);
    assert_eq!(from_text("😀"), 1_772_899);
}

#[test]
fn formatting_only_canonicalizes_codes() {
    assert_eq!(format_text("abc-def-ghi"), "ABC-DEF-GHI");
    assert_eq!(format_text("abcdefghi"), "abcdefghi");
}

#[test]
fn masking_groups_the_first_nine_ascii_letters() {
    assert_eq!(format_input(""), "");
    assert_eq!(format_input("a"), "A");
    assert_eq!(format_input("abcD"), "ABC-D");
    assert_eq!(format_input("abc-def-ghi"), "ABC-DEF-GHI");
    assert_eq!(format_input(" 1a!b@c#d$e%f^g&h*i extra"), "ABC-DEF-GHI");
    // Every masked prefix of nine letters is a parseable canonical code.
    assert_eq!(
        DungeonSeed::from_code(&format_input("aaa aaa aab")).unwrap(),
        DungeonSeed::from_code("AAA-AAA-AAB").unwrap()
    );

    // Filtering happens before uppercasing, so non-ASCII letters are
    // dropped whatever their own case mapping would produce.
    assert_eq!(format_input("åa😀b"), "AB");
    assert_eq!(format_input("\u{131}ab"), "AB");
    assert_eq!(format_input("\u{131}"), "");
}

#[test]
fn seed_error_messages_name_each_failure() {
    assert_eq!(SeedError::OutOfRange.message(), "seed must be in the range [0, 26^9)");
    assert!(SeedError::InvalidCode.message().contains("nine A-Z"));
    assert!(SeedError::InvalidDate.message().contains("YYYY-MM-DD"));
}

#[test]
fn leap_years_follow_the_gregorian_rule() {
    assert!(DungeonSeed::from_daily_date("2000-02-29").is_ok());
    assert!(DungeonSeed::from_daily_date("1900-02-29").is_err());
    assert!(DungeonSeed::from_daily_date("2004-02-29").is_ok());
    let last = DungeonSeed::from_daily_date("9999-12-31").unwrap();
    assert!(last.is_daily());
    assert!(!DungeonSeed::min_seed().is_daily());
}

#[test]
fn scout_input_dispatches_on_a_leading_digit() {
    assert_eq!(
        DungeonSeed::from_scout_input("abc-def-ghi"),
        DungeonSeed::from_code("ABC-DEF-GHI")
    );
    assert_eq!(
        DungeonSeed::from_scout_input("2026-13-01"),
        Err(SeedError::InvalidDate)
    );
    assert_eq!(
        DungeonSeed::from_scout_input("1AA-AAA-AAA"),
        Err(SeedError::InvalidDate)
    );
}

#[test]
fn codes_ignore_unicode_whitespace_separators() {
    assert_eq!(
        DungeonSeed::from_code("AAA\u{2003}AAA\u{2003}AAB"),
        Ok(DungeonSeed::new(1).unwrap())
    );
    assert_eq!(
        DungeonSeed::from_code("\u{3000}AAA\u{00A0}AAA\tAAB\u{2028}").unwrap().value(),
        1
    );
    assert!(DungeonSeed::from_code("AAA\u{200B}AAA\u{200B}AAB").is_err());
}

#[test]
fn formatting_twice_changes_nothing_more() {
    for input in ["abc-def-ghi", "abcdefghi", "ABC-DEF-GHI", "zzz-zzz-zzz", "not a seed", "", "AAA\u{2003}AAA\u{2003}AAB"] {
        let once = format_text(input);
        assert_eq!(format_text(&once), once, "{input}");
    }
    assert_eq!(format_text("abc-def-ghi"), "ABC-DEF-GHI");
    assert_eq!(format_text("abcdefghi"), "abcdefghi");
}

#[test]
fn numeric_text_seeds_take_a_sign_and_the_whole_long_range() {
    assert_eq!(from_text("+42"), 42);
    assert_eq!(from_text("9223372036854775807"), 2_662_194_295_807);
    assert_eq!(from_text("-9223372036854775808"), -2_662_194_295_808);
    // One past the range is no number: the text is hashed instead.
    assert_eq!(from_text("9223372036854775808"), 3_336_975_079_459);
    assert_eq!(from_text("12a"), 48_736);
}
