//! Shattered Pixel Dungeon's seed codes and UTC daily-run identities.

use vstd::prelude::*;
use vstd::string::StringSliceAdditionalSpecFns;

use crate::text::{
    all_ascii, ascii_upper, chars_of, is_ascii_upper, parse_i64, parsed_i64, push_char,
    string_of, to_uppercase, unicode_uppercase,
};

verus! {

/// There are exactly 26^9 user-enterable seed codes.
pub const TOTAL_SEEDS: u64 = 5_429_503_678_976;

/// Milliseconds in one day.
pub const DAY_MILLIS: u64 = 86_400_000;

/// Days from 1970-01-01 to 10000-01-01.
pub const DAILY_DAYS: u64 = 2_932_897;

/// Validation failures for seed input.
#[derive(Clone, Copy, Debug, PartialEq, Eq, Structural)]
pub enum SeedError {
    /// Seed number is outside `[0, 26^9)`.
    OutOfRange,
    /// Code is not nine uppercase base-26 digits after separators are removed.
    InvalidCode,
    /// Not a real supported UTC daily date.
    InvalidDate,
}

/// The explanation shown for each error.
pub open spec fn seed_error_text(error: SeedError) -> Seq<char> {
    match error {
        SeedError::OutOfRange => "seed must be in the range [0, 26^9)"@,
        SeedError::InvalidCode => "seed code must contain nine A-Z characters"@,
        SeedError::InvalidDate => "daily date must be a real YYYY-MM-DD date between 1970-01-01 and 9999-12-31"@,
    }
}

impl SeedError {
    /// The human-readable explanation of the failure.
    pub fn message(self) -> (text: &'static str)
        ensures
            text@ == seed_error_text(self),
    {
        match self {
            SeedError::OutOfRange => "seed must be in the range [0, 26^9)",
            SeedError::InvalidCode => "seed code must contain nine A-Z characters",
            SeedError::InvalidDate => "daily date must be a real YYYY-MM-DD date between 1970-01-01 and 9999-12-31",
        }
    }
}

// ---------------------------------------------------------------------------
// Calendar
// ---------------------------------------------------------------------------

/// Days in the proleptic Gregorian calendar before 1 January of `year`.
pub open spec fn days_before_year(year: int) -> int {
    let previous = year - 1;
    previous * 365 + previous / 4 - previous / 100 + previous / 400
}

/// Gregorian leap-year rule.
pub open spec fn is_leap(year: int) -> bool {
    year % 4 == 0 && (year % 100 != 0 || year % 400 == 0)
}

/// Length of a month; months outside 1..=12 count as 31 days.
pub open spec fn month_length(year: int, month: int) -> int {
    if month == 4 || month == 6 || month == 9 || month == 11 {
        30
    } else if month == 2 && is_leap(year) {
        29
    } else if month == 2 {
        28
    } else {
        31
    }
}

/// Days of `year` before the first of `month`.
pub open spec fn days_before_month(year: int, month: int) -> int
    decreases month,
{
    if month <= 1 {
        0
    } else {
        days_before_month(year, month - 1) + month_length(year, month - 1)
    }
}

/// A real calendar date within 1970-01-01..=9999-12-31.
pub open spec fn valid_date(year: int, month: int, day: int) -> bool {
    &&& 1970 <= year <= 9999
    &&& 1 <= month <= 12
    &&& 1 <= day <= month_length(year, month)
}

/// Days from 1970-01-01 to the given date.
pub open spec fn unix_days(year: int, month: int, day: int) -> int {
    days_before_year(year) - days_before_year(1970) + days_before_month(year, month) + day - 1
}

/// The daily seed of a UTC day: midnight in Unix milliseconds plus 26^9.
pub open spec fn daily_seed_value(days: int) -> int {
    TOTAL_SEEDS + days * DAY_MILLIS
}

// ---------------------------------------------------------------------------
// Text forms
// ---------------------------------------------------------------------------

/// An ASCII decimal digit byte.
pub open spec fn is_digit_byte(b: u8) -> bool {
    48 <= b <= 57
}

/// Shape `DDDD-DD-DD` in bytes.
pub open spec fn date_shaped(bytes: Seq<u8>) -> bool {
    &&& bytes.len() == 10
    &&& bytes[4] == 45
    &&& bytes[7] == 45
    &&& forall|i: int| 0 <= i < 10 && i != 4 && i != 7 ==> is_digit_byte(#[trigger] bytes[i])
}

/// The decimal number written by `count` digit bytes from `start`.
pub open spec fn number_at(bytes: Seq<u8>, start: int, count: nat) -> int
    decreases count,
{
    if count == 0 {
        0
    } else {
        number_at(bytes, start, (count - 1) as nat) * 10 + (bytes[start + count - 1] - 48)
    }
}

/// What a `YYYY-MM-DD` daily date denotes: the seed value, or why it is rejected.
pub open spec fn daily_from_bytes(bytes: Seq<u8>) -> Result<u64, SeedError> {
    if !date_shaped(bytes) {
        Err(SeedError::InvalidDate)
    } else {
        let year = number_at(bytes, 0, 4);
        let month = number_at(bytes, 5, 2);
        let day = number_at(bytes, 8, 2);
        if valid_date(year, month, day) {
            Ok(daily_seed_value(unix_days(year, month, day)) as u64)
        } else {
            Err(SeedError::InvalidDate)
        }
    }
}

/// Java's default `\s` class: ASCII whitespace only.
pub open spec fn is_java_whitespace(c: char) -> bool {
    c == '\t' || c == '\n' || c == '\u{000B}' || c == '\u{000C}' || c == '\r' || c == ' '
}

/// Unicode's `White_Space` property, which is what `char::is_whitespace` tests.
pub open spec fn is_unicode_whitespace(c: char) -> bool {
    let u = c as u32;
    ||| 0x09 <= u <= 0x0D
    ||| u == 0x20
    ||| u == 0x85
    ||| u == 0xA0
    ||| u == 0x1680
    ||| 0x2000 <= u <= 0x200A
    ||| u == 0x2028
    ||| u == 0x2029
    ||| u == 0x202F
    ||| u == 0x205F
    ||| u == 0x3000
}

/// The characters a seed code keeps: everything but dashes and Unicode whitespace.
pub open spec fn code_digits(text: Seq<char>) -> Seq<char> {
    text.filter(|c: char| c != '-' && !is_unicode_whitespace(c))
}

/// Number of UTF-16 code units a character occupies.
pub open spec fn utf16_width(c: char) -> nat {
    if (c as u32) >= 0x10000 {
        2
    } else {
        1
    }
}

/// The UTF-16 encoding of text.
pub open spec fn utf16_units(text: Seq<char>) -> Seq<u16>
    decreases text.len(),
{
    if text.len() == 0 {
        Seq::empty()
    } else {
        let c = text.last() as u32;
        let rest = utf16_units(text.drop_last());
        if c >= 0x10000 {
            rest.push((0xD800 + ((c - 0x10000) / 0x400)) as u16).push(
                (0xDC00 + ((c - 0x10000) % 0x400)) as u16,
            )
        } else {
            rest.push(c as u16)
        }
    }
}

/// A code written `XXX-XXX-XXX`: eleven UTF-16 units with dashes at 3 and 7.
pub open spec fn properly_dashed(text: Seq<char>) -> bool {
    let units = utf16_units(text);
    units.len() == 11 && units[3] == 45 && units[7] == 45
}

/// Value of base-26 letters `A..=Z`, most significant first.
pub open spec fn base26_value(digits: Seq<char>) -> int
    decreases digits.len(),
{
    if digits.len() == 0 {
        0
    } else {
        base26_value(digits.drop_last()) * 26 + (digits.last() as int - 'A' as int)
    }
}

/// The text a properly dashed code is read from: uppercased, which on ASCII
/// text maps exactly `a..=z` to `A..=Z`.
pub open spec fn code_normalized(text: Seq<char>) -> Seq<char> {
    if !properly_dashed(text) {
        text
    } else if all_ascii(text) {
        text.map_values(|c: char| ascii_upper(c))
    } else {
        unicode_uppercase(text)
    }
}

/// What `DungeonSeed::from_code` makes of some text.
pub open spec fn code_value(text: Seq<char>) -> Result<u64, SeedError> {
    let digits = code_digits(code_normalized(text));
    if digits.len() == 9 && all_upper(digits) {
        Ok(base26_value(digits) as u64)
    } else {
        Err(SeedError::InvalidCode)
    }
}

/// Every character is an ASCII uppercase letter.
pub open spec fn all_upper(text: Seq<char>) -> bool {
    forall|i: int| 0 <= i < text.len() ==> is_ascii_upper(#[trigger] text[i])
}

/// 26^n.
pub open spec fn pow26(n: nat) -> int
    decreases n,
{
    if n == 0 {
        1
    } else {
        26 * pow26((n - 1) as nat)
    }
}

/// The letter at position `index` (0..9) of the nine-letter code of `value`.
pub open spec fn code_letter(value: int, index: int) -> char {
    ('A' as int + (value / pow26((8 - index) as nat)) % 26) as char
}

/// The canonical `XXX-XXX-XXX` text of a code value.
pub open spec fn code_text(value: int) -> Seq<char> {
    seq![
        code_letter(value, 0), code_letter(value, 1), code_letter(value, 2), '-',
        code_letter(value, 3), code_letter(value, 4), code_letter(value, 5), '-',
        code_letter(value, 6), code_letter(value, 7), code_letter(value, 8),
    ]
}

/// The ASCII digit for `n` (0..=9).
pub open spec fn digit_char(n: int) -> char {
    ('0' as int + n) as char
}

/// `YYYY-MM-DD` with zero padding.
pub open spec fn date_text(year: int, month: int, day: int) -> Seq<char> {
    seq![
        digit_char(year / 1000), digit_char(year / 100 % 10), digit_char(year / 10 % 10),
        digit_char(year % 10), '-', digit_char(month / 10), digit_char(month % 10), '-',
        digit_char(day / 10), digit_char(day % 10),
    ]
}

/// The canonical identity text of a seed value: its code, or its daily date.
pub open spec fn canonical_text(value: u64, text: Seq<char>) -> bool {
    if value < TOTAL_SEEDS {
        text == code_text(value as int)
    } else {
        exists|year: int, month: int, day: int|
            #![trigger unix_days(year, month, day)]
            valid_date(year, month, day) && unix_days(year, month, day) == (value - TOTAL_SEEDS)
                / (DAY_MILLIS as int) && text == date_text(year, month, day)
    }
}

/// Java's UTF-16 string hash folded the way `convertFromText` does.
pub open spec fn utf16_hash(units: Seq<u16>) -> i64
    decreases units.len(),
{
    if units.len() == 0 {
        0
    } else {
        vstd::wrapping::i64_specs::wrapping_add(
            vstd::wrapping::i64_specs::wrapping_mul(utf16_hash(units.drop_last()), 31),
            units.last() as i64,
        )
    }
}

/// `DungeonSeed.convertFromText`.
pub open spec fn text_seed(text: Seq<char>) -> i64 {
    if text.len() == 0 {
        -1i64
    } else if code_value(text) is Ok {
        code_value(text)->Ok_0 as i64
    } else if parsed_i64(text.filter(|c: char| !is_java_whitespace(c))) is Some {
        crate::rng::java_rem(
            parsed_i64(text.filter(|c: char| !is_java_whitespace(c)))->Some_0 as int,
            TOTAL_SEEDS as int,
        ) as i64
    } else {
        let total = utf16_hash(utf16_units(text));
        let folded = if total < 0 {
            vstd::wrapping::i64_specs::wrapping_add(total, i64::MAX)
        } else {
            total
        };
        crate::rng::java_rem(folded as int, TOTAL_SEEDS as int) as i64
    }
}

/// Whether a byte is an ASCII letter.
pub open spec fn is_ascii_alpha_byte(b: u8) -> bool {
    (65 <= b <= 90) || (97 <= b <= 122)
}

/// ASCII uppercase of a letter byte, as a character.
pub open spec fn upper_letter(b: u8) -> char {
    if 97 <= b <= 122 {
        ((b - 32) as u8) as char
    } else {
        b as char
    }
}

/// The first nine ASCII letters of the bytes, uppercased, grouped in threes.
pub open spec fn masked_input(bytes: Seq<u8>) -> Seq<char> {
    grouped(kept_letters(bytes).map_values(|b: u8| upper_letter(b)))
}

/// Letters with a dash before positions 3 and 6.
pub open spec fn grouped(letters: Seq<char>) -> Seq<char>
    decreases letters.len(),
{
    if letters.len() == 0 {
        Seq::empty()
    } else {
        let index = letters.len() - 1;
        let prefix = grouped(letters.drop_last());
        if index == 3 || index == 6 {
            prefix.push('-').push(letters.last())
        } else {
            prefix.push(letters.last())
        }
    }
}

// ---------------------------------------------------------------------------
// DungeonSeed
// ---------------------------------------------------------------------------

/// A validated dungeon seed: a user-enterable code or a UTC daily run.
/// Numeric construction remains restricted to the searchable code space.
#[derive(Clone, Copy, Debug, PartialEq, Eq, Structural, Hash, PartialOrd, Ord)]
pub struct DungeonSeed(u64);

impl View for DungeonSeed {
    type V = u64;

    closed spec fn view(&self) -> u64 {
        self.0
    }
}

/// What a seed value can be: a code below 26^9, or a daily seed, the UTC
/// midnight of a day before the year 10000.
pub open spec fn valid_seed_value(value: u64) -> bool {
    ||| value < TOTAL_SEEDS
    ||| (value - TOTAL_SEEDS) / (DAY_MILLIS as int) < DAILY_DAYS && (value - TOTAL_SEEDS) % (
    DAY_MILLIS as int) == 0
}

/// Seed results by value.
pub open spec fn seed_result_value(result: Result<DungeonSeed, SeedError>) -> Result<u64, SeedError> {
    match result {
        Ok(seed) => Ok(seed@),
        Err(error) => Err(error),
    }
}

impl DungeonSeed {
    #[verifier::type_invariant]
    closed spec fn inv(self) -> bool {
        valid_seed_value(self.0)
    }

    /// The first seed, represented by `AAA-AAA-AAA`.
    pub fn min_seed() -> (seed: Self)
        ensures
            seed@ == 0,
    {
        DungeonSeed(0)
    }

    /// The final seed, represented by `ZZZ-ZZZ-ZZZ`.
    pub fn max_seed() -> (seed: Self)
        ensures
            seed@ == TOTAL_SEEDS - 1,
    {
        DungeonSeed(TOTAL_SEEDS - 1)
    }

    /// Creates a seed from its numeric representation.
    pub fn new(value: u64) -> (result: Result<Self, SeedError>)
        ensures
            seed_result_value(result) == if value < TOTAL_SEEDS {
                Ok::<u64, SeedError>(value)
            } else {
                Err(SeedError::OutOfRange)
            },
    {
        if value < TOTAL_SEEDS {
            Ok(DungeonSeed(value))
        } else {
            Err(SeedError::OutOfRange)
        }
    }

    /// Returns the numeric representation used by the game.
    pub fn value(self) -> (value: u64)
        ensures
            value == self@,
    {
        self.0
    }

    /// Whether this seed identifies a daily run rather than a seed code.
    pub fn is_daily(self) -> (daily: bool)
        ensures
            daily == (self@ >= TOTAL_SEEDS),
    {
        self.0 >= TOTAL_SEEDS
    }
}


// ---------------------------------------------------------------------------
// Calendar lemmas
// ---------------------------------------------------------------------------

/// Each year adds 365 days, or 366 in a leap year.
pub proof fn lemma_year_length(year: int)
    requires
        year >= 1,
    ensures
        days_before_year(year + 1) == days_before_year(year) + if is_leap(year) {
            366int
        } else {
            365int
        },
{
}

/// The twelve months add up to the year.
pub proof fn lemma_months_fill_year(year: int)
    ensures
        days_before_month(year, 13) == if is_leap(year) {
            366int
        } else {
            365int
        },
{
    reveal_with_fuel(days_before_month, 13);
}

/// Later months start later.
pub proof fn lemma_months_monotone(year: int, a: int, b: int)
    requires
        a <= b,
    ensures
        days_before_month(year, a) <= days_before_month(year, b),
    decreases b - a,
{
    if a < b {
        lemma_months_monotone(year, a, b - 1);
    }
}

/// Later years start later.
pub proof fn lemma_years_monotone(a: int, b: int)
    requires
        1 <= a <= b,
    ensures
        days_before_year(a) <= days_before_year(b),
    decreases b - a,
{
    if a < b {
        lemma_years_monotone(a, b - 1);
        lemma_year_length(b - 1);
    }
}

/// A valid date falls inside its year.
pub proof fn lemma_date_in_year(year: int, month: int, day: int)
    requires
        valid_date(year, month, day),
    ensures
        days_before_month(year, month) + day - 1 < days_before_year(year + 1) - days_before_year(year),
        0 <= unix_days(year, month, day) < DAILY_DAYS,
{
    lemma_months_monotone(year, month + 1, 13);
    lemma_months_fill_year(year);
    lemma_year_length(year);
    lemma_months_monotone(year, 1, month);
    lemma_years_monotone(1970, year);
    lemma_years_monotone(year + 1, 10000);
    assert(days_before_year(10000) - days_before_year(1970) == DAILY_DAYS);
}

fn month_days(year: u64, month: u64) -> (days: u64)
    ensures
        days == month_length(year as int, month as int),
{
    if month == 4 || month == 6 || month == 9 || month == 11 {
        30
    } else if month == 2 && year % 4 == 0 && (year % 100 != 0 || year % 400 == 0) {
        29
    } else if month == 2 {
        28
    } else {
        31
    }
}

fn days_before_year_exec(year: u64) -> (days: u64)
    requires
        1 <= year <= 10000,
    ensures
        days == days_before_year(year as int),
{
    let previous = year - 1;
    previous * 365 + previous / 4 - previous / 100 + previous / 400
}

fn days_before_month_exec(year: u64, month: u64) -> (days: u64)
    requires
        1 <= month <= 13,
    ensures
        days == days_before_month(year as int, month as int),
        days <= 366,
{
    let mut days: u64 = 0;
    let mut current: u64 = 1;
    proof {
        lemma_months_monotone(year as int, month as int, 13);
        lemma_months_fill_year(year as int);
    }
    while current < month
        invariant
            1 <= current <= month <= 13,
            days == days_before_month(year as int, current as int),
            days_before_month(year as int, month as int) <= 366,
        decreases month - current,
    {
        proof {
            lemma_months_monotone(year as int, current as int + 1, month as int);
        }
        days = days + month_days(year, current);
        current = current + 1;
    }
    days
}

fn number_from(bytes: &[u8], start: usize, count: usize) -> (value: u64)
    requires
        start + count <= bytes@.len(),
        count <= 4,
        forall|i: int| start <= i < start + count ==> is_digit_byte(#[trigger] bytes@[i]),
    ensures
        value == number_at(bytes@, start as int, count as nat),
        value < 10000,
{
    let mut value: u64 = 0;
    let mut taken: usize = 0;
    while taken < count
        invariant
            taken <= count <= 4,
            start + count <= bytes.len(),
            forall|i: int| start <= i < start + count ==> is_digit_byte(#[trigger] bytes@[i]),
            value == number_at(bytes@, start as int, taken as nat),
            value < pow10(taken as nat),
        decreases count - taken,
    {
        assert(pow10(taken as nat) <= 1000) by {
            reveal_with_fuel(pow10, 5);
        }
        assert(pow10(taken as nat + 1) == 10 * pow10(taken as nat));
        let digit = bytes[start + taken];
        assert(is_digit_byte(bytes@[start + taken]));
        value = value * 10 + (digit - 48) as u64;
        taken = taken + 1;
    }
    assert(pow10(taken as nat) <= 10000) by {
        reveal_with_fuel(pow10, 5);
    }
    value
}

/// 10^n.
pub open spec fn pow10(n: nat) -> int
    decreases n,
{
    if n == 0 {
        1
    } else {
        10 * pow10((n - 1) as nat)
    }
}

fn is_java_whitespace_exec(c: char) -> (whitespace: bool)
    ensures
        whitespace == is_java_whitespace(c),
{
    c == '\t' || c == '\n' || c == '\u{000B}' || c == '\u{000C}' || c == '\r' || c == ' '
}

impl DungeonSeed {
    /// The game's daily seed is UTC midnight in Unix milliseconds plus 26^9.
    /// This is never reduced modulo the user-enterable seed space.
    pub fn from_daily_date(date: &str) -> (result: Result<Self, SeedError>)
        ensures
            seed_result_value(result) == daily_from_bytes(date.spec_bytes()),
    {
        let bytes = date.as_bytes();
        if bytes.len() != 10 || bytes[4] != 45 || bytes[7] != 45 {
            return Err(SeedError::InvalidDate);
        }
        let mut index: usize = 0;
        while index < 10
            invariant
                bytes@ == date.spec_bytes(),
                bytes@.len() == 10,
                index <= 10,
                forall|i: int| 0 <= i < index && i != 4 && i != 7 ==> is_digit_byte(#[trigger] bytes@[i]),
            decreases 10 - index,
        {
            if index != 4 && index != 7 && !(48 <= bytes[index] && bytes[index] <= 57) {
                assert(!is_digit_byte(bytes@[index as int]));
                return Err(SeedError::InvalidDate);
            }
            index = index + 1;
        }
        let year = number_from(bytes, 0, 4);
        let month = number_from(bytes, 5, 2);
        let day = number_from(bytes, 8, 2);
        if year < 1970 || year > 9999 || month < 1 || month > 12 || day < 1 || day > month_days(
            year,
            month,
        ) {
            return Err(SeedError::InvalidDate);
        }
        proof {
            lemma_date_in_year(year as int, month as int, day as int);
            lemma_years_monotone(1970, year as int);
        }
        let days = days_before_year_exec(year) - days_before_year_exec(1970)
            + days_before_month_exec(year, month) + day - 1;
        proof {
            lemma_daily_valid(days as int);
        }
        Ok(DungeonSeed(TOTAL_SEEDS + days * DAY_MILLIS))
    }

    /// Selects the UTC daily run containing a Unix timestamp in seconds.
    pub fn daily_at_unix_seconds(seconds: u64) -> (result: Result<Self, SeedError>)
        ensures
            seed_result_value(result) == if seconds / 86_400 < DAILY_DAYS {
                Ok::<u64, SeedError>(daily_seed_value((seconds / 86_400) as int) as u64)
            } else {
                Err(SeedError::InvalidDate)
            },
    {
        let days = seconds / 86_400;
        if days >= days_before_year_exec(10_000) - days_before_year_exec(1970) {
            return Err(SeedError::InvalidDate);
        }
        proof {
            lemma_daily_valid(days as int);
        }
        Ok(DungeonSeed(TOTAL_SEEDS + days * DAY_MILLIS))
    }
}

/// Daily seeds of representable days are valid seeds.
proof fn lemma_daily_valid(days: int)
    requires
        0 <= days < DAILY_DAYS,
    ensures
        daily_seed_value(days) <= u64::MAX,
        valid_seed_value(daily_seed_value(days) as u64),
        daily_seed_value(days) >= TOTAL_SEEDS,
{
    assert((days * DAY_MILLIS) / (DAY_MILLIS as int) == days) by (nonlinear_arith)
        requires
            days >= 0,
    ;
    assert((days * DAY_MILLIS) % (DAY_MILLIS as int) == 0) by (nonlinear_arith)
        requires
            days >= 0,
    ;
    assert(days * DAY_MILLIS <= DAILY_DAYS * DAY_MILLIS) by (nonlinear_arith)
        requires
            0 <= days < DAILY_DAYS,
    ;
}


fn pow26_exec(n: u64) -> (power: u64)
    requires
        n <= 9,
    ensures
        power == pow26(n as nat),
        power >= 1,
{
    let mut power: u64 = 1;
    let mut k: u64 = 0;
    while k < n
        invariant
            k <= n <= 9,
            power == pow26(k as nat),
        decreases n - k,
    {
        assert(pow26((k + 1) as nat) == 26 * pow26(k as nat));
        assert(pow26(k as nat) <= 208_827_064_576) by {
            reveal_with_fuel(pow26, 10);
        }
        power = power * 26;
        k = k + 1;
    }
    assert(pow26(k as nat) >= 1) by {
        lemma_pow26_positive(k as nat);
    }
    power
}

proof fn lemma_pow26_positive(n: nat)
    ensures
        pow26(n) >= 1,
    decreases n,
{
    if n > 0 {
        lemma_pow26_positive((n - 1) as nat);
    }
}

fn digit_char_exec(n: u64) -> (c: char)
    requires
        n < 10,
    ensures
        c == digit_char(n as int),
{
    ((48 + n) as u8) as char
}

fn letter_char_exec(n: u64) -> (c: char)
    requires
        n < 26,
    ensures
        c == ('A' as int + n) as char,
{
    ((65 + n) as u8) as char
}

impl DungeonSeed {
    fn daily_date(self) -> (text: String)
        requires
            self@ >= TOTAL_SEEDS,
        ensures
            canonical_text(self@, text@),
    {
        proof {
            use_type_invariant(&self);
        }
        let offset = (self.0 - TOTAL_SEEDS) / DAY_MILLIS;
        let days = offset + days_before_year_exec(1970);
        proof {
            lemma_years_monotone(1970, 10000);
        }
        let mut low: u64 = 1970;
        let mut high: u64 = 10_000;
        while low + 1 < high
            invariant
                1970 <= low < high <= 10_000,
                days_before_year(low as int) <= days < days_before_year(high as int),
            decreases high - low,
        {
            let middle = low + (high - low) / 2;
            if days_before_year_exec(middle) <= days {
                low = middle;
            } else {
                high = middle;
            }
        }
        proof {
            lemma_year_length(low as int);
            lemma_months_fill_year(low as int);
        }
        let mut remaining = days - days_before_year_exec(low);
        let mut month: u64 = 1;
        while remaining >= month_days(low, month)
            invariant
                1 <= month <= 12,
                1970 <= low <= 9999,
                remaining + days_before_month(low as int, month as int) == days - days_before_year(
                    low as int,
                ),
                days - days_before_year(low as int) < days_before_month(low as int, 13),
            decreases 12 - month,
        {
            proof {
                lemma_months_monotone(low as int, month as int + 1, 13);
            }
            remaining = remaining - month_days(low, month);
            month = month + 1;
        }
        let day = remaining + 1;
        let mut chars: Vec<char> = Vec::new();
        chars.push(digit_char_exec(low / 1000));
        chars.push(digit_char_exec(low / 100 % 10));
        chars.push(digit_char_exec(low / 10 % 10));
        chars.push(digit_char_exec(low % 10));
        chars.push('-');
        chars.push(digit_char_exec(month / 10));
        chars.push(digit_char_exec(month % 10));
        chars.push('-');
        chars.push(digit_char_exec(day / 10));
        chars.push(digit_char_exec(day % 10));
        let text = string_of(&chars);
        proof {
            assert(valid_date(low as int, month as int, day as int));
            assert(unix_days(low as int, month as int, day as int) == offset);
            assert(text@ =~= date_text(low as int, month as int, day as int));
        }
        text
    }

    /// Returns its canonical identity: `XXX-XXX-XXX` or a daily `YYYY-MM-DD`.
    pub fn to_code(self) -> (code: String)
        ensures
            canonical_text(self@, code@),
    {
        if self.is_daily() {
            return self.daily_date();
        }
        let value = self.0;
        let mut chars: Vec<char> = Vec::new();
        let mut index: u64 = 0;
        while index < 9
            invariant
                index <= 9,
                value < TOTAL_SEEDS,
                chars@.len() == index + if index > 6 {
                    2int
                } else if index > 3 {
                    1int
                } else {
                    0int
                },
                forall|i: int|
                    0 <= i < index ==> chars@[i + if i >= 6 {
                        2int
                    } else if i >= 3 {
                        1int
                    } else {
                        0int
                    }] == code_letter(value as int, i),
                index > 3 ==> chars@[3] == '-',
                index > 6 ==> chars@[7] == '-',
            decreases 9 - index,
        {
            if index == 3 || index == 6 {
                chars.push('-');
            }
            let power = pow26_exec(8 - index);
            proof {
                assert(value / power % 26 < 26) by (nonlinear_arith)
                    requires
                        power >= 1,
                ;
            }
            chars.push(letter_char_exec(value / power % 26));
            index = index + 1;
        }
        let code = string_of(&chars);
        assert(code@ =~= code_text(value as int));
        code
    }
}


fn utf16_of(chars: &Vec<char>) -> (units: Vec<u16>)
    ensures
        units@ == utf16_units(chars@),
{
    let mut units: Vec<u16> = Vec::new();
    let mut index: usize = 0;
    while index < chars.len()
        invariant
            index <= chars.len(),
            units@ == utf16_units(chars@.take(index as int)),
        decreases chars.len() - index,
    {
        let c = chars[index] as u32;
        assert(chars@.take(index + 1).drop_last() =~= chars@.take(index as int));
        if c >= 0x10000 {
            let high = (0xD800 + (c - 0x10000) / 0x400) as u16;
            let low = (0xDC00 + (c - 0x10000) % 0x400) as u16;
            units.push(high);
            units.push(low);
        } else {
            units.push(c as u16);
        }
        index = index + 1;
    }
    assert(chars@.take(chars.len() as int) =~= chars@);
    units
}

fn is_unicode_whitespace_exec(c: char) -> (whitespace: bool)
    ensures
        whitespace == is_unicode_whitespace(c),
{
    let u = c as u32;
    (0x09 <= u && u <= 0x0D) || u == 0x20 || u == 0x85 || u == 0xA0 || u == 0x1680 || (0x2000 <= u
        && u <= 0x200A) || u == 0x2028 || u == 0x2029 || u == 0x202F || u == 0x205F || u == 0x3000
}

fn keep_code_digits(chars: &Vec<char>) -> (digits: Vec<char>)
    ensures
        digits@ == code_digits(chars@),
{
    let mut digits: Vec<char> = Vec::new();
    let mut index: usize = 0;
    while index < chars.len()
        invariant
            index <= chars.len(),
            digits@ == code_digits(chars@.take(index as int)),
        decreases chars.len() - index,
    {
        let c = chars[index];
        proof {
            assert(chars@.take(index + 1).drop_last() =~= chars@.take(index as int));
            reveal(Seq::filter);
        }
        if c != '-' && !is_unicode_whitespace_exec(c) {
            digits.push(c);
        }
        index = index + 1;
    }
    assert(chars@.take(chars.len() as int) =~= chars@);
    digits
}

fn drop_java_whitespace(chars: &Vec<char>) -> (kept: Vec<char>)
    ensures
        kept@ == chars@.filter(|c: char| !is_java_whitespace(c)),
{
    let mut kept: Vec<char> = Vec::new();
    let mut index: usize = 0;
    while index < chars.len()
        invariant
            index <= chars.len(),
            kept@ == chars@.take(index as int).filter(|c: char| !is_java_whitespace(c)),
        decreases chars.len() - index,
    {
        let c = chars[index];
        proof {
            assert(chars@.take(index + 1).drop_last() =~= chars@.take(index as int));
            reveal(Seq::filter);
        }
        if !is_java_whitespace_exec(c) {
            kept.push(c);
        }
        index = index + 1;
    }
    assert(chars@.take(chars.len() as int) =~= chars@);
    kept
}

proof fn lemma_base26_bound(digits: Seq<char>)
    requires
        forall|i: int| 0 <= i < digits.len() ==> is_ascii_upper(#[trigger] digits[i]),
    ensures
        0 <= base26_value(digits) < pow26(digits.len()),
    decreases digits.len(),
{
    if digits.len() > 0 {
        let rest = digits.drop_last();
        assert forall|i: int| 0 <= i < rest.len() implies is_ascii_upper(#[trigger] rest[i]) by {
            assert(rest[i] == digits[i]);
        }
        lemma_base26_bound(rest);
        assert(is_ascii_upper(digits[digits.len() - 1]));
        assert(pow26(digits.len()) == 26 * pow26(rest.len()));
    }
}

/// What `DungeonSeed::from_scout_input` makes of some text: a daily date when
/// it starts with a digit, a seed code otherwise.
pub open spec fn scout_value(input: &str) -> Result<u64, SeedError> {
    if input.spec_bytes().len() > 0 && is_digit_byte(input.spec_bytes()[0]) {
        daily_from_bytes(input.spec_bytes())
    } else {
        code_value(input@)
    }
}

impl DungeonSeed {
    /// Parses the game's `XXX-XXX-XXX` form.
    ///
    /// Dashes and Unicode whitespace are ignored, matching the Java helper.
    /// Properly dashed eleven-unit codes are accepted case-insensitively;
    /// undashed codes must already use uppercase ASCII.
    pub fn from_code(input: &str) -> (result: Result<Self, SeedError>)
        ensures
            seed_result_value(result) == code_value(input@),
            code_value(input@) is Ok ==> code_value(input@)->Ok_0 < TOTAL_SEEDS,
    {
        proof {
            lemma_code_value_in_range(input@);
        }
        let chars = chars_of(input);
        let units = utf16_of(&chars);
        let properly = units.len() == 11 && units[3] == 45 && units[7] == 45;
        let normalized = if properly {
            let upper = to_uppercase(input);
            chars_of(upper.as_str())
        } else {
            chars
        };
        let digits = keep_code_digits(&normalized);
        if digits.len() != 9 {
            return Err(SeedError::InvalidCode);
        }
        let mut value: u64 = 0;
        let mut index: usize = 0;
        while index < 9
            invariant
                index <= 9,
                digits@.len() == 9,
                digits@ == code_digits(code_normalized(input@)),
                forall|i: int| 0 <= i < index ==> is_ascii_upper(#[trigger] digits@[i]),
                value == base26_value(digits@.take(index as int)),
                value < pow26(index as nat),
            decreases 9 - index,
        {
            let c = digits[index];
            if !('A' <= c && c <= 'Z') {
                assert(!is_ascii_upper(digits@[index as int]));
                assert(!all_upper(digits@));
                return Err(SeedError::InvalidCode);
            }
            proof {
                assert(digits@.take(index + 1).drop_last() =~= digits@.take(index as int));
                assert(pow26((index + 1) as nat) == 26 * pow26(index as nat));
                assert(pow26(index as nat) <= 208_827_064_576) by {
                    reveal_with_fuel(pow26, 10);
                }
            }
            value = value * 26 + (c as u64 - 65);
            index = index + 1;
        }
        proof {
            assert(digits@.take(9) =~= digits@);
            assert(pow26(9) == TOTAL_SEEDS) by {
                reveal_with_fuel(pow26, 10);
            }
        }
        Ok(DungeonSeed(value))
    }

    /// Parses a scout identity: a seed code or an ISO UTC daily date.
    pub fn from_scout_input(input: &str) -> (result: Result<Self, SeedError>)
        ensures
            seed_result_value(result) == scout_value(input),
    {
        let bytes = input.as_bytes();
        if bytes.len() > 0 && 48 <= bytes[0] && bytes[0] <= 57 {
            Self::from_daily_date(input)
        } else {
            Self::from_code(input)
        }
    }
}

/// Mirrors `DungeonSeed.convertFromText`, including Java UTF-16 hashing and
/// signed remainder behavior. Unlike [`DungeonSeed`], arbitrary text can map
/// to a negative `long` (notably numeric input such as `-1`).
pub fn from_text(input: &str) -> (seed: i64)
    ensures
        seed == text_seed(input@),
{
    let chars = chars_of(input);
    if chars.len() == 0 {
        return -1;
    }
    if let Ok(seed) = DungeonSeed::from_code(input) {
        return seed.value() as i64;
    }
    let numeric_chars = drop_java_whitespace(&chars);
    let numeric = string_of(&numeric_chars);
    if let Some(value) = parse_i64(numeric.as_str()) {
        return crate::rng::rem_i64_positive(value, TOTAL_SEEDS as i64);
    }
    let units = utf16_of(&chars);
    let mut total: i64 = 0;
    let mut index: usize = 0;
    while index < units.len()
        invariant
            index <= units.len(),
            total == utf16_hash(units@.take(index as int)),
        decreases units.len() - index,
    {
        assert(units@.take(index + 1).drop_last() =~= units@.take(index as int));
        total = total.wrapping_mul(31).wrapping_add(units[index] as i64);
        index = index + 1;
    }
    assert(units@.take(units.len() as int) =~= units@);
    if total < 0 {
        total = total.wrapping_add(i64::MAX);
    }
    crate::rng::rem_i64_positive(total, TOTAL_SEEDS as i64)
}

/// Canonicalizes valid seed codes and leaves all other input unchanged.
pub fn format_text(input: &str) -> (text: String)
    ensures
        formatted(input@, text@),
{
    match DungeonSeed::from_code(input) {
        Ok(seed) => seed.to_code(),
        Err(_) => input.to_owned(),
    }
}

/// Preserves complete UTC daily dates; masks other partial seed input into
/// uppercase groups of three.
///
/// Every byte that is not an ASCII letter is dropped, the first nine of the
/// survivors are kept, and only then are they uppercased — so non-ASCII input
/// contributes nothing, whatever case mapping its own alphabet would use. The
/// result is a prefix of a canonical `XXX-XXX-XXX` code.
pub fn format_input(input: &str) -> (text: String)
    ensures
        daily_from_bytes(input.spec_bytes()) is Ok ==> text@ == input@,
        daily_from_bytes(input.spec_bytes()) is Err ==> text@ == masked_input(input.spec_bytes()),
{
    if DungeonSeed::from_daily_date(input).is_ok() {
        return input.to_owned();
    }
    let bytes = input.as_bytes();
    let ghost all = bytes@;
    let mut chars: Vec<char> = Vec::new();
    let mut letters: Vec<char> = Vec::new();
    let mut index: usize = 0;
    while index < bytes.len()
        invariant
            bytes@ == all,
            index <= bytes.len(),
            letters@ == kept_letters(all.take(index as int)).map_values(|b: u8| upper_letter(b)),
            chars@ == grouped(letters@),
            letters@.len() <= 9,
        decreases bytes.len() - index,
    {
        let b = bytes[index];
        proof {
            assert(all.take(index + 1).drop_last() =~= all.take(index as int));
            reveal(Seq::filter);
            lemma_kept_letters_step(all, index as int);
        }
        if ((65 <= b && b <= 90) || (97 <= b && b <= 122)) && letters.len() < 9 {
            let c = if 97 <= b {
                (b - 32) as char
            } else {
                b as char
            };
            if letters.len() == 3 || letters.len() == 6 {
                chars.push('-');
            }
            let ghost before = letters@;
            letters.push(c);
            chars.push(c);
            proof {
                assert(letters@.drop_last() =~= before);
            }
        }
        index = index + 1;
    }
    assert(all.take(bytes.len() as int) =~= all);
    string_of(&chars)
}

/// The ASCII letters among some bytes, at most the first nine.
pub open spec fn kept_letters(bytes: Seq<u8>) -> Seq<u8> {
    let letters = bytes.filter(|b: u8| is_ascii_alpha_byte(b));
    if letters.len() > 9 {
        letters.take(9)
    } else {
        letters
    }
}

proof fn lemma_kept_letters_step(bytes: Seq<u8>, index: int)
    requires
        0 <= index < bytes.len(),
    ensures
        kept_letters(bytes.take(index + 1)) == if is_ascii_alpha_byte(bytes[index])
            && kept_letters(bytes.take(index)).len() < 9 {
            kept_letters(bytes.take(index)).push(bytes[index])
        } else {
            kept_letters(bytes.take(index))
        },
        kept_letters(bytes.take(index)).len() <= 9,
{
    let p = |b: u8| is_ascii_alpha_byte(b);
    let before = bytes.take(index).filter(p);
    let after = bytes.take(index + 1).filter(p);
    assert(bytes.take(index + 1).drop_last() =~= bytes.take(index));
    reveal(Seq::filter);
    assert(after == if p(bytes[index]) {
        before.push(bytes[index])
    } else {
        before
    });
    if before.len() >= 9 && p(bytes[index]) {
        assert(after.take(9) =~= before.take(9));
    }
    if before.len() == 9 && p(bytes[index]) {
        assert(before.take(9) =~= before);
    }
}

// ---------------------------------------------------------------------------
// Code round trip
// ---------------------------------------------------------------------------

/// The nine letters of the code of `value`, most significant first.
pub open spec fn code_letters(value: int) -> Seq<char> {
    Seq::new(9, |i: int| code_letter(value, i))
}

/// Text of characters below U+10000 takes one UTF-16 unit per character,
/// the character itself.
proof fn lemma_utf16_of_bmp(text: Seq<char>)
    requires
        forall|i: int| 0 <= i < text.len() ==> (#[trigger] text[i] as u32) < 0x10000,
    ensures
        utf16_units(text).len() == text.len(),
        forall|i: int|
            0 <= i < text.len() ==> #[trigger] utf16_units(text)[i] == (text[i] as u32) as u16,
    decreases text.len(),
{
    if text.len() > 0 {
        let rest = text.drop_last();
        assert forall|i: int| 0 <= i < rest.len() implies (#[trigger] rest[i] as u32) < 0x10000 by {
            assert(rest[i] == text[i]);
        }
        lemma_utf16_of_bmp(rest);
        assert forall|i: int| 0 <= i < text.len() implies #[trigger] utf16_units(text)[i]
            == (text[i] as u32) as u16 by {
            if i < text.len() - 1 {
                assert(rest[i] == text[i]);
            }
        }
    }
}

/// Each letter of a code is an ASCII capital whose offset from `A` is the
/// base-26 digit of the value at that position.
proof fn lemma_code_letter(value: int, index: int)
    requires
        0 <= value,
        0 <= index < 9,
    ensures
        is_ascii_upper(code_letter(value, index)),
        code_letter(value, index) as int - 'A' as int == (value / pow26((8 - index) as nat)) % 26,
{
    lemma_pow26_positive((8 - index) as nat);
    let digit = (value / pow26((8 - index) as nat)) % 26;
    assert(0 <= digit < 26) by {
        vstd::arithmetic::div_mod::lemma_mod_bound(value / pow26((8 - index) as nat), 26);
    }
}

/// The first `k` letters of a code spell the value divided by 26^(9 - k).
proof fn lemma_code_prefix(value: int, k: int)
    requires
        0 <= value < pow26(9),
        0 <= k <= 9,
    ensures
        base26_value(code_letters(value).take(k)) == value / pow26((9 - k) as nat),
    decreases k,
{
    if k == 0 {
        assert(code_letters(value).take(0) =~= Seq::<char>::empty());
        assert(value / pow26(9) == 0) by {
            vstd::arithmetic::div_mod::lemma_basic_div(value, pow26(9));
        }
    } else {
        lemma_code_prefix(value, k - 1);
        let letters = code_letters(value).take(k);
        assert(letters.drop_last() =~= code_letters(value).take(k - 1));
        lemma_code_letter(value, k - 1);
        let smaller = pow26((9 - k) as nat);
        lemma_pow26_positive((9 - k) as nat);
        assert(pow26((9 - (k - 1)) as nat) == smaller * 26);
        let q = value / smaller;
        assert(value / (smaller * 26) == q / 26) by {
            vstd::arithmetic::div_mod::lemma_div_denominator(value, smaller, 26);
        }
        assert(q == 26 * (q / 26) + q % 26) by {
            vstd::arithmetic::div_mod::lemma_fundamental_div_mod(q, 26);
        }
        assert(letters.last() == code_letter(value, k - 1));
    }
}

/// Every seed code reads back as the value it was written from: parsing the
/// text that `DungeonSeed::to_code` gives for a code seed yields that seed.
pub proof fn lemma_code_round_trip(value: u64)
    requires
        value < TOTAL_SEEDS,
    ensures
        code_value(code_text(value as int)) == Ok::<u64, SeedError>(value),
{
    let v = value as int;
    let text = code_text(v);
    assert(pow26(9) == TOTAL_SEEDS) by {
        reveal_with_fuel(pow26, 10);
    }
    assert forall|i: int| 0 <= i < 9 implies is_ascii_upper(#[trigger] code_letter(v, i)) by {
        lemma_code_letter(v, i);
    }
    assert(is_ascii_upper(code_letter(v, 0)) && is_ascii_upper(code_letter(v, 1)) && is_ascii_upper(
        code_letter(v, 2),
    ) && is_ascii_upper(code_letter(v, 3)) && is_ascii_upper(code_letter(v, 4)) && is_ascii_upper(
        code_letter(v, 5),
    ) && is_ascii_upper(code_letter(v, 6)) && is_ascii_upper(code_letter(v, 7)) && is_ascii_upper(
        code_letter(v, 8),
    ));
    assert forall|i: int| 0 <= i < text.len() implies (#[trigger] text[i] as u32) < 0x10000 by {}
    lemma_utf16_of_bmp(text);
    assert(properly_dashed(text));
    assert(all_ascii(text));
    let upper = text.map_values(|c: char| ascii_upper(c));
    assert(upper =~= text);
    assert(code_normalized(text) == text);
    assert(code_digits(text) =~= code_letters(v)) by {
        reveal_with_fuel(Seq::filter, 12);
        assert(text.drop_last().drop_last().drop_last().drop_last() =~= seq![
            code_letter(v, 0), code_letter(v, 1), code_letter(v, 2), '-',
            code_letter(v, 3), code_letter(v, 4), code_letter(v, 5),
        ]);
    }
    lemma_code_prefix(v, 9);
    assert(code_letters(v).take(9) =~= code_letters(v));
    assert(pow26(0) == 1);
    assert(all_upper(code_letters(v)));
}

/// The four digits of a year below 10000 spell the year.
proof fn lemma_year_digits(year: int)
    requires
        0 <= year < 10000,
    ensures
        ((year / 1000 * 10 + year / 100 % 10) * 10 + year / 10 % 10) * 10 + year % 10 == year,
{
}

/// The two digits of a number below 100 spell the number.
proof fn lemma_two_digits(n: int)
    requires
        0 <= n < 100,
    ensures
        n / 10 * 10 + n % 10 == n,
{
}

/// The bytes of a daily date text spell the date.
proof fn lemma_date_bytes(text: &str, year: int, month: int, day: int)
    requires
        valid_date(year, month, day),
        text@ == date_text(year, month, day),
    ensures
        date_shaped(text.spec_bytes()),
        number_at(text.spec_bytes(), 0, 4) == year,
        number_at(text.spec_bytes(), 5, 2) == month,
        number_at(text.spec_bytes(), 8, 2) == day,
{
    broadcast use vstd::string::is_ascii_spec_bytes;

    let chars = text@;
    assert(vstd::string::is_ascii(text));
    let bytes = text.spec_bytes();
    assert(bytes.len() == 10);
    assert forall|i: int| 0 <= i < 10 implies bytes[i] == chars[i] as u8 by {}
    reveal_with_fuel(number_at, 5);
    lemma_year_digits(year);
    lemma_two_digits(month);
    lemma_two_digits(day);
}

/// Reading a seed's canonical identity back gives the seed: the text that
/// `DungeonSeed::to_code` writes, parsed as scout input, is that seed again,
/// for codes and daily dates alike.
pub proof fn lemma_scout_round_trip(value: u64, text: &str)
    requires
        valid_seed_value(value),
        canonical_text(value, text@),
    ensures
        scout_value(text) == Ok::<u64, SeedError>(value),
{
    broadcast use vstd::string::is_ascii_spec_bytes;

    if value < TOTAL_SEEDS {
        lemma_code_round_trip(value);
        let v = value as int;
        lemma_code_letter(v, 0);
        assert(text@[0] == code_letter(v, 0));
        assert(vstd::string::is_ascii(text)) by {
            assert forall|i: int| 0 <= i < text@.len() implies '\0' <= #[trigger] text@[i]
                <= '\u{7f}' by {
                if i != 3 && i != 7 {
                    lemma_code_letter(v, if i < 3 {
                        i
                    } else if i < 7 {
                        i - 1
                    } else {
                        i - 2
                    });
                }
            }
        }
        assert(text.spec_bytes()[0] == text@[0] as u8);
    } else {
        let (year, month, day) = choose|year: int, month: int, day: int|
            #![trigger unix_days(year, month, day)]
            valid_date(year, month, day) && unix_days(year, month, day) == (value - TOTAL_SEEDS)
                / (DAY_MILLIS as int) && text@ == date_text(year, month, day);
        lemma_date_bytes(text, year, month, day);
        let offset = value - TOTAL_SEEDS;
        assert(offset == DAY_MILLIS * (offset / (DAY_MILLIS as int)) + offset % (DAY_MILLIS as int))
            by {
            vstd::arithmetic::div_mod::lemma_fundamental_div_mod(offset, DAY_MILLIS as int);
        }
        assert(daily_seed_value(unix_days(year, month, day)) == value);
    }
}

/// A valid date lies within its month.
proof fn lemma_date_in_month(year: int, month: int, day: int)
    requires
        valid_date(year, month, day),
    ensures
        days_before_month(year, month) + day - 1 < days_before_month(year, month + 1),
{
}

/// Distinct valid dates are distinct days.
pub proof fn lemma_unix_days_injective(y1: int, m1: int, d1: int, y2: int, m2: int, d2: int)
    requires
        valid_date(y1, m1, d1),
        valid_date(y2, m2, d2),
        unix_days(y1, m1, d1) == unix_days(y2, m2, d2),
    ensures
        y1 == y2 && m1 == m2 && d1 == d2,
{
    lemma_date_in_year(y1, m1, d1);
    lemma_date_in_year(y2, m2, d2);
    lemma_months_monotone(y1, 1, m1);
    lemma_months_monotone(y2, 1, m2);
    if y1 < y2 {
        lemma_years_monotone(y1 + 1, y2);
    } else if y2 < y1 {
        lemma_years_monotone(y2 + 1, y1);
    }
    assert(y1 == y2);
    lemma_date_in_month(y1, m1, d1);
    lemma_date_in_month(y2, m2, d2);
    if m1 < m2 {
        lemma_months_monotone(y1, m1 + 1, m2);
    } else if m2 < m1 {
        lemma_months_monotone(y1, m2 + 1, m1);
    }
}

/// A seed has one canonical identity text: `to_code` can write nothing else.
pub proof fn lemma_canonical_text_unique(value: u64, first: Seq<char>, second: Seq<char>)
    requires
        canonical_text(value, first),
        canonical_text(value, second),
    ensures
        first == second,
{
    if value >= TOTAL_SEEDS {
        let (y1, m1, d1) = choose|year: int, month: int, day: int|
            #![trigger unix_days(year, month, day)]
            valid_date(year, month, day) && unix_days(year, month, day) == (value - TOTAL_SEEDS)
                / (DAY_MILLIS as int) && first == date_text(year, month, day);
        let (y2, m2, d2) = choose|year: int, month: int, day: int|
            #![trigger unix_days(year, month, day)]
            valid_date(year, month, day) && unix_days(year, month, day) == (value - TOTAL_SEEDS)
                / (DAY_MILLIS as int) && second == date_text(year, month, day);
        lemma_unix_days_injective(y1, m1, d1, y2, m2, d2);
    }
}

/// The seed of a daily date is written back as that very date.
pub proof fn lemma_date_written_back(year: int, month: int, day: int, text: Seq<char>)
    requires
        valid_date(year, month, day),
        canonical_text(daily_seed_value(unix_days(year, month, day)) as u64, text),
    ensures
        text == date_text(year, month, day),
{
    let days = unix_days(year, month, day);
    lemma_date_in_year(year, month, day);
    lemma_daily_valid(days);
    let value = daily_seed_value(days) as u64;
    assert((value - TOTAL_SEEDS) / (DAY_MILLIS as int) == days);
    assert(canonical_text(value, date_text(year, month, day)));
    lemma_canonical_text_unique(value, text, date_text(year, month, day));
}

/// What `format_text` makes of `input`: the canonical text of a valid code,
/// anything else unchanged.
pub open spec fn formatted(input: Seq<char>, text: Seq<char>) -> bool {
    &&& code_value(input) is Ok ==> canonical_text(code_value(input)->Ok_0, text)
    &&& code_value(input) is Err ==> text == input
}

/// A seed code always reads as a value below 26^9.
pub proof fn lemma_code_value_in_range(text: Seq<char>)
    ensures
        code_value(text) is Ok ==> code_value(text)->Ok_0 < TOTAL_SEEDS,
{
    let digits = code_digits(code_normalized(text));
    if digits.len() == 9 && all_upper(digits) {
        lemma_base26_bound(digits);
        assert(pow26(9) == TOTAL_SEEDS) by {
            reveal_with_fuel(pow26, 10);
        }
    }
}

/// Formatting is idempotent: formatting what `format_text` returned gives
/// the same text back.
pub proof fn lemma_format_text_idempotent(input: Seq<char>, once: Seq<char>, twice: Seq<char>)
    requires
        formatted(input, once),
        formatted(once, twice),
    ensures
        twice == once,
{
    if code_value(input) is Ok {
        let v = code_value(input)->Ok_0;
        lemma_code_value_in_range(input);
        lemma_code_round_trip(v);
        assert(code_value(once) == Ok::<u64, SeedError>(v));
        lemma_canonical_text_unique(v, once, twice);
    }
}

} // verus!
