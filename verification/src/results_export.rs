//! The rules of versioned results-export documents that do not depend on the
//! JSON text: which seed codes a file may carry, which linked-item groups it
//! may use, and how importers deduplicate and cap the seed list.

use vstd::prelude::*;

use vstd::string::StringSliceAdditionalSpecFns;

use crate::query::SearchQuery;
use crate::seed::{code_value, seed_error_text, seed_result_value, DungeonSeed, SeedError};
use crate::text::{chars_of, decimal_text, string_of, unsigned_digits};

verus! {

/// Identifies a results file, whatever its version.
pub const FILE_FORMAT: &'static str = "seed-seeker-results";

/// The newest results-file version this build can read and the version it
/// writes.
pub const FORMAT_VERSION: u64 = 1;

/// Highest linked-item group a results file may use (groups A to D).
pub const EXPORTED_GROUPS: u8 = 4;

/// One decoded results file.
#[derive(Clone, Debug, PartialEq, Eq)]
pub struct ResultsFile {
    /// Version declared by the file, at most [`FORMAT_VERSION`].
    pub format_version: u64,
    /// App version that wrote the file, when declared. Informational.
    pub app_version: Option<String>,
    /// Game version the exporting engine targeted. Informational.
    pub shpd_version: Option<String>,
    /// The validated query that produced the exported results.
    pub query: SearchQuery,
    /// The exported result seeds, in their exported order.
    pub seeds: Vec<DungeonSeed>,
}

/// The seeds an importer keeps from the first `n` entries: each seed's first
/// occurrence, in order, until `limit` are kept.
pub open spec fn kept_seeds(seeds: Seq<DungeonSeed>, limit: nat, n: nat) -> Seq<DungeonSeed>
    decreases n,
{
    if n == 0 {
        Seq::empty()
    } else {
        let kept = kept_seeds(seeds, limit, (n - 1) as nat);
        if kept.len() == limit || kept.contains(seeds[n - 1]) {
            kept
        } else {
            kept.push(seeds[n - 1])
        }
    }
}

/// Keeping never exceeds the limit nor the entries seen.
proof fn lemma_kept_bounds(seeds: Seq<DungeonSeed>, limit: nat, n: nat)
    requires
        n <= seeds.len(),
    ensures
        kept_seeds(seeds, limit, n).len() <= n,
        kept_seeds(seeds, limit, n).len() <= limit,
    decreases n,
{
    if n > 0 {
        lemma_kept_bounds(seeds, limit, (n - 1) as nat);
    }
}

/// The kept seeds are distinct entries of the input, at most `limit` of
/// them, and while the cap is not reached every entry seen is kept.
pub proof fn lemma_kept_seeds(seeds: Seq<DungeonSeed>, limit: nat, n: nat)
    requires
        n <= seeds.len(),
    ensures
        kept_seeds(seeds, limit, n).no_duplicates(),
        kept_seeds(seeds, limit, n).len() <= limit,
        forall|i: int|
            0 <= i < kept_seeds(seeds, limit, n).len() ==> seeds.take(n as int).contains(
                #[trigger] kept_seeds(seeds, limit, n)[i],
            ),
        kept_seeds(seeds, limit, n).len() < limit ==> forall|i: int|
            0 <= i < n ==> kept_seeds(seeds, limit, n).contains(#[trigger] seeds[i]),
    decreases n,
{
    lemma_kept_bounds(seeds, limit, n);
    if n > 0 {
        let previous = kept_seeds(seeds, limit, (n - 1) as nat);
        let kept = kept_seeds(seeds, limit, n);
        lemma_kept_seeds(seeds, limit, (n - 1) as nat);
        assert forall|i: int| 0 <= i < kept.len() implies seeds.take(n as int).contains(
            #[trigger] kept[i],
        ) by {
            if i < previous.len() {
                assert(seeds.take((n - 1) as int).contains(previous[i]));
                let j = choose|j: int|
                    0 <= j < n - 1 && #[trigger] seeds.take((n - 1) as int)[j] == previous[i];
                assert(seeds.take(n as int)[j] == kept[i]);
            } else {
                assert(seeds.take(n as int)[n - 1] == kept[i]);
            }
        }
        if kept.len() < limit {
            assert forall|i: int| 0 <= i < n implies kept.contains(#[trigger] seeds[i]) by {
                if i < n - 1 {
                    assert(previous.contains(seeds[i]));
                    let j = choose|j: int| 0 <= j < previous.len() && previous[j] == seeds[i];
                    assert(kept[j] == seeds[i]);
                } else if !previous.contains(seeds[i]) {
                    assert(kept[kept.len() - 1] == seeds[i]);
                }
            }
        }
    }
}

/// Deduplicates seeds, keeping each seed's first occurrence, and caps the
/// list at `limit`; returns the kept seeds and how many entries were dropped.
/// Every importer applies this rule so that a file restores the same list
/// everywhere.
pub fn dedupe_and_cap(seeds: &[DungeonSeed], limit: usize) -> (result: (Vec<DungeonSeed>, usize))
    ensures
        result.0@ == kept_seeds(seeds@, limit as nat, seeds@.len()),
        result.1 == seeds@.len() - result.0@.len(),
        result.0@.no_duplicates(),
        result.0@.len() <= limit,
        forall|i: int| 0 <= i < result.0@.len() ==> seeds@.contains(#[trigger] result.0@[i]),
        result.0@.len() < limit ==> forall|i: int|
            0 <= i < seeds@.len() ==> result.0@.contains(#[trigger] seeds@[i]),
{
    proof {
        lemma_kept_seeds(seeds@, limit as nat, seeds@.len());
        assert(seeds@.take(seeds@.len() as int) =~= seeds@);
    }
    let mut kept: Vec<DungeonSeed> = Vec::new();
    let mut i: usize = 0;
    while i < seeds.len()
        invariant
            i <= seeds@.len(),
            kept@ == kept_seeds(seeds@, limit as nat, i as nat),
            kept@.len() <= i,
        decreases seeds@.len() - i,
    {
        proof {
            lemma_kept_bounds(seeds@, limit as nat, i as nat);
        }
        if kept.len() == limit {
            proof {
                lemma_kept_full(seeds@, limit as nat, i as nat, seeds@.len());
                lemma_kept_seeds(seeds@, limit as nat, seeds@.len());
                assert(seeds@.take(seeds@.len() as int) =~= seeds@);
            }
            let dropped = seeds.len() - kept.len();
            return (kept, dropped);
        }
        let seed = seeds[i];
        let mut seen = false;
        let mut j: usize = 0;
        while j < kept.len()
            invariant
                j <= kept@.len(),
                seen == exists|k: int| 0 <= k < j && kept@[k] == seed,
            decreases kept@.len() - j,
        {
            if kept[j] == seed {
                seen = true;
            }
            j = j + 1;
        }
        if !seen {
            kept.push(seed);
        }
        i = i + 1;
    }
    let dropped = seeds.len() - kept.len();
    (kept, dropped)
}

/// A full list stays as it is.
proof fn lemma_kept_full(seeds: Seq<DungeonSeed>, limit: nat, i: nat, n: nat)
    requires
        i <= n,
        kept_seeds(seeds, limit, i).len() == limit,
    ensures
        kept_seeds(seeds, limit, n) == kept_seeds(seeds, limit, i),
    decreases n - i,
{
    if i < n {
        lemma_kept_full(seeds, limit, i, (n - 1) as nat);
    }
}

/// Whether a byte is an ASCII capital letter.
pub open spec fn is_capital(byte: u8) -> bool {
    65 <= byte <= 90
}

/// The canonical `XXX-XXX-XXX` spelling of a seed code: eleven bytes, dashes
/// at positions 3 and 7, capital letters elsewhere.
pub open spec fn canonical_code(bytes: Seq<u8>) -> bool {
    &&& bytes.len() == 11
    &&& forall|i: int|
        0 <= i < 11 ==> if i == 3 || i == 7 {
            #[trigger] bytes[i] == 45
        } else {
            is_capital(bytes[i])
        }
}

/// Whether a seed code is spelled canonically; results files must use the
/// canonical form, stricter than interactive input.
pub fn is_canonical_code(code: &str) -> (canonical: bool)
    ensures
        canonical == canonical_code(code.spec_bytes()),
{
    let bytes = code.as_bytes();
    if bytes.len() != 11 {
        return false;
    }
    let mut i: usize = 0;
    while i < 11
        invariant
            i <= 11,
            bytes@ == code.spec_bytes(),
            bytes@.len() == 11,
            forall|k: int|
                0 <= k < i ==> if k == 3 || k == 7 {
                    #[trigger] bytes@[k] == 45
                } else {
                    is_capital(bytes@[k])
                },
        decreases 11 - i,
    {
        let byte = bytes[i];
        let ok = if i == 3 || i == 7 {
            byte == 45u8
        } else {
            65u8 <= byte && byte <= 90u8
        };
        if !ok {
            assert(!canonical_code(bytes@));
            return false;
        }
        i = i + 1;
    }
    true
}

/// The first requirement (by position) whose linked-item group lies past the
/// groups a results file may express.
pub fn unexportable_group(query: &SearchQuery) -> (position: Option<usize>)
    ensures
        match position {
            Some(i) => i < query.requirements@.len() && (match query.requirements@[i as int].identity_group {
                Some(group) => group > EXPORTED_GROUPS,
                None => false,
            }) && forall|j: int|
                0 <= j < i ==> !(match #[trigger] query.requirements@[j].identity_group {
                    Some(group) => group > EXPORTED_GROUPS,
                    None => false,
                }),
            None => forall|j: int|
                0 <= j < query.requirements@.len() ==> !(match #[trigger] query.requirements@[j].identity_group {
                    Some(group) => group > EXPORTED_GROUPS,
                    None => false,
                }),
        },
{
    let mut i: usize = 0;
    while i < query.requirements.len()
        invariant
            i <= query.requirements@.len(),
            forall|j: int|
                0 <= j < i ==> !(match #[trigger] query.requirements@[j].identity_group {
                    Some(group) => group > EXPORTED_GROUPS,
                    None => false,
                }),
        decreases query.requirements@.len() - i,
    {
        if let Some(group) = query.requirements[i].identity_group {
            if group > EXPORTED_GROUPS {
                return Some(i);
            }
        }
        i = i + 1;
    }
    None
}

/// What a results file declares as its `format_version`.
#[derive(Clone, Copy, Debug, PartialEq, Eq, Structural)]
pub enum DeclaredVersion {
    /// No `format_version` field.
    Missing,
    /// A `format_version` that is not a non-negative integer.
    NotAnInteger,
    /// A non-negative integer.
    Number(u64),
}

/// Why a results file was refused, for the reasons that the document's
/// structure decides.
#[derive(Clone, Copy, Debug, PartialEq, Eq, Structural)]
pub enum ResultsError {
    /// The `format` field is missing or names another format.
    NotResultsFile,
    MissingVersion,
    /// The version is not a positive integer.
    InvalidVersion,
    /// The file comes from a newer format version.
    NewerVersion(u64),
    MissingQuery,
    /// A requirement (numbered from one) uses a group past D.
    GroupOutOfRange { requirement: usize },
    MissingResults,
    /// A result (numbered from one) has no seed code.
    MissingSeed { result: usize },
    /// A result's seed code is not spelled `XXX-XXX-XXX`.
    NonCanonicalSeed { result: usize },
    /// A result's canonical code is not a seed.
    InvalidSeed { result: usize, error: SeedError },
}

/// The message a refused results file is answered with.
pub open spec fn results_message(error: ResultsError) -> Seq<char> {
    match error {
        ResultsError::NotResultsFile => "this is not a Seed Seeker results file: missing \"format\": \"seed-seeker-results\""@,
        ResultsError::MissingVersion => "this results file is missing its \"format_version\" number"@,
        ResultsError::InvalidVersion => "this results file does not declare a valid format version (a positive integer)"@,
        ResultsError::NewerVersion(version) => "this results file uses format version "@ + decimal_text(
            version as int,
        ) + ", but this app understands up to version 1; update Seed Seeker to import it"@,
        ResultsError::MissingQuery => "this results file is missing its \"query\" object"@,
        ResultsError::GroupOutOfRange { requirement } => "requirement "@ + decimal_text(requirement as int)
            + ": same-item group must be between 1 and 4 (A..D)"@,
        ResultsError::MissingResults => "this results file is missing its \"results\" list"@,
        ResultsError::MissingSeed { result } => "result "@ + decimal_text(result as int)
            + ": missing \"seed\" code"@,
        ResultsError::NonCanonicalSeed { result } => "result "@ + decimal_text(result as int)
            + ": seed code must use the canonical XXX-XXX-XXX form"@,
        ResultsError::InvalidSeed { result, error: _ } => "result "@ + decimal_text(result as int)
            + ": "@,
    }
}

/// Joins a literal, a number and a literal.
fn numbered(before: &str, number: u64, after: &str) -> (text: String)
    ensures
        text@ == before@ + decimal_text(number as int) + after@,
{
    let mut chars = chars_of(before);
    let mut digits = unsigned_digits(number);
    let mut tail = chars_of(after);
    chars.append(&mut digits);
    chars.append(&mut tail);
    string_of(&chars)
}

impl ResultsError {
    /// The user-facing explanation. For an invalid seed, the seed error's
    /// own message follows.
    pub fn message(self) -> (text: String)
        ensures
            text@ == results_message(self) + match self {
                ResultsError::InvalidSeed { result: _, error } => seed_error_text(error),
                _ => Seq::empty(),
            },
    {
        match self {
            ResultsError::NotResultsFile => String::from_str(
                "this is not a Seed Seeker results file: missing \"format\": \"seed-seeker-results\"",
            ),
            ResultsError::MissingVersion => String::from_str(
                "this results file is missing its \"format_version\" number",
            ),
            ResultsError::InvalidVersion => String::from_str(
                "this results file does not declare a valid format version (a positive integer)",
            ),
            ResultsError::NewerVersion(version) => numbered(
                "this results file uses format version ",
                version,
                ", but this app understands up to version 1; update Seed Seeker to import it",
            ),
            ResultsError::MissingQuery => String::from_str("this results file is missing its \"query\" object"),
            ResultsError::GroupOutOfRange { requirement } => numbered(
                "requirement ",
                requirement as u64,
                ": same-item group must be between 1 and 4 (A..D)",
            ),
            ResultsError::MissingResults => String::from_str("this results file is missing its \"results\" list"),
            ResultsError::MissingSeed { result } => numbered("result ", result as u64, ": missing \"seed\" code"),
            ResultsError::NonCanonicalSeed { result } => numbered(
                "result ",
                result as u64,
                ": seed code must use the canonical XXX-XXX-XXX form",
            ),
            ResultsError::InvalidSeed { result, error } => {
                let head = numbered("result ", result as u64, ": ");
                let mut chars = chars_of(head.as_str());
                let mut tail = chars_of(error.message());
                chars.append(&mut tail);
                string_of(&chars)
            },
        }
    }
}

/// The envelope checks of a results file, in order: the format name, a
/// declared version that is a positive integer no newer than this build's,
/// and a query object. Returns the declared version.
pub fn check_envelope(
    names_results_format: bool,
    version: DeclaredVersion,
    has_query_object: bool,
) -> (result: Result<u64, ResultsError>)
    ensures
        result == (if !names_results_format {
            Err(ResultsError::NotResultsFile)
        } else {
            match version {
                DeclaredVersion::Missing => Err(ResultsError::MissingVersion),
                DeclaredVersion::NotAnInteger => Err(ResultsError::InvalidVersion),
                DeclaredVersion::Number(v) => if v < 1 {
                    Err(ResultsError::InvalidVersion)
                } else if v > FORMAT_VERSION {
                    Err(ResultsError::NewerVersion(v))
                } else if !has_query_object {
                    Err(ResultsError::MissingQuery)
                } else {
                    Ok(v)
                },
            }
        }),
{
    if !names_results_format {
        return Err(ResultsError::NotResultsFile);
    }
    match version {
        DeclaredVersion::Missing => Err(ResultsError::MissingVersion),
        DeclaredVersion::NotAnInteger => Err(ResultsError::InvalidVersion),
        DeclaredVersion::Number(v) => {
            if v < 1 {
                Err(ResultsError::InvalidVersion)
            } else if v > FORMAT_VERSION {
                Err(ResultsError::NewerVersion(v))
            } else if !has_query_object {
                Err(ResultsError::MissingQuery)
            } else {
                Ok(v)
            }
        },
    }
}

/// The group check of a decoded query: the first requirement whose group
/// lies past D refuses the file.
pub fn check_groups(query: &SearchQuery) -> (result: Result<(), ResultsError>)
    requires
        query.requirements@.len() < usize::MAX,
    ensures
        match result {
            Ok(()) => forall|j: int|
                0 <= j < query.requirements@.len() ==> !(match #[trigger] query.requirements@[j].identity_group {
                    Some(group) => group > EXPORTED_GROUPS,
                    None => false,
                }),
            Err(error) => exists|i: int|
                0 <= i < query.requirements@.len() && error == ResultsError::GroupOutOfRange {
                    requirement: (i + 1) as usize,
                } && (match #[trigger] query.requirements@[i].identity_group {
                    Some(group) => group > EXPORTED_GROUPS,
                    None => false,
                }) && forall|j: int|
                    0 <= j < i ==> !(match #[trigger] query.requirements@[j].identity_group {
                        Some(group) => group > EXPORTED_GROUPS,
                        None => false,
                    }),
        },
{
    match unexportable_group(query) {
        Some(i) => Err(ResultsError::GroupOutOfRange { requirement: i + 1 }),
        None => Ok(()),
    }
}

/// Reads the seed of one result entry (numbered from zero), given the entry's
/// `seed` string if it has one. Files must carry the canonical spelling,
/// stricter than interactive input.
pub fn decode_result_seed(index: usize, code: Option<&str>) -> (result: Result<DungeonSeed, ResultsError>)
    requires
        index < usize::MAX,
    ensures
        match code {
            None => result == Err::<DungeonSeed, ResultsError>(ResultsError::MissingSeed { result: (index + 1) as usize }),
            Some(code) => if !canonical_code(code.spec_bytes()) {
                result == Err::<DungeonSeed, ResultsError>(ResultsError::NonCanonicalSeed { result: (index + 1) as usize })
            } else {
                match result {
                    Ok(seed) => seed_result_value(Ok(seed)) == code_value(code@),
                    Err(ResultsError::InvalidSeed { result: number, error }) => number == index + 1
                        && code_value(code@) == Err::<u64, SeedError>(error),
                    Err(_) => false,
                }
            },
        },
{
    match code {
        None => Err(ResultsError::MissingSeed { result: index + 1 }),
        Some(code) => {
            if !is_canonical_code(code) {
                return Err(ResultsError::NonCanonicalSeed { result: index + 1 });
            }
            match DungeonSeed::from_code(code) {
                Ok(seed) => Ok(seed),
                Err(error) => Err(ResultsError::InvalidSeed { result: index + 1, error }),
            }
        },
    }
}


/// A code is canonical exactly when it has eleven bytes, dashes at
/// positions 3 and 7, and an ASCII capital from `A` to `Z` (65 to 90, both
/// included) at each of the other nine positions.
pub proof fn lemma_canonical_code_spelling(bytes: Seq<u8>)
    ensures
        canonical_code(bytes) <==> {
            &&& bytes.len() == 11
            &&& bytes[3] == 45u8
            &&& bytes[7] == 45u8
            &&& forall|i: int| 0 <= i < 11 && i != 3 && i != 7 ==> 65 <= #[trigger] bytes[i] && bytes[i] <= 90
        },
{
    if bytes.len() == 11 && bytes[3] == 45u8 && bytes[7] == 45u8 && (forall|i: int|
        0 <= i < 11 && i != 3 && i != 7 ==> 65 <= #[trigger] bytes[i] && bytes[i] <= 90) {
        assert forall|i: int| 0 <= i < 11 implies if i == 3 || i == 7 {
            #[trigger] bytes[i] == 45
        } else {
            is_capital(bytes[i])
        } by {
            if i != 3 && i != 7 {
                assert(65 <= bytes[i] && bytes[i] <= 90);
            }
        }
    }
    if canonical_code(bytes) {
        assert(bytes[3] == 45);
        assert(bytes[7] == 45);
        assert forall|i: int| 0 <= i < 11 && i != 3 && i != 7 implies 65 <= #[trigger] bytes[i] && bytes[i] <= 90 by {
            assert(is_capital(bytes[i]));
        }
    }
}

/// Every letter from `A` to `Z` may stand at each letter position of a
/// canonical code: changing one letter of a canonical code to any capital,
/// `Z` included, keeps it canonical, and any other byte there makes it
/// non-canonical.
pub proof fn lemma_canonical_letters_interchangeable(bytes: Seq<u8>, i: int, letter: u8)
    requires
        canonical_code(bytes),
        0 <= i < 11,
        i != 3,
        i != 7,
    ensures
        canonical_code(bytes.update(i, letter)) <==> (65 <= letter && letter <= 90),
{
    lemma_canonical_code_spelling(bytes);
    lemma_canonical_code_spelling(bytes.update(i, letter));
    let changed = bytes.update(i, letter);
    if 65 <= letter && letter <= 90 {
        assert forall|k: int| 0 <= k < 11 && k != 3 && k != 7 implies 65 <= #[trigger] changed[k] && changed[k] <= 90 by {
            if k != i {
                assert(changed[k] == bytes[k]);
            }
        }
    } else {
        assert(changed[i] == letter);
    }
}

} // verus!
