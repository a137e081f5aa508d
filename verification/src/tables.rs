//! Indexing into the calibrated probability tables: floor positions, pair
//! triangles, feeling groups, wand-repeat bands, and the zlib envelope the
//! tables are stored in.

use vstd::prelude::*;

use vstd::slice::slice_subrange;

use crate::model::ItemSource;

verus! {

/// A floor's level feeling.
#[derive(Clone, Copy, Debug, PartialEq, Eq, Structural, Hash)]
pub enum Feeling {
    Normal,
    Chasm,
    Water,
    Grass,
    Dark,
    Large,
    Traps,
    Secrets,
}

/// Number of floors the tables cover (boss floors excluded).
pub const FLOORS: usize = 20;

/// The table row of a regular floor: boss floors (multiples of five) have
/// no row, so every fifth depth is skipped.
pub fn floor_index(depth: u8) -> (index: usize)
    requires
        depth >= 1,
    ensures
        index == depth - 1 - depth / 5,
{
    (depth - 1 - depth / 5) as usize
}

/// Position of an unordered pair `{a, b}` of distinct indices in a packed
/// lower triangle.
pub fn triangle(a: usize, b: usize) -> (position: usize)
    requires
        a != b || a >= 1,
        a < 0x1_0000,
        b < 0x1_0000,
    ensures
        position == (if a > b {
            a * (a - 1) / 2 + b
        } else {
            b * (b - 1) / 2 + a
        }),
{
    let (high, low) = if a > b {
        (a, b)
    } else {
        (b, a)
    };
    proof {
        assert(high * (high - 1) <= 65535 * 65534) by (nonlinear_arith)
            requires
                1 <= high <= 65535,
        ;
    }
    high * (high - 1) / 2 + low
}

/// Only Large and Secrets change room scheduling, so the ordinary feelings
/// share a group; profiles 5 and 6 keep the feeling-less floors apart.
pub open spec fn feeling_group(profile: usize, feeling: Feeling) -> usize {
    match feeling {
        Feeling::Normal => if profile == 5 || profile == 6 {
            3
        } else {
            0
        },
        Feeling::Large => 1,
        Feeling::Secrets => 2,
        _ => 0,
    }
}

/// The feeling group of a floor for a trinket profile.
pub fn group(profile: usize, feeling: Feeling) -> (index: usize)
    ensures
        index == feeling_group(profile, feeling),
{
    match feeling {
        Feeling::Normal => if profile == 5 || profile == 6 {
            3
        } else {
            0
        },
        Feeling::Large => 1,
        Feeling::Secrets => 2,
        _ => 0,
    }
}

/// The wand-repeat band of an upgrade anchor: the first four bands require
/// every copy to reach `minimum`; the others require one copy from a quest
/// source at or above `minimum`.
pub fn anchor_band(source: Option<ItemSource>, minimum: usize) -> (band: Option<usize>)
    ensures
        band == (if minimum > 4 {
            None
        } else {
            match source {
                None => Some((4 + minimum) as usize),
                Some(ItemSource::WandmakerReward) => Some((9 + minimum) as usize),
                Some(ItemSource::ImpReward) => Some((14 + minimum) as usize),
                Some(ItemSource::VaultTreasure) => Some((19 + minimum) as usize),
                _ => None,
            }
        }),
{
    if minimum > 4 {
        return None;
    }
    let group: usize = match source {
        None => 0,
        Some(ItemSource::WandmakerReward) => 1,
        Some(ItemSource::ImpReward) => 2,
        Some(ItemSource::VaultTreasure) => 3,
        _ => {
            return None;
        },
    };
    Some(4 + group * 5 + minimum)
}

// ---------------------------------------------------------------------------
// The stored envelope
// ---------------------------------------------------------------------------

/// The bytes a zlib stream inflates to, when the stream is complete and valid
/// and inflates to at most `limit` bytes.
pub uninterp spec fn zlib_inflated(input: Seq<u8>, limit: nat) -> Option<Seq<u8>>;

#[verifier::external_type_specification]
#[verifier::external_body]
pub struct ExDecompressError(miniz_oxide::inflate::DecompressError);

/// Inflates a zlib stream into at most `limit` bytes with
/// `miniz_oxide::inflate::decompress_to_vec_zlib_with_limit`. Its result is
/// named by `zlib_inflated`; the crate caps the output it returns at `limit`.
#[verifier::external_body]
fn inflate_zlib(input: &[u8], limit: usize) -> (inflated: Result<
    Vec<u8>,
    miniz_oxide::inflate::DecompressError,
>)
    ensures
        match inflated {
            Ok(bytes) => zlib_inflated(input@, limit as nat) == Some(bytes@) && bytes@.len()
                <= limit,
            Err(_) => zlib_inflated(input@, limit as nat) is None,
        },
{
    miniz_oxide::inflate::decompress_to_vec_zlib_with_limit(input, limit)
}

/// Little-endian `u32` of four bytes.
pub open spec fn le_u32(bytes: Seq<u8>) -> nat {
    bytes[0] as nat + 256 * bytes[1] as nat + 65536 * bytes[2] as nat + 16777216 * bytes[3] as nat
}

/// What a stored table unpacks to: its little-endian length prefix, then a
/// zlib stream that must inflate to exactly that many bytes.
pub open spec fn unpacked(packed: Seq<u8>) -> Option<Seq<u8>> {
    if packed.len() < 4 {
        None
    } else {
        match zlib_inflated(packed.subrange(4, packed.len() as int), le_u32(packed)) {
            Some(bytes) => if bytes.len() == le_u32(packed) {
                Some(bytes)
            } else {
                None
            },
            None => None,
        }
    }
}

/// Unpacks one stored table: `None` when the envelope is truncated, the
/// stream is invalid, or it inflates to a different length than declared.
pub fn unpack_table(packed: &[u8]) -> (table: Option<Vec<u8>>)
    ensures
        match table {
            Some(bytes) => unpacked(packed@) == Some(bytes@),
            None => unpacked(packed@) is None,
        },
{
    if packed.len() < 4 {
        return None;
    }
    let length: u64 = packed[0] as u64 + 256 * packed[1] as u64 + 65536 * packed[2] as u64
        + 16777216 * packed[3] as u64;
    if length > usize::MAX as u64 {
        proof {
            assert(false) by (nonlinear_arith)
                requires
                    length <= 255 + 256 * 255 + 65536 * 255 + 16777216 * 255,
                    length > usize::MAX,
                    usize::MAX >= 0xFFFF_FFFF,
            ;
        }
        return None;
    }
    let stream = slice_subrange(packed, 4, packed.len());
    proof {
        assert(stream@ == packed@.subrange(4, packed@.len() as int));
    }
    match inflate_zlib(stream, length as usize) {
        Ok(bytes) => if bytes.len() as u64 == length {
            Some(bytes)
        } else {
            None
        },
        Err(_) => None,
    }
}


/// Only Large floors take group 1 and only Secrets floors group 2; the
/// feeling-less floors of profiles 5 and 6 alone take group 3; every other
/// floor, the ordinary feelings (chasm, water, grass, dark, traps) among
/// them, is pooled in group 0.
pub proof fn lemma_feeling_groups(profile: usize, feeling: Feeling)
    ensures
        (feeling_group(profile, feeling) == 1) <==> feeling == Feeling::Large,
        (feeling_group(profile, feeling) == 2) <==> feeling == Feeling::Secrets,
        (feeling_group(profile, feeling) == 3) <==> (feeling == Feeling::Normal && (profile == 5 || profile == 6)),
        feeling_group(profile, feeling) <= 3,
        (feeling == Feeling::Chasm || feeling == Feeling::Water || feeling == Feeling::Grass || feeling
            == Feeling::Dark || feeling == Feeling::Traps) ==> feeling_group(profile, feeling) == 0,
{
}

} // verus!
