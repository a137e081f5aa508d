use seedfinder_core::model::ItemSource;
use seedfinder_core::tables::{anchor_band, floor_index, group, triangle, unpack_table, Feeling};

#[test]
fn floor_rows_skip_boss_floors() {
    assert_eq!(floor_index(1), 0);
    assert_eq!(floor_index(4), 3);
    assert_eq!(floor_index(6), 4);
    assert_eq!(floor_index(24), 19);
}

#[test]
fn pair_positions_pack_a_lower_triangle() {
    assert_eq!(triangle(1, 0), 0);
    assert_eq!(triangle(0, 1), 0);
    assert_eq!(triangle(2, 0), 1);
    assert_eq!(triangle(2, 1), 2);
    assert_eq!(triangle(19, 18), 19 * 18 / 2 + 18);
    assert_eq!(triangle(18, 19), triangle(19, 18));
}

#[test]
fn ordinary_feelings_share_a_group() {
    assert_eq!(group(0, Feeling::Normal), 0);
    assert_eq!(group(5, Feeling::Normal), 3);
    assert_eq!(group(6, Feeling::Normal), 3);
    assert_eq!(group(5, Feeling::Water), 0);
    assert_eq!(group(2, Feeling::Large), 1);
    assert_eq!(group(2, Feeling::Secrets), 2);
}

#[test]
fn wand_bands_follow_the_anchor_source() {
    assert_eq!(anchor_band(None, 0), Some(4));
    assert_eq!(anchor_band(Some(ItemSource::WandmakerReward), 3), Some(12));
    assert_eq!(anchor_band(Some(ItemSource::ImpReward), 4), Some(18));
    assert_eq!(anchor_band(Some(ItemSource::VaultTreasure), 1), Some(20));
    assert_eq!(anchor_band(Some(ItemSource::Heap), 1), None);
    assert_eq!(anchor_band(None, 5), None);
}

#[test]
fn stored_tables_unpack_to_their_declared_length() {
    let table: Vec<u8> = (0..200u32).map(|value| (value * 7 % 251) as u8).collect();
    let mut packed = (table.len() as u32).to_le_bytes().to_vec();
    packed.extend(miniz_oxide::deflate::compress_to_vec_zlib(&table, 6));
    assert_eq!(unpack_table(&packed), Some(table.clone()));

    let mut short = packed.clone();
    short[0] = short[0].wrapping_add(1);
    assert_eq!(unpack_table(&short), None);
    assert_eq!(unpack_table(&packed[..3]), None);
    let mut corrupt = packed.clone();
    corrupt.truncate(10);
    assert_eq!(unpack_table(&corrupt), None);
}
