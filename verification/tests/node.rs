//! Node entries: the state byte, entry sizes and the creation geometry.

use pg_am_hnsw::node::{
    check_creation_geometry, entry_size, is_live, is_tombstoned, level_base_offset, level_offset,
    level_region_pos, level_region_size, set_live, set_tombstone, state_offset, top_level_bits,
    NodeGeometry, NODE_PAGE_USABLE, STATE_LIVE_BIT, STATE_TOMBSTONE_BIT,
};
use pg_am_hnsw::rng::l_max;

#[test]
fn state_bits_are_the_frozen_layout() {
    assert_eq!(STATE_LIVE_BIT, 0x40);
    assert_eq!(STATE_TOMBSTONE_BIT, 0x80);
}

#[test]
fn entry_size_tiers_are_frozen() {
    assert_eq!(entry_size(128, 16, 32, 0), 643);
    assert_eq!(entry_size(128, 16, 32, 13), 1501);
    assert_eq!(entry_size(1791, 16, 32, 13), 8153);
    assert!(entry_size(1791, 16, 32, 13) <= NODE_PAGE_USABLE);
    assert!(entry_size(1792, 16, 32, 13) > NODE_PAGE_USABLE);
    assert_eq!(NODE_PAGE_USABLE, 8156);
}

#[test]
fn creation_geometry_check_is_product_linked() {
    check_creation_geometry(1791, 16, 32).unwrap();
    assert!(check_creation_geometry(1792, 16, 32).is_err());
    assert!(check_creation_geometry(0, 16, 32).is_err());
    assert_eq!(l_max(2), 53);
    check_creation_geometry(1873, 2, 32).unwrap();
    assert!(check_creation_geometry(1874, 2, 32).is_err());
    assert!(check_creation_geometry(1791, 16, 64).is_err());
}

#[test]
fn state_bits_are_independent() {
    let b = set_live(5);
    assert_eq!(b, 0x45);
    assert!(is_live(b) && !is_tombstoned(b));
    let b = set_tombstone(b);
    assert_eq!(b, 0xC5);
    assert!(is_live(b) && is_tombstoned(b));
    assert_eq!(top_level_bits(b), 5);
    assert_eq!(set_live(b), b);
    assert_eq!(set_tombstone(b), b);
}

#[test]
fn level_regions_follow_one_another() {
    let geo = NodeGeometry { dim: 4, m: 4, m_max0: 8 };
    assert_eq!(state_offset(4), 16);
    assert_eq!(level_base_offset(4), 17);
    assert_eq!(level_region_size(8), 34);
    assert_eq!(level_offset(4, 4, 8, 1), 51);
    assert_eq!(level_offset(4, 4, 8, 2), 69);
    assert_eq!(level_region_pos(geo, 0), (17, 8));
    assert_eq!(level_region_pos(geo, 2), (69, 4));
    assert_eq!(geo.entry_size(2), 87);
}
