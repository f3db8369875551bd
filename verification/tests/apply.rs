//! Node entries and directory entries on their pages.

use pg_am_hnsw::apply::{
    append_node, apply_meta, apply_node_at, apply_tombstone, dir_append, dir_link, entry_is_live,
    entry_is_tombstoned, entry_neighbors, entry_top_level, entry_vector, neighbor_iter, pd_lower,
    pd_upper, publish_live, read_lp, select_slot, set_neighbors, set_pd_lower, set_pd_upper,
    vector_iter, write_lp,
};
use pg_am_hnsw::dir::DIR_ENTRIES_PER_PAGE;
use pg_am_hnsw::meta::{META_OFF_ENTRY_POINT, META_OFF_MAX_LEVEL};
use pg_am_hnsw::node::NodeGeometry;
use pg_am_hnsw::page::{
    dir_count, dir_next, init_dir_page, init_node_page, DIR_HEADER_SIZE, DIR_OFF_COUNT,
};
use pg_am_hnsw::storage::{
    encode_line_pointer, PageId, LINE_POINTER_SIZE, PAGE_HEADER_SIZE, PAGE_SIZE,
};
use pg_am_hnsw::HnswError;

fn bits(v: &[f32]) -> Vec<u32> {
    v.iter().map(|x| x.to_bits()).collect()
}

const DIM: u16 = 4;
const M: u16 = 4;
const M_MAX0: u16 = 8;
const GEO: NodeGeometry = NodeGeometry {
    dim: DIM,
    m: M,
    m_max0: M_MAX0,
};

fn node_page() -> [u8; PAGE_SIZE] {
    let mut p = [0u8; PAGE_SIZE];
    init_node_page(&mut p);
    p
}

fn dir_page(ordinal: u64) -> [u8; PAGE_SIZE] {
    let mut p = [0u8; PAGE_SIZE];
    init_dir_page(&mut p, ordinal);
    p
}

#[test]
fn append_node_creates_fixed_size_initializing_entry() {
    let mut page = node_page();
    let slot = append_node(&mut page, 7, 2, GEO, &bits(&[1.0, 2.0, 3.0, 4.0])).unwrap();
    assert_eq!(slot, 0);
    assert_eq!(entry_top_level(&page, slot, DIM).unwrap(), 2);
    assert!(!entry_is_live(&page, slot, DIM).unwrap());
    assert!(!entry_is_tombstoned(&page, slot, DIM).unwrap());
    assert_eq!(
        entry_vector(&page, slot, DIM).unwrap(),
        bits(&[1.0, 2.0, 3.0, 4.0])
    );
    for l in 0..=2u8 {
        assert!(entry_neighbors(&page, slot, GEO, l).unwrap().is_empty());
    }
    let slot2 = append_node(&mut page, 8, 0, GEO, &bits(&[9.0; 4])).unwrap();
    assert_eq!(slot2, 1);
}

#[test]
fn dir_append_writes_10b_entries_and_counts_up() {
    let mut page = dir_page(0);
    assert_eq!(dir_append(&mut page, 0, PageId(11), 3).unwrap(), 0);
    assert_eq!(dir_append(&mut page, 1, PageId(12), 4).unwrap(), 1);
    assert_eq!(dir_count(&page), 2);
    let base = PAGE_HEADER_SIZE + DIR_HEADER_SIZE;
    assert_eq!(
        u64::from_le_bytes(page[base..base + 8].try_into().unwrap()),
        11
    );
    assert_eq!(
        u16::from_le_bytes(page[base + 8..base + 10].try_into().unwrap()),
        3
    );
}

#[test]
fn dir_append_full_page_boundary() {
    let mut page = dir_page(0);
    for i in 0..DIR_ENTRIES_PER_PAGE {
        dir_append(&mut page, i, PageId(11), i as u16).unwrap();
    }
    assert_eq!(dir_count(&page), DIR_ENTRIES_PER_PAGE);
    let err = dir_append(&mut page, 813, PageId(12), 0).unwrap_err();
    assert!(matches!(err, HnswError::InvalidOperation(_)));
    dir_link(&mut page, PageId(200));
    assert_eq!(dir_next(&page), PageId(200));
}

#[test]
fn dir_append_round5_guards() {
    let mut page = node_page();
    page[18..20].copy_from_slice(&10u16.to_le_bytes());
    assert!(matches!(
        append_node(&mut page, 1, 0, GEO, &bits(&[1.0; 4])),
        Err(HnswError::Corrupted(_))
    ));

    let mut page = dir_page(u64::MAX / u64::from(DIR_ENTRIES_PER_PAGE) + 1);
    assert!(matches!(
        dir_append(&mut page, 0, PageId(11), 0),
        Err(HnswError::Corrupted(_))
    ));

    let mut page = dir_page(0);
    dir_append(&mut page, 0, PageId(11), 3).unwrap();
    dir_append(&mut page, 1, PageId(12), 4).unwrap();
    let before = page;
    dir_append(&mut page, 0, PageId(11), 3).unwrap();
    dir_append(&mut page, 1, PageId(12), 4).unwrap();
    assert_eq!(page, before);

    let err = dir_append(&mut page, 1, PageId(99), 7).unwrap_err();
    assert!(matches!(err, HnswError::Corrupted(_)));
    assert!(err.to_string().contains("post-image disagrees"), "{}", err.to_string());
}

#[test]
fn set_neighbors_in_place_and_idempotent_overwrite() {
    let mut page = node_page();
    let slot = append_node(&mut page, 7, 0, GEO, &bits(&[1.0; 4])).unwrap();
    set_neighbors(&mut page, slot, GEO, 0, &[1, 5, 9]).unwrap();
    assert_eq!(entry_neighbors(&page, slot, GEO, 0).unwrap(), vec![1, 5, 9]);
    let before = page;
    for _ in 0..3 {
        set_neighbors(&mut page, slot, GEO, 0, &[1, 5, 9]).unwrap();
    }
    assert_eq!(page, before);
    set_neighbors(&mut page, slot, GEO, 0, &[2]).unwrap();
    let after_shrink = page;
    set_neighbors(&mut page, slot, GEO, 0, &[2]).unwrap();
    assert_eq!(page, after_shrink);
    assert_eq!(entry_neighbors(&page, slot, GEO, 0).unwrap(), vec![2]);
}

#[test]
fn set_neighbors_rejects_overflow_and_missing_slot() {
    let mut page = node_page();
    let slot = append_node(&mut page, 7, 0, GEO, &bits(&[1.0; 4])).unwrap();
    let err = set_neighbors(&mut page, slot, GEO, 0, &[1, 2, 3, 4, 5, 6, 7, 8, 9]).unwrap_err();
    assert!(matches!(err, HnswError::Corrupted(_)));
    assert!(set_neighbors(&mut page, 99, GEO, 0, &[1]).is_err());
}

#[test]
fn set_neighbors_full_capacity_and_top_level_boundaries() {
    let mut page = node_page();
    let slot = append_node(&mut page, 1, 63, GEO, &bits(&[1.0; 4])).unwrap();
    assert_eq!(entry_top_level(&page, slot, DIM).unwrap(), 63);
    let full0: Vec<u32> = (0..M_MAX0 as u32).collect();
    set_neighbors(&mut page, slot, GEO, 0, &full0).unwrap();
    assert_eq!(
        entry_neighbors(&page, slot, GEO, 0).unwrap().len(),
        M_MAX0 as usize
    );
    let full_l: Vec<u32> = (0..M as u32).collect();
    set_neighbors(&mut page, slot, GEO, 63, &full_l).unwrap();
    assert_eq!(
        entry_neighbors(&page, slot, GEO, 63).unwrap().len(),
        M as usize
    );
}

#[test]
fn publish_live_and_tombstone_flip_state_bits_idempotently() {
    let mut page = node_page();
    let slot = append_node(&mut page, 7, 0, GEO, &bits(&[1.0; 4])).unwrap();
    assert!(!entry_is_live(&page, slot, DIM).unwrap());
    publish_live(&mut page, slot, DIM).unwrap();
    assert!(entry_is_live(&page, slot, DIM).unwrap());
    let before = page;
    for _ in 0..3 {
        publish_live(&mut page, slot, DIM).unwrap();
    }
    assert_eq!(page, before);

    apply_tombstone(&mut page, slot, DIM).unwrap();
    assert!(entry_is_tombstoned(&page, slot, DIM).unwrap());
    assert!(entry_is_live(&page, slot, DIM).unwrap());
    let before = page;
    for _ in 0..3 {
        apply_tombstone(&mut page, slot, DIM).unwrap();
    }
    assert_eq!(page, before);
}

#[test]
fn apply_meta_writes_entry_point_and_max_level() {
    let mut page = [0u8; PAGE_SIZE];
    apply_meta(&mut page, 42, 3);
    assert_eq!(
        u32::from_le_bytes(
            page[META_OFF_ENTRY_POINT..META_OFF_ENTRY_POINT + 4]
                .try_into()
                .unwrap()
        ),
        42
    );
    assert_eq!(page[META_OFF_MAX_LEVEL], 3);
    let before = page;
    for _ in 0..3 {
        apply_meta(&mut page, 42, 3);
    }
    assert_eq!(page, before);
}

#[test]
fn append_node_rejects_wrong_length_vector_loudly() {
    let mut page = node_page();
    assert!(matches!(
        append_node(&mut page, 7, 0, GEO, &bits(&[1.0; 5])).unwrap_err(),
        HnswError::Corrupted(_)
    ));
    assert!(matches!(
        append_node(&mut page, 7, 0, GEO, &bits(&[1.0; 3])).unwrap_err(),
        HnswError::Corrupted(_)
    ));
    let mut raw = [0u8; PAGE_SIZE];
    assert!(matches!(
        append_node(&mut raw, 7, 0, GEO, &bits(&[1.0; 4])).unwrap_err(),
        HnswError::Corrupted(_)
    ));
}

#[test]
fn geometry_mismatch_is_loud_never_a_panic() {
    let mut page = node_page();
    let slot = append_node(&mut page, 7, 1, GEO, &bits(&[1.0; 4])).unwrap();
    assert!(matches!(
        set_neighbors(&mut page, slot, GEO, 2, &[1]).unwrap_err(),
        HnswError::Corrupted(_)
    ));
    assert!(matches!(
        entry_neighbors(&page, slot, GEO, 2).unwrap_err(),
        HnswError::Corrupted(_)
    ));
    let big_dim = 20;
    assert!(matches!(
        publish_live(&mut page, slot, big_dim).unwrap_err(),
        HnswError::Corrupted(_)
    ));
    assert!(matches!(
        entry_top_level(&page, slot, big_dim).unwrap_err(),
        HnswError::Corrupted(_)
    ));
    assert!(matches!(
        entry_vector(&page, slot, big_dim).unwrap_err(),
        HnswError::Corrupted(_)
    ));
    assert!(matches!(
        apply_tombstone(&mut page, slot, big_dim).unwrap_err(),
        HnswError::Corrupted(_)
    ));
}

#[test]
fn apply_node_at_redo_form_create_overwrite_and_rejections() {
    let mut page = node_page();
    apply_node_at(&mut page, 0, 7, 1, GEO, &bits(&[1.0, 2.0, 3.0, 4.0])).unwrap();
    assert_eq!(entry_top_level(&page, 0, DIM).unwrap(), 1);
    assert!(!entry_is_live(&page, 0, DIM).unwrap());

    assert!(matches!(
        apply_node_at(&mut page, 2, 8, 0, GEO, &bits(&[9.0; 4])).unwrap_err(),
        HnswError::Corrupted(_)
    ));

    let mut replayed = page;
    for _ in 0..3 {
        apply_node_at(&mut replayed, 0, 7, 1, GEO, &bits(&[1.0, 2.0, 3.0, 4.0])).unwrap();
    }
    assert_eq!(replayed, page);

    publish_live(&mut page, 0, DIM).unwrap();
    assert!(matches!(
        apply_node_at(&mut page, 0, 7, 1, GEO, &bits(&[1.0, 2.0, 3.0, 4.0])).unwrap_err(),
        HnswError::Corrupted(_)
    ));
}

#[test]
fn dir_entries_per_page_matches_the_format_constant() {
    assert_eq!(DIR_ENTRIES_PER_PAGE, 813);
}

#[test]
fn line_pointer_layout_golden_pin() {
    assert_eq!(
        u32::from_le_bytes(encode_line_pointer(8000, 96)),
        0x00C0_9F40
    );
    let mut page = node_page();
    let off = 8000u16;
    let len = 96u16;
    write_lp(&mut page, 0, off, len);
    let raw = u32::from_le_bytes(
        page[PAGE_HEADER_SIZE..PAGE_HEADER_SIZE + 4]
            .try_into()
            .unwrap(),
    );
    assert_eq!(raw, 0x00C0_9F40);
    set_pd_lower(&mut page, (PAGE_HEADER_SIZE + LINE_POINTER_SIZE) as u16);
    set_pd_upper(&mut page, off);
    assert_eq!(read_lp(&page, 0), Some((off, len)));
}

#[test]
fn write_entry_rejects_top_level_above_63_loudly() {
    let mut page = node_page();
    let pristine = page;
    assert!(matches!(
        append_node(&mut page, 7, 64, GEO, &bits(&[1.0; 4])).unwrap_err(),
        HnswError::Corrupted(_)
    ));
    assert_eq!(page, pristine);
    assert!(matches!(
        apply_node_at(&mut page, 0, 7, 100, GEO, &bits(&[1.0; 4])).unwrap_err(),
        HnswError::Corrupted(_)
    ));
    assert_eq!(page, pristine);
    assert!(append_node(&mut page, 7, 63, GEO, &bits(&[1.0; 4])).is_ok());
}

#[test]
fn select_slot_is_pure_and_feeds_the_wal_first_flow() {
    let mut page = node_page();
    let pristine = page;
    let len = GEO.entry_size(1);
    assert_eq!(select_slot(&page, len).unwrap(), 0);
    assert_eq!(select_slot(&page, len).unwrap(), 0);
    assert_eq!(page, pristine);
    apply_node_at(&mut page, 0, 7, 1, GEO, &bits(&[1.0; 4])).unwrap();
    assert_eq!(select_slot(&page, len).unwrap(), 1);
    let mut composed = pristine;
    let slot = append_node(&mut composed, 7, 1, GEO, &bits(&[1.0; 4])).unwrap();
    assert_eq!(slot, 0);
    assert_eq!(composed, page);
    assert!(matches!(
        select_slot(&page, PAGE_SIZE).unwrap_err(),
        HnswError::InvalidOperation(_)
    ));
}

#[test]
fn append_paths_reject_misaligned_or_torn_headers_loudly() {
    let mut page = node_page();
    page[14..16].copy_from_slice(&35u16.to_le_bytes());
    assert!(matches!(
        select_slot(&page, GEO.entry_size(0)).unwrap_err(),
        HnswError::Corrupted(_)
    ));
    assert!(matches!(
        append_node(&mut page, 7, 0, GEO, &bits(&[1.0; 4])).unwrap_err(),
        HnswError::Corrupted(_)
    ));
    assert!(matches!(
        apply_node_at(&mut page, 0, 7, 0, GEO, &bits(&[1.0; 4])).unwrap_err(),
        HnswError::Corrupted(_)
    ));
}

#[test]
fn read_lp_rejects_entries_outside_the_tuple_region() {
    let mut page = node_page();
    let slot = append_node(&mut page, 7, 0, GEO, &bits(&[1.0; 4])).unwrap();
    let (real_off, real_len) = read_lp(&page, slot).unwrap();
    let forged = [
        pd_lower(&page),
        pd_upper(&page) - 4,
        (PAGE_SIZE - 4) as u16,
    ];
    for off in forged {
        write_lp(&mut page, slot, off, real_len);
        assert!(matches!(
            entry_top_level(&page, slot, DIM).unwrap_err(),
            HnswError::Corrupted(_)
        ));
        assert!(matches!(
            publish_live(&mut page, slot, DIM).unwrap_err(),
            HnswError::Corrupted(_)
        ));
    }
    write_lp(&mut page, slot, real_off, real_len);
    assert_eq!(entry_top_level(&page, slot, DIM).unwrap(), 0);
}

#[test]
fn dir_append_is_node_id_keyed_idempotent() {
    let mut page = dir_page(0);
    dir_append(&mut page, 0, PageId(11), 0).unwrap();
    dir_append(&mut page, 1, PageId(11), 1).unwrap();
    dir_append(&mut page, 2, PageId(12), 0).unwrap();
    let before = page;
    for _ in 0..3 {
        assert_eq!(dir_append(&mut page, 1, PageId(11), 1).unwrap(), 1);
    }
    assert_eq!(page, before);
    assert!(matches!(
        dir_append(&mut page, 5, PageId(13), 0).unwrap_err(),
        HnswError::Corrupted(_)
    ));
    assert_eq!(dir_append(&mut page, 3, PageId(13), 0).unwrap(), 3);
    let mut later = dir_page(1);
    assert!(matches!(
        dir_append(&mut later, 0, PageId(11), 0).unwrap_err(),
        HnswError::Corrupted(_)
    ));
    assert_eq!(
        dir_append(&mut later, DIR_ENTRIES_PER_PAGE, PageId(20), 0).unwrap(),
        0
    );
    let mut corrupt = dir_page(0);
    corrupt[DIR_OFF_COUNT..DIR_OFF_COUNT + 4].copy_from_slice(&5000u32.to_le_bytes());
    assert!(matches!(
        dir_append(&mut corrupt, 0, PageId(11), 0).unwrap_err(),
        HnswError::Corrupted(_)
    ));
}

#[test]
fn dir_append_replay_on_a_full_page_skips_without_error() {
    let mut page = dir_page(0);
    for i in 0..DIR_ENTRIES_PER_PAGE {
        dir_append(&mut page, i, PageId(11), i as u16).unwrap();
    }
    let before = page;
    assert_eq!(
        dir_append(&mut page, DIR_ENTRIES_PER_PAGE - 1, PageId(11), 812).unwrap(),
        DIR_ENTRIES_PER_PAGE - 1
    );
    assert_eq!(page, before);
}

#[test]
fn dir_link_is_byte_idempotent() {
    let mut page = dir_page(0);
    dir_link(&mut page, PageId(200));
    let before = page;
    for _ in 0..3 {
        dir_link(&mut page, PageId(200));
    }
    assert_eq!(page, before);
}

#[test]
fn iterators_match_the_vec_readers() {
    let mut page = node_page();
    let slot = append_node(&mut page, 7, 2, GEO, &bits(&[1.0, 2.0, 3.0, 4.0])).unwrap();
    set_neighbors(&mut page, slot, GEO, 0, &[1, 5, 9]).unwrap();
    set_neighbors(&mut page, slot, GEO, 2, &[3, 7]).unwrap();
    let mut it = neighbor_iter(&page, slot, GEO, 0).unwrap();
    assert_eq!(it.len(), 3);
    let mut drained = Vec::new();
    while let Some(id) = it.next() {
        drained.push(id);
    }
    assert_eq!(drained, vec![1, 5, 9]);
    assert_eq!(it.len(), 0);
    assert_eq!(it.next(), None);
    assert_eq!(
        neighbor_iter(&page, slot, GEO, 2)
            .unwrap()
            .collect(),
        vec![3, 7]
    );
    assert_eq!(neighbor_iter(&page, slot, GEO, 1).unwrap().collect().len(), 0);
    let v: Vec<u32> = vector_iter(&page, slot, DIM).unwrap().collect();
    assert_eq!(v, bits(&[1.0, 2.0, 3.0, 4.0]));
    assert_eq!(entry_neighbors(&page, slot, GEO, 0).unwrap(), vec![1, 5, 9]);
    assert!(matches!(
        neighbor_iter(&page, slot, GEO, 3).unwrap_err(),
        HnswError::Corrupted(_)
    ));
    assert!(matches!(
        vector_iter(&page, slot, 30).unwrap_err(),
        HnswError::Corrupted(_)
    ));
}
