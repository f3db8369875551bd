//! The directory chain.

use pg_am_hnsw::dir::{check_dir_chain, check_hwm_node_id_space, dir_entry, DIR_ENTRIES_PER_PAGE};
use pg_am_hnsw::page::{
    init_dir_page, init_node_page, DIR_HEADER_SIZE, DIR_OFF_COUNT, DIR_OFF_NEXT,
};
use pg_am_hnsw::storage::{Page, PageId, PageStore, PAGE_HEADER_SIZE, PAGE_SIZE};

const CAP: u32 = DIR_ENTRIES_PER_PAGE;

fn dir_page(ordinal: u64, count: u32, next: PageId) -> [u8; PAGE_SIZE] {
    let mut p = [0u8; PAGE_SIZE];
    init_dir_page(&mut p, ordinal);
    p[DIR_OFF_COUNT..DIR_OFF_COUNT + 4].copy_from_slice(&count.to_le_bytes());
    p[DIR_OFF_NEXT..DIR_OFF_NEXT + 8].copy_from_slice(&next.0.to_le_bytes());
    p
}

fn store_of(pages: Vec<(PageId, Page)>) -> PageStore {
    let mut store = PageStore::new();
    let mut filler = [0u8; PAGE_SIZE];
    init_node_page(&mut filler);
    for id in 0..3u64 {
        let page = pages
            .iter()
            .find(|(at, _)| at.0 == id)
            .map_or(filler, |(_, page)| *page);
        store.allocate(page).unwrap();
    }
    store
}

#[test]
fn legal_chain_derives_hwm() {
    let pages = store_of(vec![
        (PageId(1), dir_page(0, CAP, PageId(2))),
        (PageId(2), dir_page(1, 5, PageId::invalid())),
    ]);
    let info = check_dir_chain(PageId(1), &pages, "test").unwrap();
    assert_eq!(info.page_count, 2);
    assert_eq!(info.hwm, u64::from(CAP) + 5);
    assert_eq!(info.hwm, 813 + 5);
}

#[test]
fn single_empty_head_is_hwm_zero() {
    let pages = store_of(vec![(PageId(1), dir_page(0, 0, PageId::invalid()))]);
    let info = check_dir_chain(PageId(1), &pages, "test").unwrap();
    assert_eq!(info.page_count, 1);
    assert_eq!(info.hwm, 0);
}

#[test]
fn chain_defects_are_loud() {
    let pages = store_of(vec![(PageId(1), dir_page(1, 0, PageId::invalid()))]);
    assert!(check_dir_chain(PageId(1), &pages, "test").is_err());

    let pages = store_of(vec![
        (PageId(1), dir_page(0, CAP - 1, PageId(2))),
        (PageId(2), dir_page(1, 0, PageId::invalid())),
    ]);
    assert!(check_dir_chain(PageId(1), &pages, "test").is_err());

    let pages = store_of(vec![
        (PageId(1), dir_page(0, CAP, PageId(2))),
        (PageId(2), dir_page(1, CAP, PageId(1))),
    ]);
    assert!(check_dir_chain(PageId(1), &pages, "test").is_err());

    let pages = store_of(vec![(PageId(1), dir_page(0, CAP, PageId(1)))]);
    assert!(check_dir_chain(PageId(1), &pages, "test").is_err());

    let pages = store_of(vec![(PageId(1), dir_page(0, CAP + 1, PageId::invalid()))]);
    assert!(check_dir_chain(PageId(1), &pages, "test").is_err());

    let mut node = [0u8; PAGE_SIZE];
    init_node_page(&mut node);
    let pages = store_of(vec![(PageId(1), node)]);
    assert!(check_dir_chain(PageId(1), &pages, "test").is_err());

    let pages = store_of(vec![(PageId(1), dir_page(0, CAP, PageId(99)))]);
    assert!(check_dir_chain(PageId(1), &pages, "test").is_err());

    let pages = store_of(vec![(PageId(1), dir_page(0, 0, PageId::invalid()))]);
    assert!(check_dir_chain(PageId::invalid(), &pages, "test").is_err());
}

#[test]
fn hwm_node_id_space_guard_boundary() {
    check_hwm_node_id_space(u64::from(u32::MAX)).unwrap();
    assert!(check_hwm_node_id_space(u64::from(u32::MAX) + 1).is_err());
}

#[test]
fn dir_entry_clamps_corrupt_count() {
    let mut page = dir_page(0, CAP + 1, PageId::invalid());
    assert!(dir_entry(&page, CAP).is_err(), "count > capacity is loud");
    page[DIR_OFF_COUNT..DIR_OFF_COUNT + 4].copy_from_slice(&1u32.to_le_bytes());
    assert!(dir_entry(&page, 1).is_err());
    let mut page = dir_page(0, 1, PageId::invalid());
    let off = PAGE_HEADER_SIZE + DIR_HEADER_SIZE;
    page[off..off + 8].copy_from_slice(&42u64.to_le_bytes());
    page[off + 8..off + 10].copy_from_slice(&7u16.to_le_bytes());
    assert_eq!(dir_entry(&page, 0).unwrap(), (PageId(42), 7));
}
