//! Page initialization and the log's first record of a page.

use pg_am_hnsw::page::{
    dir_count, dir_next, dir_ordinal, init_dir_page, init_meta_page, init_node_page,
    log_page_init, page_type, DIR_FORMAT_VERSION, DIR_OFF_VERSION, PAGE_TYPE_DIR, PAGE_TYPE_META,
    PAGE_TYPE_NODE,
};
use pg_am_hnsw::storage::{page_pd_lsn, Lsn, PageId, Payload, WalLog, PAGE_SIZE};
use pg_am_hnsw::HnswError;

#[test]
fn node_and_meta_init_have_type_tags() {
    let mut page = [0u8; PAGE_SIZE];
    init_node_page(&mut page);
    assert_eq!(page_type(&page), PAGE_TYPE_NODE);
    let mut page = [0u8; PAGE_SIZE];
    init_meta_page(&mut page);
    assert_eq!(page_type(&page), PAGE_TYPE_META);
}

#[test]
fn dir_init_writes_the_self_describing_header() {
    let mut page = [0u8; PAGE_SIZE];
    init_dir_page(&mut page, 7);
    assert_eq!(page_type(&page), PAGE_TYPE_DIR);
    assert_eq!(page[DIR_OFF_VERSION], DIR_FORMAT_VERSION);
    assert_eq!(dir_ordinal(&page), 7);
    assert_eq!(dir_count(&page), 0);
    assert_eq!(dir_next(&page), PageId::invalid());
}

#[test]
fn init_overwrites_any_previous_content() {
    let mut page = [0xAB; PAGE_SIZE];
    init_dir_page(&mut page, 0);
    assert_eq!(page_type(&page), PAGE_TYPE_DIR);
    assert_eq!(dir_ordinal(&page), 0);
    assert!(page[56..].iter().all(|&b| b == 0));
}

#[test]
fn init_zero_fills_the_whole_page() {
    let mut page = [0xAB; PAGE_SIZE];
    init_dir_page(&mut page, 3);
    assert_eq!(page_type(&page), PAGE_TYPE_DIR);
    assert_eq!(dir_ordinal(&page), 3);
    assert_eq!(page[32], DIR_FORMAT_VERSION);
    assert!(page[56..].iter().all(|&b| b == 0));
    let mut page = [0xCD; PAGE_SIZE];
    init_node_page(&mut page);
    assert!(page[32..].iter().all(|&b| b == 0));
}

#[test]
fn a_logged_page_carries_the_record_position() {
    let mut log = WalLog::new();
    let mut page = [0u8; PAGE_SIZE];
    init_node_page(&mut page);
    let before = page;
    let lsn = log_page_init(&mut log, PageId(4), &mut page).unwrap();
    assert_eq!(page_pd_lsn(&page), lsn);
    assert_ne!(lsn, Lsn(0));
    assert_eq!(log.records().len(), 1);
    match &log.records()[0].payload {
        Payload::FullPageImage { page_id, image } => {
            assert_eq!(*page_id, PageId(4));
            assert_eq!(image[..], before[..]);
        }
        _ => panic!("a page image was expected"),
    }
}

#[test]
fn a_page_without_a_number_is_not_logged() {
    let mut log = WalLog::new();
    let mut page = [0u8; PAGE_SIZE];
    init_node_page(&mut page);
    let before = page;
    let err = log_page_init(&mut log, PageId::invalid(), &mut page).unwrap_err();
    assert!(matches!(err, HnswError::Storage { context: "FPI encode", .. }));
    assert!(log.records().is_empty());
    assert_eq!(page, before);
}
