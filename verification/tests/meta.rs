//! The meta page and what a caller expects of it.

use pg_am_hnsw::meta::{
    check_expected, read_meta, write_meta, MetaParams, META_OFF_DIM, META_OFF_DIR_HEAD,
    META_OFF_EF_CONSTRUCTION, META_OFF_EF_SEARCH_DEFAULT, META_OFF_ENTRY_POINT,
    META_OFF_FORMAT_VERSION, META_OFF_M, META_OFF_MAX_LEVEL, META_OFF_METRIC, META_OFF_M_MAX0,
    META_OFF_RESERVED, META_OFF_SELECTION, META_OFF_SNAPSHOT_FORMAT_VERSION,
};
use pg_am_hnsw::node::check_creation_geometry;
use pg_am_hnsw::page::{init_meta_page, init_node_page};
use pg_am_hnsw::storage::{PageId, PAGE_SIZE};
use pg_am_hnsw::{ExpectedParams, HnswError, Metric, NeighborSelection, NodeId};

fn sample() -> MetaParams {
    MetaParams {
        entry_point: 7,
        max_level: 2,
        metric: Metric::L2,
        selection: NeighborSelection::Heuristic,
        dim: 128,
        m: 16,
        m_max0: 32,
        ef_construction: 200,
        ef_search_default: 64,
        rng_seed: 0xDEAD_BEEF_1234_5678,
        dir_head: PageId(7),
    }
}

fn expected_of(p: &MetaParams) -> ExpectedParams {
    ExpectedParams {
        dim: p.dim,
        m: p.m,
        m_max0: p.m_max0,
        ef_construction: p.ef_construction,
        ef_search_default: p.ef_search_default,
        metric: p.metric,
        selection: p.selection,
    }
}

#[test]
fn write_read_roundtrip_all_fields() {
    let mut page = [0u8; PAGE_SIZE];
    init_meta_page(&mut page);
    let p = sample();
    write_meta(&mut page, &p);
    let got = read_meta(&page).unwrap();
    assert_eq!(got, p);
    assert_eq!(
        u32::from_le_bytes(page[32..36].try_into().unwrap()),
        p.entry_point
    );
    assert_eq!(page[36], p.max_level);
    let mut page = [0u8; PAGE_SIZE];
    init_meta_page(&mut page);
    let p = MetaParams {
        entry_point: NodeId::invalid().0,
        max_level: 0,
        ..sample()
    };
    write_meta(&mut page, &p);
    assert_eq!(read_meta(&page).unwrap(), p);
}

#[test]
fn read_meta_rejects_each_structural_defect() {
    let mut page = [0u8; PAGE_SIZE];
    init_node_page(&mut page);
    assert!(read_meta(&page).is_err());

    let p = sample();
    let defect = |mutate: &dyn Fn(&mut [u8; PAGE_SIZE])| {
        let mut page = [0u8; PAGE_SIZE];
        init_meta_page(&mut page);
        write_meta(&mut page, &p);
        mutate(&mut page);
        read_meta(&page)
    };
    assert!(defect(&|pg: &mut [u8; PAGE_SIZE]| pg[META_OFF_FORMAT_VERSION] = 2).is_err());
    assert!(defect(&|pg: &mut [u8; PAGE_SIZE]| pg[META_OFF_METRIC] = 9).is_err());
    assert!(defect(&|pg: &mut [u8; PAGE_SIZE]| pg[META_OFF_SELECTION] = 9).is_err());
    assert!(defect(
        &|pg: &mut [u8; PAGE_SIZE]| pg[META_OFF_DIM..META_OFF_DIM + 2]
            .copy_from_slice(&0u16.to_le_bytes())
    )
    .is_err());
    assert!(
        defect(&|pg: &mut [u8; PAGE_SIZE]| pg[META_OFF_M..META_OFF_M + 2]
            .copy_from_slice(&1u16.to_le_bytes()))
        .is_err()
    );
    assert!(defect(
        &|pg: &mut [u8; PAGE_SIZE]| pg[META_OFF_M_MAX0..META_OFF_M_MAX0 + 2]
            .copy_from_slice(&15u16.to_le_bytes())
    )
    .is_err());
    assert!(defect(&|pg: &mut [u8; PAGE_SIZE]| pg
        [META_OFF_EF_CONSTRUCTION..META_OFF_EF_CONSTRUCTION + 4]
        .copy_from_slice(&15u32.to_le_bytes()))
    .is_err());
    assert!(defect(
        &|pg: &mut [u8; PAGE_SIZE]| pg[META_OFF_DIM..META_OFF_DIM + 2]
            .copy_from_slice(&1792u16.to_le_bytes())
    )
    .is_err());
    assert!(defect(
        &|pg: &mut [u8; PAGE_SIZE]| pg[META_OFF_RESERVED..META_OFF_RESERVED + 2]
            .copy_from_slice(&1u16.to_le_bytes())
    )
    .is_err());
    assert!(defect(
        &|pg: &mut [u8; PAGE_SIZE]| pg[META_OFF_DIR_HEAD..META_OFF_DIR_HEAD + 8]
            .copy_from_slice(&PageId::invalid().0.to_le_bytes())
    )
    .is_err());
    assert!(defect(&|pg: &mut [u8; PAGE_SIZE]| pg
        [META_OFF_SNAPSHOT_FORMAT_VERSION..META_OFF_SNAPSHOT_FORMAT_VERSION + 2]
        .copy_from_slice(&0u16.to_le_bytes()))
    .is_err());
    assert!(defect(&|pg: &mut [u8; PAGE_SIZE]| pg
        [META_OFF_EF_SEARCH_DEFAULT..META_OFF_EF_SEARCH_DEFAULT + 4]
        .copy_from_slice(&1u32.to_le_bytes()))
    .is_err());
    assert!(defect(&|pg: &mut [u8; PAGE_SIZE]| pg[META_OFF_MAX_LEVEL] = 200).is_err());
    assert!(defect(&|pg: &mut [u8; PAGE_SIZE]| pg[META_OFF_MAX_LEVEL] = 14).is_err());
    let mut page = [0u8; PAGE_SIZE];
    init_meta_page(&mut page);
    let p = MetaParams {
        max_level: 13,
        ..sample()
    };
    write_meta(&mut page, &p);
    assert_eq!(read_meta(&page).unwrap(), p);
    assert!(defect(&|pg: &mut [u8; PAGE_SIZE]| {
        pg[META_OFF_ENTRY_POINT..META_OFF_ENTRY_POINT + 4]
            .copy_from_slice(&u32::MAX.to_le_bytes());
        pg[META_OFF_MAX_LEVEL] = 5;
    })
    .is_err());
}

#[test]
fn check_expected_hard_mismatches_and_ef_warn() {
    let p = sample();
    assert!(check_expected(&p, &expected_of(&p)).unwrap().is_empty());
    let mut e = expected_of(&p);
    e.dim = 64;
    assert!(matches!(
        check_expected(&p, &e),
        Err(HnswError::InvalidArgument(_))
    ));
    let mut e = expected_of(&p);
    e.m = 8;
    assert!(matches!(
        check_expected(&p, &e),
        Err(HnswError::InvalidArgument(_))
    ));
    let mut e = expected_of(&p);
    e.m_max0 = 16;
    assert!(matches!(
        check_expected(&p, &e),
        Err(HnswError::InvalidArgument(_))
    ));
    let mut e = expected_of(&p);
    e.ef_construction = 100;
    assert!(matches!(
        check_expected(&p, &e),
        Err(HnswError::InvalidArgument(_))
    ));
    let mut e = expected_of(&p);
    e.metric = Metric::Cosine;
    assert!(matches!(
        check_expected(&p, &e),
        Err(HnswError::InvalidArgument(_))
    ));
    let mut e = expected_of(&p);
    e.selection = NeighborSelection::Simple;
    assert!(matches!(
        check_expected(&p, &e),
        Err(HnswError::InvalidArgument(_))
    ));
    let mut e = expected_of(&p);
    e.ef_search_default = 128;
    let warnings = check_expected(&p, &e).unwrap();
    assert_eq!(warnings.len(), 1);
    assert!(warnings[0].contains("ef_search_default"), "{}", warnings[0]);
}

#[test]
fn stored_geometry_that_does_not_fit_is_corruption() {
    let p = MetaParams {
        dim: 1792,
        rng_seed: 1,
        ..sample()
    };
    assert!(matches!(
        check_creation_geometry(p.dim, p.m, p.m_max0),
        Err(HnswError::InvalidArgument(_))
    ));
    let mut page = [0u8; PAGE_SIZE];
    init_meta_page(&mut page);
    write_meta(&mut page, &p);
    let err = read_meta(&page).unwrap_err();
    assert!(matches!(err, HnswError::Corrupted(_)), "{}", err.to_string());

    let fits = MetaParams { dim: 128, ..p };
    write_meta(&mut page, &fits);
    assert_eq!(read_meta(&page).unwrap(), fits);
}
