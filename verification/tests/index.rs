//! Creating, opening, filling, searching and auditing an index on its pages.

use pg_am_hnsw::apply::{
    append_node, apply_meta, dir_append, entry_is_live, entry_top_level, neighbor_iter,
    publish_live, set_neighbors,
};
use pg_am_hnsw::dir::check_dir_chain;
use pg_am_hnsw::index::{create, open, take_hits, GraphSearch, LayerHits};
use pg_am_hnsw::model::{Cand, ProbeMark};
use pg_am_hnsw::node::NodeGeometry;
use pg_am_hnsw::page::{init_node_page, log_page_init};
use pg_am_hnsw::paged::PagedGraph;
use pg_am_hnsw::redo::{hnsw_redo_handlers, WalRecordType};
use pg_am_hnsw::rng::Xoshiro256StarStar;
use pg_am_hnsw::storage::{
    page_pd_lsn, set_page_pd_lsn, Lsn, PageId, PageStore, Payload, WalLog, WalPayload, PAGE_SIZE,
};
use pg_am_hnsw::{
    ExpectedParams, HnswError, HnswIndex, HnswParams, Metric, NeighborSelection, NodeId,
};
use pg_am_hnsw::text::render;
use std::collections::BTreeSet;

const DIM: u16 = 128;
const SEED: u64 = 0x5EED;
const GEO: NodeGeometry = NodeGeometry {
    dim: DIM,
    m: 16,
    m_max0: 32,
};

fn bits(v: &[f32]) -> Vec<u32> {
    v.iter().map(|x| x.to_bits()).collect()
}

fn fill(x: f32) -> Vec<u32> {
    vec![x.to_bits(); DIM as usize]
}

fn make_expected() -> ExpectedParams {
    ExpectedParams {
        dim: DIM,
        m: 16,
        m_max0: 32,
        ef_construction: 200,
        ef_search_default: 64,
        metric: Metric::L2,
        selection: NeighborSelection::Heuristic,
    }
}

fn det_vectors(seed: u64, n: usize, dim: usize) -> Vec<Vec<u32>> {
    let mut rng = Xoshiro256StarStar::new(seed);
    (0..n)
        .map(|_| {
            (0..dim)
                .map(|_| ((rng.next_u64() % 4096) as f32 / 64.0).to_bits())
                .collect()
        })
        .collect()
}

// ---- A beam search over the stored vectors. ----

fn distance(metric: Metric, a: &[u32], b: &[u32]) -> f64 {
    let pairs = || {
        a.iter()
            .zip(b)
            .map(|(x, y)| (f64::from(f32::from_bits(*x)), f64::from(f32::from_bits(*y))))
    };
    match metric {
        Metric::L2 => pairs().map(|(x, y)| (x - y) * (x - y)).sum(),
        Metric::InnerProduct => -pairs().map(|(x, y)| x * y).sum::<f64>(),
        Metric::Cosine => {
            let (mut ab, mut aa, mut bb) = (0.0, 0.0, 0.0);
            for (x, y) in pairs() {
                ab += x * y;
                aa += x * x;
                bb += y * y;
            }
            1.0 - ab / (f64::sqrt(aa) * f64::sqrt(bb))
        }
    }
}

fn sort_cands(v: &mut [Cand]) {
    v.sort_by(|a, b| {
        f64::from_bits(a.dist)
            .total_cmp(&f64::from_bits(b.dist))
            .then(a.id.cmp(&b.id))
    });
}

struct Beam;

impl GraphSearch for Beam {
    fn search_layer(
        &self,
        g: &PagedGraph,
        query: &[u32],
        entry: NodeId,
        ef: usize,
        level: u8,
    ) -> LayerHits {
        let cand = |id: NodeId| Cand {
            dist: distance(g.metric(), query, &g.vector(id).unwrap()).to_bits(),
            id,
        };
        let mut seen = BTreeSet::from([entry]);
        let mut found = vec![cand(entry)];
        let mut open = found.clone();
        while let Some(c) = open.pop() {
            if found.len() >= ef
                && f64::from_bits(c.dist) > f64::from_bits(found[found.len() - 1].dist)
            {
                break;
            }
            for n in g.neighbors(c.id, level).unwrap() {
                if seen.insert(NodeId(n)) {
                    open.push(cand(NodeId(n)));
                    found.push(cand(NodeId(n)));
                }
            }
            sort_cands(&mut found);
            found.truncate(ef);
            sort_cands(&mut open);
            open.reverse();
        }
        LayerHits {
            nearest: found[0],
            others: found[1..].to_vec(),
        }
    }

    fn select_neighbors(
        &self,
        _g: &PagedGraph,
        _selection: NeighborSelection,
        cands: &Vec<Cand>,
        m: usize,
    ) -> Vec<u32> {
        let mut v = cands.clone();
        sort_cands(&mut v);
        v.truncate(m);
        let mut ids: Vec<u32> = v.iter().map(|c| c.id.0).collect();
        ids.sort();
        ids
    }

    fn dist_between(&self, g: &PagedGraph, a: NodeId, b: NodeId) -> u64 {
        distance(g.metric(), &g.vector(a).unwrap(), &g.vector(b).unwrap()).to_bits()
    }
}

// ---- Pages and logs. ----

fn fresh() -> (PageStore, WalLog, HnswIndex) {
    let mut store = PageStore::new();
    let mut log = WalLog::new();
    let index = create(
        &mut store,
        &mut log,
        HnswParams::default(),
        DIM,
        Metric::L2,
        NeighborSelection::Heuristic,
        SEED,
    )
    .unwrap();
    (store, log, index)
}

fn small(metric: Metric, seed: u64) -> (PageStore, WalLog, HnswIndex) {
    let mut store = PageStore::new();
    let mut log = WalLog::new();
    let index = create(
        &mut store,
        &mut log,
        HnswParams::new(4, 8, 16, 4).unwrap(),
        4,
        metric,
        NeighborSelection::Heuristic,
        seed,
    )
    .unwrap();
    (store, log, index)
}

fn node_page(store: &mut PageStore, log: &mut WalLog) -> PageId {
    let mut page = [0u8; PAGE_SIZE];
    init_node_page(&mut page);
    let id = store.allocate(page).unwrap();
    log_page_init(log, id, &mut page).unwrap();
    store.put(id, page);
    id
}

/// Changes a page behind the index's back, and logs its image.
fn edit(
    store: &mut PageStore,
    log: &mut WalLog,
    id: PageId,
    f: impl FnOnce(&mut [u8; PAGE_SIZE]),
) {
    let mut page = store.pin(id).unwrap();
    f(&mut page);
    let lsn = log
        .append(Payload::FullPageImage {
            page_id: id,
            image: page.to_vec(),
        })
        .unwrap();
    set_page_pd_lsn(&mut page, lsn);
    store.put(id, page);
}

/// An index with one entry of top level `top` in its directory and no entry
/// point.
fn unpublished(top: u8, flags: Option<u16>) -> (PageStore, WalLog, PageId) {
    let (mut store, mut log, index) = fresh();
    let node = node_page(&mut store, &mut log);
    edit(&mut store, &mut log, node, |page| {
        append_node(page, 0, top, GEO, &fill(1.0)).unwrap();
        if let Some(flags) = flags {
            page[12..14].copy_from_slice(&flags.to_le_bytes());
        }
    });
    edit(&mut store, &mut log, index.dir_head(), |page| {
        dir_append(page, 0, node, 0).unwrap();
    });
    (recover(&log), log, index.meta_page_id())
}

fn kind(p: &WalPayload) -> WalRecordType {
    match p {
        Payload::FullPageImage { .. } => WalRecordType::FullPageImage,
        Payload::NodeInit { .. } => WalRecordType::HnswNodeInit,
        Payload::SetNeighbors { .. } => WalRecordType::HnswSetNeighbors,
        Payload::MetaUpdate { .. } => WalRecordType::HnswMetaUpdate,
        Payload::NodeTombstone { .. } => WalRecordType::HnswNodeTombstone,
        Payload::DirAppend { .. } => WalRecordType::HnswDirAppend,
        Payload::DirLink { .. } => WalRecordType::HnswDirLink,
        Payload::PublishLive { .. } => WalRecordType::HnswPublishLive,
    }
}

/// The page that a record changes.
fn target(p: &WalPayload) -> PageId {
    match p {
        Payload::FullPageImage { page_id, .. }
        | Payload::NodeInit { page_id, .. }
        | Payload::SetNeighbors { page_id, .. }
        | Payload::NodeTombstone { page_id, .. }
        | Payload::PublishLive { page_id, .. } => *page_id,
        Payload::MetaUpdate { meta_page_id, .. } => *meta_page_id,
        Payload::DirAppend { dir_tail_page, .. } => *dir_tail_page,
        Payload::DirLink { old_tail_page, .. } => *old_tail_page,
    }
}

/// The pages after a crash that lost all of them: the log from its start,
/// with the images that stand between its records.
fn recover(log: &WalLog) -> PageStore {
    let mut store = PageStore::new();
    let handlers = hnsw_redo_handlers();
    for record in log.records() {
        for ahead in log.pre_images() {
            if ahead.lsn.0 + 1 == record.lsn.0 {
                let mut page = [0u8; PAGE_SIZE];
                page.copy_from_slice(&ahead.image);
                assert_eq!(page, store.pin(ahead.page_id).unwrap());
                set_page_pd_lsn(&mut page, ahead.lsn);
                store.put(ahead.page_id, page);
            }
        }
        match &record.payload {
            Payload::FullPageImage { page_id, image } => {
                let mut page = [0u8; PAGE_SIZE];
                page.copy_from_slice(image);
                set_page_pd_lsn(&mut page, record.lsn);
                while store.len() <= page_id.0 {
                    store.allocate([0u8; PAGE_SIZE]).unwrap();
                }
                store.put(*page_id, page);
            }
            payload => {
                let handler = handlers.iter().find(|h| h.kind() == kind(payload)).unwrap();
                handler.apply(record, &mut store).unwrap();
            }
        }
    }
    store
}

fn same_pages(a: &PageStore, b: &PageStore) {
    assert_eq!(a.len(), b.len());
    for id in 0..a.len() {
        assert_eq!(a.pin(PageId(id)).unwrap(), b.pin(PageId(id)).unwrap(), "page {id}");
    }
}

fn dir_pages(store: &PageStore, index: &HnswIndex) -> Vec<PageId> {
    check_dir_chain(index.dir_head(), store, "test").unwrap().pages
}

fn paged<'a>(store: &'a PageStore, index: &HnswIndex, pages: &'a Vec<PageId>) -> PagedGraph<'a> {
    let q = index.params();
    PagedGraph::new(store, pages, index.hwm(), q.dim, q.m, q.m_max0, q.metric)
}

/// Every node's top level and neighbor lists.
fn topology(store: &PageStore, index: &HnswIndex) -> Vec<(u8, Vec<Vec<u32>>)> {
    let pages = dir_pages(store, index);
    let g = paged(store, index, &pages);
    let geo = g.geometry();
    (0..index.hwm())
        .map(|i| {
            let (page_id, slot) = g.resolve(NodeId(i as u32)).unwrap();
            let page = store.pin(page_id).unwrap();
            let top = entry_top_level(&page, slot, geo.dim).unwrap();
            let lists = (0..=top)
                .map(|l| neighbor_iter(&page, slot, geo, l).unwrap().collect())
                .collect();
            (top, lists)
        })
        .collect()
}

// ---- Opening. ----

#[test]
fn open_repairs_entry_point_and_skips_ahead() {
    let (mut store, mut log, meta) = unpublished(3, None);
    let mut outcome = open(&mut store, &mut log, meta, &make_expected()).unwrap();
    assert_eq!(outcome.index.entry_point(), 0);
    assert_eq!(outcome.index.max_level(), 3);
    assert_eq!(outcome.index.hwm(), 1);

    let mut reference = Xoshiro256StarStar::new(SEED);
    let _ = reference.next_level(16);
    assert_eq!(outcome.index.next_level(), reference.next_level(16));

    let before = store.pin(meta).unwrap();
    let records = log.records().len();
    let outcome2 = open(&mut store, &mut log, meta, &make_expected()).unwrap();
    assert_eq!(outcome2.index.entry_point(), 0);
    assert_eq!(outcome2.index.max_level(), 3);
    assert_eq!(before, store.pin(meta).unwrap());
    assert_eq!(records, log.records().len());

    let found = log.records().iter().any(|r| {
        matches!(
            r.payload,
            Payload::MetaUpdate { meta_page_id, entry_point: 0, max_level: 3 } if meta_page_id == meta
        )
    });
    assert!(found);
}

#[test]
fn open_rejects_entry_point_beyond_hwm() {
    let (mut store, mut log, index) = fresh();
    edit(&mut store, &mut log, index.meta_page_id(), |page| {
        apply_meta(page, 100, 0)
    });
    let Err(err) = open(&mut store, &mut log, index.meta_page_id(), &make_expected()) else {
        panic!("an entry point beyond the high-water mark must be rejected");
    };
    assert!(err.to_string().contains("high-water mark"), "{}", err.to_string());
}

#[test]
fn open_repair_rejects_a_non_node_target_page() {
    let (mut store, mut log, meta) = unpublished(3, Some(7));
    let Err(err) = open(&mut store, &mut log, meta, &make_expected()) else {
        panic!("a page of another type must be rejected");
    };
    assert!(err.to_string().contains("not a node page"), "{}", err.to_string());
}

#[test]
fn open_repair_emits_fpi_before_meta_update() {
    let (mut store, mut log, meta) = unpublished(3, None);
    let before = store.pin(meta).unwrap();
    let checkpoint_lsn = log.publish_checkpoint().unwrap();
    let outcome = open(&mut store, &mut log, meta, &make_expected()).unwrap();
    assert_eq!(outcome.index.entry_point(), 0);
    assert_eq!(outcome.index.max_level(), 3);

    let mut mu_lsn = None;
    let mut fpi_lsns: Vec<Lsn> = log
        .pre_images()
        .iter()
        .map(|image| image.lsn)
        .filter(|lsn| *lsn > checkpoint_lsn)
        .collect();
    for record in log.records().iter().filter(|r| r.lsn > checkpoint_lsn) {
        match &record.payload {
            Payload::MetaUpdate {
                meta_page_id,
                entry_point,
                max_level,
            } => {
                assert_eq!(*meta_page_id, meta);
                assert_eq!(*entry_point, 0);
                assert_eq!(*max_level, 3);
                mu_lsn = Some(record.lsn);
            }
            Payload::FullPageImage { .. } => fpi_lsns.push(record.lsn),
            _ => {}
        }
    }
    let mu_lsn = mu_lsn.expect("the repair must append its HnswMetaUpdate");
    assert!(
        !fpi_lsns.is_empty(),
        "a pre-image FPI must be due for the meta page (checkpoint published before open)"
    );
    for fpi_lsn in &fpi_lsns {
        assert!(*fpi_lsn < mu_lsn);
    }
    assert_eq!(page_pd_lsn(&store.pin(meta).unwrap()), mu_lsn);

    assert_eq!(log.pre_images().len(), 1);
    assert_eq!(log.pre_images()[0].page_id, meta);
    assert_eq!(log.pre_images()[0].image[..], before[..]);
    same_pages(&store, &recover(&log));
}

#[test]
fn a_repair_logs_one_record_and_is_done_once() {
    let (mut store, mut log, meta) = unpublished(3, None);
    let count = log.records().len();
    let outcome = open(&mut store, &mut log, meta, &make_expected()).unwrap();
    assert_eq!(outcome.index.entry_point(), 0);
    assert_eq!(outcome.index.max_level(), 3);
    assert_eq!(log.records().len(), count + 1);
    assert_eq!(
        kind(&log.records()[count].payload),
        WalRecordType::HnswMetaUpdate
    );
    assert!(log.pre_images().is_empty());
    let page = store.pin(meta).unwrap();

    let again = open(&mut store, &mut log, meta, &make_expected()).unwrap();
    assert_eq!(again.index.params(), outcome.index.params());
    assert_eq!(again.index.hwm(), outcome.index.hwm());
    assert_eq!(log.records().len(), count + 1);
    assert_eq!(store.pin(meta).unwrap(), page);
}

#[test]
fn a_page_owes_one_image_after_a_checkpoint() {
    let (mut store, mut log, mut index) = small(Metric::L2, 3);
    for v in det_vectors(5, 6, 4) {
        index.insert(&mut store, &mut log, &Beam, &v).unwrap();
    }
    assert!(log.pre_images().is_empty());
    let checkpoint = log.publish_checkpoint().unwrap();
    let pages: Vec<[u8; PAGE_SIZE]> = (0..store.len())
        .map(|i| store.pin(PageId(i)).unwrap())
        .collect();
    for v in det_vectors(6, 6, 4) {
        index.insert(&mut store, &mut log, &Beam, &v).unwrap();
    }
    let mut seen = BTreeSet::new();
    let mut last = checkpoint;
    assert!(!log.pre_images().is_empty());
    for image in log.pre_images() {
        assert!(seen.insert(image.page_id), "one image for each page");
        assert!(image.lsn > last);
        last = image.lsn;
        assert_eq!(image.image[..], pages[image.page_id.0 as usize][..]);
        let record = log.records().iter().find(|r| r.lsn > image.lsn).unwrap();
        assert_eq!(record.lsn.0, image.lsn.0 + 1);
        assert_eq!(target(&record.payload), image.page_id);
    }
    for record in log.records().iter().filter(|r| r.lsn > checkpoint) {
        let whole = |lsn: Lsn| checkpoint < lsn && lsn <= record.lsn;
        let id = target(&record.payload);
        assert!(
            log.pre_images()
                .iter()
                .any(|i| i.page_id == id && whole(i.lsn))
                || log.records().iter().any(|r| {
                    kind(&r.payload) == WalRecordType::FullPageImage
                        && target(&r.payload) == id
                        && whole(r.lsn)
                })
        );
    }
    same_pages(&store, &recover(&log));
}

#[test]
fn open_repair_rejects_top_level_beyond_l_max() {
    let (mut store, mut log, meta) = unpublished(14, None);
    let Err(err) = open(&mut store, &mut log, meta, &make_expected()) else {
        panic!("a top level that no draw gives must be rejected");
    };
    assert!(err.to_string().contains("l_max"), "{}", err.to_string());
}

#[test]
fn open_gives_back_what_create_gave() {
    let (mut store, mut log, index) = fresh();
    let outcome = open(&mut store, &mut log, index.meta_page_id(), &make_expected()).unwrap();
    assert!(outcome.warnings.is_empty());
    assert_eq!(outcome.index.params(), index.params());
    assert_eq!(outcome.index.dir_head(), index.dir_head());
    assert_eq!(outcome.index.hwm(), 0);

    let other = ExpectedParams {
        ef_search_default: 128,
        ..make_expected()
    };
    let outcome = open(&mut store, &mut log, index.meta_page_id(), &other).unwrap();
    assert_eq!(outcome.warnings.len(), 1);
    assert_eq!(outcome.index.params().ef_search_default, 64);

    let wrong = ExpectedParams {
        dim: 64,
        ..make_expected()
    };
    assert!(matches!(
        open(&mut store, &mut log, index.meta_page_id(), &wrong),
        Err(HnswError::InvalidArgument(_))
    ));
}

// ---- Insertion. ----

#[test]
fn first_insert_state_and_wal_order() {
    let (mut store, mut log, mut index) = fresh();
    let id = index.insert(&mut store, &mut log, &Beam, &fill(1.0)).unwrap();
    assert_eq!(id, NodeId(0));
    assert_eq!(index.hwm(), 1);
    assert_eq!(index.entry_point(), 0);

    let pages = dir_pages(&store, &index);
    let (node, slot) = paged(&store, &index, &pages).resolve(NodeId(0)).unwrap();
    let page = store.pin(node).unwrap();
    assert!(entry_is_live(&page, slot, DIM).unwrap());
    assert_eq!(entry_top_level(&page, slot, DIM).unwrap(), index.max_level());

    let seq: Vec<(Lsn, WalRecordType)> = log
        .records()
        .iter()
        .map(|r| (r.lsn, kind(&r.payload)))
        .filter(|(_, k)| *k != WalRecordType::FullPageImage)
        .collect();
    let kinds: Vec<WalRecordType> = seq.iter().map(|(_, k)| *k).collect();
    assert_eq!(
        kinds,
        vec![
            WalRecordType::HnswNodeInit,
            WalRecordType::HnswDirAppend,
            WalRecordType::HnswMetaUpdate,
            WalRecordType::HnswPublishLive,
        ]
    );
    assert!(seq.windows(2).all(|w| w[0].0 < w[1].0));
}

#[test]
fn insert_overflows_node_and_directory_pages() {
    let mut store = PageStore::new();
    let mut log = WalLog::new();
    let mut index = create(
        &mut store,
        &mut log,
        HnswParams::new(2, 2, 4, 2).unwrap(),
        1,
        Metric::L2,
        NeighborSelection::Heuristic,
        0xBEEF,
    )
    .unwrap();
    for (i, v) in det_vectors(0xFACE, 900, 1).iter().enumerate() {
        let id = index.insert(&mut store, &mut log, &Beam, v).unwrap();
        assert_eq!(id, NodeId(i as u32));
    }
    assert_eq!(index.hwm(), 900);
    assert_eq!(dir_pages(&store, &index).len(), 2);
    let report = index.audit(&store).unwrap();
    assert_eq!(report.node_count, 900);
    assert_eq!(report.live_count, 900);
    same_pages(&store, &recover(&log));
}

#[test]
fn reopen_continues_the_level_stream() {
    const K: u64 = 50;
    const J: u64 = 20;
    let vectors = det_vectors(0x1234, (K + J) as usize, DIM as usize);
    let (mut store, mut log, mut index) = fresh();
    for v in &vectors[..K as usize] {
        index.insert(&mut store, &mut log, &Beam, v).unwrap();
    }
    let meta = index.meta_page_id();

    let mut store = recover(&log);
    let mut index = open(&mut store, &mut log, meta, &make_expected()).unwrap().index;
    assert_eq!(index.hwm(), K);
    for v in &vectors[K as usize..] {
        index.insert(&mut store, &mut log, &Beam, v).unwrap();
    }
    assert_eq!(index.hwm(), K + J);

    let actual: Vec<u8> = topology(&store, &index)[K as usize..]
        .iter()
        .map(|(top, _)| *top)
        .collect();
    let mut reference = Xoshiro256StarStar::new(SEED);
    for _ in 0..K {
        reference.next_level(16);
    }
    let expected: Vec<u8> = (0..J).map(|_| reference.next_level(16)).collect();
    assert_eq!(actual, expected);
}

#[test]
fn insert_rejects_bad_vectors_without_state_change() {
    let (mut store, mut log, mut index) = small(Metric::L2, 7);
    let records = log.records().len();
    assert!(matches!(
        index.insert(&mut store, &mut log, &Beam, &bits(&[1.0, 2.0])),
        Err(HnswError::InvalidArgument(_))
    ));
    assert!(matches!(
        index.insert(&mut store, &mut log, &Beam, &bits(&[f32::NAN; 4])),
        Err(HnswError::InvalidArgument(_))
    ));
    assert_eq!(index.hwm(), 0);
    assert_eq!(log.records().len(), records);

    let (mut store_c, mut log_c, mut cosine) = small(Metric::Cosine, 7);
    assert!(matches!(
        cosine.insert(&mut store_c, &mut log_c, &Beam, &bits(&[0.0; 4])),
        Err(HnswError::ZeroVector)
    ));
    assert_eq!(cosine.hwm(), 0);

    let id = index
        .insert(&mut store, &mut log, &Beam, &bits(&[1.0; 4]))
        .unwrap();
    assert_eq!(id, NodeId(0));
}

#[test]
fn the_log_replays_to_the_same_pages() {
    let (mut store, mut log, mut index) = small(Metric::L2, 0xC0FFEE);
    for v in det_vectors(0xDEC0DE, 60, 4) {
        index.insert(&mut store, &mut log, &Beam, &v).unwrap();
    }
    same_pages(&store, &recover(&log));
    let mut again = store.len();
    for record in log.records() {
        if kind(&record.payload) == WalRecordType::FullPageImage {
            again -= 1;
        }
    }
    assert_eq!(again, 0);
}

#[test]
fn an_insertion_that_stops_anywhere_opens_again() {
    let vectors = det_vectors(0xDEC0DE, 12, 4);
    for stop in 1..=8usize {
        let (mut store, mut log, mut index) = small(Metric::L2, 0xC0FFEE);
        for v in &vectors[..11] {
            index.insert(&mut store, &mut log, &Beam, v).unwrap();
        }
        index.probe_set_crash_after(Some(stop));
        let r = index.insert(&mut store, &mut log, &Beam, &vectors[11]);
        let expected = ExpectedParams {
            dim: 4,
            m: 4,
            m_max0: 8,
            ef_construction: 16,
            ef_search_default: 4,
            metric: Metric::L2,
            selection: NeighborSelection::Heuristic,
        };
        let mut back = recover(&log);
        let opened = open(&mut back, &mut log, index.meta_page_id(), &expected).unwrap();
        let report = opened.index.audit(&back).unwrap();
        if let Err(e) = r {
            assert!(matches!(e, HnswError::InvalidOperation(_)), "{}", e.to_string());
            assert!(report.live_count >= 11);
        }
        assert!(report.node_count == 11 || report.node_count == 12);
        let mut next = opened.index;
        next.insert(&mut back, &mut log, &Beam, &vectors[0]).unwrap();
        next.audit(&back).unwrap();
    }
}

#[test]
fn a_first_insertion_that_stops_anywhere_is_repaired() {
    let expected = ExpectedParams {
        dim: 4,
        m: 4,
        m_max0: 8,
        ef_construction: 16,
        ef_search_default: 4,
        metric: Metric::L2,
        selection: NeighborSelection::Heuristic,
    };
    for (stop, nodes) in [(1usize, 0u64), (2, 0), (3, 1), (4, 1), (5, 1)] {
        let (mut store, mut log, mut index) = small(Metric::L2, 0xC0FFEE);
        index.probe_set_crash_after(Some(stop));
        let r = index.insert(&mut store, &mut log, &Beam, &bits(&[1.0; 4]));
        assert!(matches!(r, Err(HnswError::InvalidOperation(_))));
        let mut back = recover(&log);
        same_pages(&store, &back);
        let opened = open(&mut back, &mut log, index.meta_page_id(), &expected).unwrap();
        assert_eq!(opened.index.hwm(), nodes);
        assert_eq!(opened.index.entry_point() == 0, nodes == 1);
        let report = opened.index.audit(&back).unwrap();
        assert_eq!(report.node_count, nodes);
        assert_eq!(report.live_count, if stop == 5 { 1 } else { 0 });
        let records = log.records().len();
        open(&mut back, &mut log, index.meta_page_id(), &expected).unwrap();
        assert_eq!(log.records().len(), records);
    }
}

#[test]
fn a_stop_names_its_mark() {
    let (mut store, mut log, mut index) = small(Metric::L2, 0xC0FFEE);
    index.probe_set_crash_after(Some(2));
    let r = index.insert(&mut store, &mut log, &Beam, &bits(&[1.0; 4]));
    assert_eq!(
        r.unwrap_err().to_string(),
        "invalid operation: crash probe: simulated crash after mark #2 (NodeInit)"
    );
    for (mark, name) in [
        (ProbeMark::OwnList { level: 3 }, "OwnList { level: 3 }"),
        (
            ProbeMark::NeighborEdge {
                level: 0,
                shrank: true,
            },
            "NeighborEdge { level: 0, shrank: true }",
        ),
    ] {
        assert_eq!(render(&mark.pieces()), name);
        assert_eq!(format!("{mark:?}"), name);
    }
}

#[test]
fn a_failed_attempt_draws_a_level() {
    for (stop, nodes) in [(2usize, 0u64), (4, 1)] {
        let (mut store, mut log, mut index) = small(Metric::L2, 0xC0FFEE);
        index.probe_set_crash_after(Some(stop));
        assert!(index.insert(&mut store, &mut log, &Beam, &bits(&[1.0; 4])).is_err());
        assert_eq!(index.hwm(), nodes);
        let mut reference = Xoshiro256StarStar::new(0xC0FFEE);
        let _ = reference.next_level(4);
        assert_eq!(index.next_level(), reference.next_level(4));
    }
}

#[test]
fn inserted_vectors_read_back() {
    let (mut store, mut log, mut index) = small(Metric::L2, 0xC0FFEE);
    let vectors = det_vectors(0xDEC0DE, 40, 4);
    for v in &vectors {
        index.insert(&mut store, &mut log, &Beam, v).unwrap();
    }
    let pages = dir_pages(&store, &index);
    let g = paged(&store, &index, &pages);
    for (i, v) in vectors.iter().enumerate() {
        assert_eq!(&g.vector(NodeId(i as u32)).unwrap(), v);
    }
    assert!(g.vector(NodeId(40)).is_err());
    let top = topology(&store, &index)[0].0;
    assert!(g.neighbors(NodeId(0), top).is_ok());
    assert!(g.neighbors(NodeId(0), top + 1).is_err());
}

#[test]
fn edges_lead_to_nodes_that_have_their_level() {
    let (mut store, mut log, mut index) = small(Metric::L2, 0xC0FFEE);
    for v in det_vectors(0xDEC0DE, 120, 4) {
        index.insert(&mut store, &mut log, &Beam, &v).unwrap();
    }
    let nodes = topology(&store, &index);
    let mut edges = 0u64;
    for (i, (_, lists)) in nodes.iter().enumerate() {
        for (level, list) in lists.iter().enumerate() {
            assert!(list.len() <= if level == 0 { 8 } else { 4 });
            assert!(list.windows(2).all(|w| w[0] < w[1]));
            for &to in list {
                assert_ne!(to as usize, i);
                assert!(nodes[to as usize].0 as usize >= level);
            }
            edges += list.len() as u64;
        }
    }
    assert_eq!(nodes[index.entry_point() as usize].0, index.max_level());
    assert_eq!(index.audit(&store).unwrap().edge_count, edges);
}

#[test]
fn marks_follow_the_steps_of_an_insertion() {
    let (mut store, mut log, mut index) = small(Metric::L2, 0xC0FFEE);
    index.probe_set_logging(true);
    index
        .insert(&mut store, &mut log, &Beam, &bits(&[1.0; 4]))
        .unwrap();
    assert_eq!(
        index.probe_marks(),
        vec![
            ProbeMark::NodePageInit,
            ProbeMark::NodeInit,
            ProbeMark::DirAppend,
            ProbeMark::MetaUpdate,
            ProbeMark::PublishLive,
        ]
    );
    index.probe_clear_marks();
    assert!(index.probe_marks().is_empty());
}

#[test]
fn audit_clean_graph() {
    let (mut store, mut log, mut index) = small(Metric::L2, 0xC0FFEE);
    for v in det_vectors(0xDEC0DE, 200, 4) {
        index.insert(&mut store, &mut log, &Beam, &v).unwrap();
    }
    let report = index.audit(&store).unwrap();
    assert_eq!(report.node_count, 200);
    assert_eq!(report.live_count, 200);
    assert_eq!(report.initializing_count, 0);
    assert_eq!(report.tombstoned_count, 0);
    assert_eq!(report.orphan_entry_count, 0);
    assert_eq!(report.hidden_high_level_count, 0);
    assert!(report.edge_count > 0);
    assert_eq!(report.entry_point, index.entry_point());
    assert_eq!(report.max_level, index.max_level());
}

// ---- Search. ----

#[test]
fn search_recalls_initializing_nodes() {
    let (mut store, mut log, index) = fresh();
    let node = node_page(&mut store, &mut log);
    edit(&mut store, &mut log, node, |page| {
        let s0 = append_node(page, 0, 0, GEO, &fill(1.0)).unwrap();
        append_node(page, 1, 0, GEO, &fill(2.0)).unwrap();
        set_neighbors(page, s0, GEO, 0, &[1]).unwrap();
        publish_live(page, s0, DIM).unwrap();
    });
    edit(&mut store, &mut log, index.dir_head(), |page| {
        dir_append(page, 0, node, 0).unwrap();
        dir_append(page, 1, node, 1).unwrap();
    });
    edit(&mut store, &mut log, index.meta_page_id(), |page| {
        apply_meta(page, 0, 0)
    });
    let meta = index.meta_page_id();

    let mut store = recover(&log);
    let index = open(&mut store, &mut log, meta, &make_expected()).unwrap().index;
    assert_eq!(index.hwm(), 2);
    let pages = dir_pages(&store, &index);
    let (npage, nslot) = paged(&store, &index, &pages).resolve(NodeId(1)).unwrap();
    assert!(!entry_is_live(&store.pin(npage).unwrap(), nslot, DIM).unwrap());

    let hits = index.search(&store, &Beam, &fill(2.0), 2, Some(10)).unwrap();
    assert_eq!(hits.len(), 2);
    assert_eq!(hits[0].id, NodeId(1));
    assert_eq!(f64::from_bits(hits[0].dist), 0.0);
    assert_eq!(hits[1].id, NodeId(0));
}

#[test]
fn search_early_exits() {
    let (mut store, mut log, mut index) = fresh();
    assert_eq!(index.search(&store, &Beam, &fill(1.0), 5, None).unwrap(), vec![]);
    assert_eq!(index.search(&store, &Beam, &fill(1.0), 5, Some(5)).unwrap(), vec![]);
    index.insert(&mut store, &mut log, &Beam, &fill(1.0)).unwrap();
    assert_eq!(index.search(&store, &Beam, &fill(1.0), 0, Some(0)).unwrap(), vec![]);
}

#[test]
fn search_errors_come_in_order() {
    let (mut store, mut log, mut index) = small(Metric::L2, 0xC0FFEE);
    for v in det_vectors(0xDEC0DE, 50, 4) {
        index.insert(&mut store, &mut log, &Beam, &v).unwrap();
    }
    let cases: Vec<(Vec<f32>, usize, Option<usize>, &str)> = vec![
        (vec![1.0, 2.0], 1, None, "components"),
        (vec![f32::NAN; 4], 1, None, "non-finite"),
        (vec![f32::INFINITY; 4], 1, None, "non-finite"),
        (vec![1.0; 4], 3, Some(2), "ef"),
        (vec![1.0, 2.0], 3, Some(2), "components"),
        (vec![f32::NAN; 4], 3, Some(2), "non-finite"),
        (vec![f32::NAN, 7.0], 3, Some(2), "components"),
    ];
    for (q, k, ef, fragment) in &cases {
        let Err(err) = index.search(&store, &Beam, &bits(q), *k, *ef) else {
            panic!("{fragment}");
        };
        assert!(matches!(err, HnswError::InvalidArgument(_)));
        assert!(err.to_string().contains(fragment), "{}", err.to_string());
    }

    let (store, _, index) = small(Metric::Cosine, 7);
    assert!(matches!(
        index.search(&store, &Beam, &bits(&[0.0; 4]), 1, None),
        Err(HnswError::ZeroVector)
    ));
}

#[test]
fn a_search_with_a_full_beam_finds_the_nearest() {
    for metric in [Metric::L2, Metric::Cosine, Metric::InnerProduct] {
        let (mut store, mut log, mut index) = small(metric, 0xC0FFEE);
        let vectors = det_vectors(0xDEC0DE, 40, 4);
        for v in &vectors {
            index.insert(&mut store, &mut log, &Beam, v).unwrap();
        }
        for q in det_vectors(0x0B5E55, 4, 4) {
            let hits = index.search(&store, &Beam, &q, 3, Some(500)).unwrap();
            assert_eq!(hits.len(), 3);
            assert!(hits
                .windows(2)
                .all(|w| f64::from_bits(w[0].dist) <= f64::from_bits(w[1].dist)));
            for hit in &hits {
                let d = distance(metric, &q, &vectors[hit.id.index()]);
                assert_eq!(d.to_bits(), hit.dist);
            }
        }
    }
}

#[test]
fn hits_are_cut_to_k() {
    let c = |id: u32| Cand {
        dist: 0,
        id: NodeId(id),
    };
    assert_eq!(take_hits(vec![c(1), c(2), c(3)], 2), vec![c(1), c(2)]);
    assert_eq!(take_hits(vec![c(1)], 2), vec![c(1)]);
    assert_eq!(take_hits(vec![c(1)], 0), vec![]);
}
