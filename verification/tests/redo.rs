//! Replay of log records.

use pg_am_hnsw::apply::{
    entry_is_live, entry_is_tombstoned, entry_neighbors, entry_top_level, entry_vector,
};
use pg_am_hnsw::dir::{dir_entry, DIR_ENTRIES_PER_PAGE};
use pg_am_hnsw::index::create;
use pg_am_hnsw::meta::read_meta;
use pg_am_hnsw::node::NodeGeometry;
use pg_am_hnsw::page::{
    dir_count, dir_next, init_dir_page, init_node_page, log_page_init, DIR_OFF_COUNT,
};
use pg_am_hnsw::redo::{hnsw_redo_handlers, StorageError, WalRecordType};
use pg_am_hnsw::storage::{
    set_page_pd_lsn, Lsn, PageId, PageStore, Payload, TxnId, WalLog, WalPayload, WalRecord,
    PAGE_SIZE,
};
use pg_am_hnsw::{HnswParams, Metric, NeighborSelection};

const DIM: u16 = 128;
const SEED: u64 = 0x5EED;
const GEO: NodeGeometry = NodeGeometry {
    dim: DIM,
    m: 16,
    m_max0: 32,
};

fn ones(n: usize) -> Vec<u32> {
    vec![1.0f32.to_bits(); n]
}

/// A fresh index and one node page: its pages, its log, and where the meta
/// page, the directory head and the node page are.
fn create_env() -> (PageStore, WalLog, PageId, PageId, PageId) {
    let mut store = PageStore::new();
    let mut log = WalLog::new();
    let index = create(
        &mut store,
        &mut log,
        HnswParams::default(),
        DIM,
        Metric::L2,
        NeighborSelection::Heuristic,
        SEED,
    )
    .unwrap();
    let node = new_page(&mut store, &mut log, init_node_page);
    (store, log, index.meta_page_id(), index.dir_head(), node)
}

fn new_page(store: &mut PageStore, log: &mut WalLog, init: impl Fn(&mut [u8; PAGE_SIZE])) -> PageId {
    let mut page = [0u8; PAGE_SIZE];
    init(&mut page);
    let id = store.allocate(page).unwrap();
    log_page_init(log, id, &mut page).unwrap();
    store.put(id, page);
    id
}

fn node_init(meta: PageId, node: PageId, slot: u16, id: u32, level: u8, dim: u16) -> WalPayload {
    Payload::NodeInit {
        meta_page_id: meta,
        page_id: node,
        slot_id: slot,
        node_id: id,
        level,
        dim,
        vector: ones(dim as usize),
    }
}

fn set_neighbors(meta: PageId, node: PageId, list: Vec<u32>) -> WalPayload {
    Payload::SetNeighbors {
        meta_page_id: meta,
        page_id: node,
        slot_id: 0,
        node_id: 0,
        level: 0,
        neighbors: list,
    }
}

fn meta_update(meta: PageId, entry_point: u32, max_level: u8) -> WalPayload {
    Payload::MetaUpdate {
        meta_page_id: meta,
        entry_point,
        max_level,
    }
}

fn tombstone(meta: PageId, node: PageId, dim: u16) -> WalPayload {
    Payload::NodeTombstone {
        meta_page_id: meta,
        page_id: node,
        slot_id: 0,
        node_id: 0,
        dim,
    }
}

fn dir_append(tail: PageId, target: PageId, slot: u16) -> WalPayload {
    Payload::DirAppend {
        dir_tail_page: tail,
        node_id: 0,
        target_page: target,
        target_slot: slot,
    }
}

fn dir_link(tail: PageId, next: PageId) -> WalPayload {
    Payload::DirLink {
        old_tail_page: tail,
        next_page: next,
    }
}

fn publish_live(meta: PageId, node: PageId, slot: u16, dim: u16) -> WalPayload {
    Payload::PublishLive {
        meta_page_id: meta,
        page_id: node,
        slot_id: slot,
        node_id: 0,
        dim,
    }
}

fn standard_five(meta: PageId, dir_head: PageId, node: PageId) -> Vec<WalPayload> {
    vec![
        node_init(meta, node, 0, 0, 1, DIM),
        dir_append(dir_head, node, 0),
        set_neighbors(meta, node, vec![2, 5, 9]),
        meta_update(meta, 0, 1),
        publish_live(meta, node, 0, DIM),
    ]
}

fn kind(p: &WalPayload) -> WalRecordType {
    match p {
        Payload::FullPageImage { .. } => WalRecordType::FullPageImage,
        Payload::NodeInit { .. } => WalRecordType::HnswNodeInit,
        Payload::SetNeighbors { .. } => WalRecordType::HnswSetNeighbors,
        Payload::MetaUpdate { .. } => WalRecordType::HnswMetaUpdate,
        Payload::NodeTombstone { .. } => WalRecordType::HnswNodeTombstone,
        Payload::DirAppend { .. } => WalRecordType::HnswDirAppend,
        Payload::DirLink { .. } => WalRecordType::HnswDirLink,
        Payload::PublishLive { .. } => WalRecordType::HnswPublishLive,
    }
}

fn replay(record: &WalRecord, store: &mut PageStore) -> Result<(), StorageError> {
    let wanted = kind(&record.payload);
    for handler in hnsw_redo_handlers() {
        if handler.kind() == wanted {
            return handler.apply(record, store);
        }
    }
    panic!("no handler for {wanted:?}");
}

/// The pages after a crash that lost all of them: the log from its start.
fn recover(log: &WalLog) -> PageStore {
    let mut store = PageStore::new();
    for record in log.records() {
        match &record.payload {
            Payload::FullPageImage { page_id, image } => {
                let mut page = [0u8; PAGE_SIZE];
                page.copy_from_slice(image);
                set_page_pd_lsn(&mut page, record.lsn);
                while store.len() <= page_id.0 {
                    store.allocate([0u8; PAGE_SIZE]).unwrap();
                }
                store.put(*page_id, page);
            }
            _ => replay(record, &mut store).unwrap(),
        }
    }
    store
}

fn last_lsn(log: &WalLog) -> u64 {
    log.records().last().unwrap().lsn.0
}

fn bytes_of(store: &PageStore, id: PageId) -> Vec<u8> {
    store.pin(id).unwrap().to_vec()
}

fn fill_count(store: &mut PageStore, dir_head: PageId) {
    let mut page = store.pin(dir_head).unwrap();
    page[DIR_OFF_COUNT..DIR_OFF_COUNT + 4].copy_from_slice(&DIR_ENTRIES_PER_PAGE.to_le_bytes());
    store.put(dir_head, page);
}

#[test]
fn reopen_replays_hnsw_records() {
    let (_, mut log, meta, dir_head, node) = create_env();
    for p in standard_five(meta, dir_head, node) {
        log.append(p).unwrap();
    }
    let store = recover(&log);

    let page = store.pin(dir_head).unwrap();
    assert_eq!(dir_count(&page), 1);
    assert_eq!(dir_entry(&page, 0).unwrap(), (node, 0));

    let page = store.pin(node).unwrap();
    assert!(entry_is_live(&page, 0, DIM).unwrap());
    assert_eq!(entry_top_level(&page, 0, DIM).unwrap(), 1);
    assert_eq!(entry_neighbors(&page, 0, GEO, 0).unwrap(), vec![2, 5, 9]);
    assert_eq!(entry_vector(&page, 0, DIM).unwrap(), ones(DIM as usize));

    let params = read_meta(&store.pin(meta).unwrap()).unwrap();
    assert_eq!(params.entry_point, 0);
    assert_eq!(params.max_level, 1);
}

#[test]
fn handlers_replay_idempotently_n3() {
    let (mut store, mut log, meta, dir_head, node) = create_env();
    let dir_page_1 = new_page(&mut store, &mut log, |p| init_dir_page(p, 1));
    let mut lsn = last_lsn(&log);
    let mut records: Vec<(WalPayload, PageId)> = standard_five(meta, dir_head, node)
        .into_iter()
        .zip([node, dir_head, node, meta, node])
        .collect();
    records.push((tombstone(meta, node, DIM), node));
    records.push((dir_link(dir_head, dir_page_1), dir_head));

    for (payload, target) in records {
        if kind(&payload) == WalRecordType::HnswDirLink {
            fill_count(&mut store, dir_head);
        }
        lsn += 1;
        let record = WalRecord {
            lsn: Lsn(lsn),
            txn_id: TxnId::invalid(),
            payload,
        };
        replay(&record, &mut store).unwrap();
        let expected = bytes_of(&store, target);
        for round in 1..3 {
            replay(&record, &mut store).unwrap();
            assert_eq!(expected, bytes_of(&store, target), "round {round} diverged");
        }
    }

    let page = store.pin(node).unwrap();
    assert!(entry_is_tombstoned(&page, 0, DIM).unwrap());
    assert_eq!(dir_next(&store.pin(dir_head).unwrap()), dir_page_1);
}

#[test]
fn replay_prefix_is_deterministic() {
    fn run(record_count: usize) -> Vec<Vec<u8>> {
        let (_, mut log, meta, dir_head, node) = create_env();
        let mut records = standard_five(meta, dir_head, node);
        records.truncate(record_count);
        for p in records {
            log.append(p).unwrap();
        }
        let store = recover(&log);
        [meta, dir_head, node]
            .iter()
            .map(|id| bytes_of(&store, *id))
            .collect()
    }
    assert_eq!(run(3), run(3));
    assert_eq!(run(5), run(5));
    assert_ne!(run(3), run(5));
}

#[test]
fn handlers_reject_bad_records_without_mutating() {
    let (mut store, mut log, meta, dir_head, node) = create_env();
    let dir_page_1 = new_page(&mut store, &mut log, |p| init_dir_page(p, 1));
    let mut lsn = last_lsn(&log);
    let mut apply_one = |payload: WalPayload, store: &mut PageStore| {
        lsn += 1;
        replay(
            &WalRecord {
                lsn: Lsn(lsn),
                txn_id: TxnId::invalid(),
                payload,
            },
            store,
        )
    };

    apply_one(node_init(meta, node, 0, 0, 1, DIM), &mut store).unwrap();
    fill_count(&mut store, dir_head);
    apply_one(dir_link(dir_head, dir_page_1), &mut store).unwrap();
    assert!(log.append(dir_link(dir_page_1, dir_page_1)).is_err());

    let cases: Vec<(WalPayload, PageId, &str)> = vec![
        (node_init(meta, node, 0, 1, 1, 64), node, ""),
        (set_neighbors(meta, node, (1..=33u32).collect()), node, ""),
        (meta_update(meta, 0, 14), meta, "l_max"),
        (tombstone(meta, node, 64), node, ""),
        (tombstone(meta, node, DIM), node, "not LIVE"),
        (dir_append(dir_head, node, 7), dir_head, "NodeInit must precede"),
        (dir_link(dir_head, dir_page_1), dir_head, "already set"),
        (dir_append(dir_head, dir_head, 0), dir_head, "cannot be both"),
        (dir_link(dir_page_1, dir_page_1), dir_page_1, "self-link"),
        (dir_link(dir_page_1, dir_head), dir_page_1, "tail is full"),
        (publish_live(meta, node, 0, 64), node, ""),
        (publish_live(meta, node, 7, DIM), node, "not a live entry"),
        (node_init(node, node, 0, 1, 1, DIM), node, "both meta and node"),
        (set_neighbors(node, node, vec![2, 5, 9]), node, "both meta and node"),
        (tombstone(node, node, DIM), node, "both meta and node"),
        (publish_live(node, node, 0, DIM), node, "both meta and node"),
    ];
    for (payload, target, fragment) in cases {
        let what = kind(&payload);
        let before = bytes_of(&store, target);
        let Err(err) = apply_one(payload, &mut store) else {
            panic!("{what:?}: a bad record must be rejected");
        };
        assert!(
            fragment.is_empty() || err.to_string().contains(fragment),
            "{what:?}: {fragment}: {}",
            err.to_string()
        );
        assert_eq!(bytes_of(&store, target), before, "{what:?}");
    }
}

#[test]
fn handlers_reject_transactional_records() {
    let (mut store, mut log, meta, dir_head, node) = create_env();
    let dir_page_1 = new_page(&mut store, &mut log, |p| init_dir_page(p, 1));
    let mut lsn = last_lsn(&log);
    let records: Vec<(WalPayload, PageId)> = vec![
        (node_init(meta, node, 0, 0, 1, DIM), node),
        (set_neighbors(meta, node, vec![2, 5, 9]), node),
        (meta_update(meta, 0, 1), meta),
        (tombstone(meta, node, DIM), node),
        (dir_append(dir_head, node, 0), dir_head),
        (dir_link(dir_head, dir_page_1), dir_head),
        (publish_live(meta, node, 0, DIM), node),
    ];
    for (payload, target) in records {
        lsn += 1;
        let record = WalRecord {
            lsn: Lsn(lsn),
            txn_id: TxnId(7),
            payload,
        };
        let before = bytes_of(&store, target);
        let Err(err) = replay(&record, &mut store) else {
            panic!("a transactional record must be rejected");
        };
        assert!(err.to_string().contains("txn_id"), "{}", err.to_string());
        assert!(err.to_string().contains("hnsw redo"), "{}", err.to_string());
        assert_eq!(before, bytes_of(&store, target));
    }
}

#[test]
fn a_record_below_the_page_position_is_skipped() {
    let (mut store, _, meta, _, _) = create_env();
    let before = bytes_of(&store, meta);
    let record = WalRecord {
        lsn: Lsn(0),
        txn_id: TxnId::invalid(),
        payload: meta_update(meta, 0, 1),
    };
    replay(&record, &mut store).unwrap();
    assert_eq!(before, bytes_of(&store, meta));
}
