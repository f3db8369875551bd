//! The audit of an index on its pages.

use pg_am_hnsw::apply::{
    append_node, apply_meta, apply_tombstone, dir_append, publish_live, read_lp, set_neighbors,
};
use pg_am_hnsw::audit::{audit_index, AuditReport};
use pg_am_hnsw::index::create;
use pg_am_hnsw::node::NodeGeometry;
use pg_am_hnsw::page::{init_node_page, log_page_init};
use pg_am_hnsw::storage::{PageId, PageStore, WalLog, PAGE_SIZE};
use pg_am_hnsw::{HnswIndex, HnswParams, Metric, NeighborSelection, NodeId};

const DIM: u16 = 128;
const SEED: u64 = 0x5EED;
const GEO: NodeGeometry = NodeGeometry {
    dim: DIM,
    m: 16,
    m_max0: 32,
};

fn fill(x: f32) -> Vec<u32> {
    vec![x.to_bits(); DIM as usize]
}

struct NodeSpec {
    top_level: u8,
    level_lists: Vec<Vec<u32>>,
    live: bool,
}

fn spec(top_level: u8, level_lists: Vec<Vec<u32>>, live: bool) -> NodeSpec {
    NodeSpec {
        top_level,
        level_lists,
        live,
    }
}

fn fresh(metric: Metric) -> (PageStore, WalLog, HnswIndex) {
    let mut store = PageStore::new();
    let mut log = WalLog::new();
    let index = create(
        &mut store,
        &mut log,
        HnswParams::default(),
        DIM,
        metric,
        NeighborSelection::Heuristic,
        SEED,
    )
    .unwrap();
    (store, log, index)
}

fn node_page(store: &mut PageStore, log: &mut WalLog) -> PageId {
    let mut page = [0u8; PAGE_SIZE];
    init_node_page(&mut page);
    let id = store.allocate(page).unwrap();
    log_page_init(log, id, &mut page).unwrap();
    store.put(id, page);
    id
}

fn edit(store: &mut PageStore, id: PageId, f: impl FnOnce(&mut [u8; PAGE_SIZE])) {
    let mut page = store.pin(id).unwrap();
    f(&mut page);
    store.put(id, page);
}

fn build_with(
    metric: Metric,
    specs: &[NodeSpec],
    entry_point: u32,
    max_level: u8,
    dir_map: impl FnOnce(PageId) -> Vec<(Option<PageId>, u16)>,
) -> (PageStore, PageId, PageId) {
    let (mut store, mut log, index) = fresh(metric);
    let node = node_page(&mut store, &mut log);
    edit(&mut store, node, |page| {
        for (i, spec) in specs.iter().enumerate() {
            let slot =
                append_node(page, i as u32, spec.top_level, GEO, &fill((i + 1) as f32)).unwrap();
            for (l, list) in spec.level_lists.iter().enumerate() {
                set_neighbors(page, slot, GEO, l as u8, list).unwrap();
            }
            if spec.live {
                publish_live(page, slot, DIM).unwrap();
            }
        }
    });
    let rows = dir_map(index.meta_page_id());
    edit(&mut store, index.dir_head(), |page| {
        for (i, (target, slot)) in rows.iter().enumerate() {
            dir_append(page, i as u32, target.unwrap_or(node), *slot).unwrap();
        }
    });
    edit(&mut store, index.meta_page_id(), |page| {
        apply_meta(page, entry_point, max_level)
    });
    (store, index.meta_page_id(), node)
}

fn build(
    specs: &[NodeSpec],
    dir_map: &[(Option<PageId>, u16)],
    entry_point: u32,
    max_level: u8,
) -> (PageStore, PageId, PageId) {
    let rows = dir_map.to_vec();
    build_with(Metric::L2, specs, entry_point, max_level, |_| rows)
}

fn rejected(store: &PageStore, meta: PageId, fragment: &str) {
    let err = audit_index(store, meta).unwrap_err();
    assert!(err.to_string().contains(fragment), "{}", err.to_string());
}

#[test]
fn audit_empty_graph() {
    let (store, _, index) = fresh(Metric::L2);
    let report = index.audit(&store).unwrap();
    assert_eq!(
        report,
        AuditReport {
            node_count: 0,
            entry_point: NodeId::invalid().0,
            max_level: 0,
            live_count: 0,
            initializing_count: 0,
            tombstoned_count: 0,
            hidden_high_level_count: 0,
            orphan_entry_count: 0,
            edge_count: 0,
        }
    );
}

#[test]
fn audit_counts_initializing_and_orphans() {
    let (store, meta, _) = build(
        &[
            spec(0, vec![vec![]], true),
            spec(0, vec![vec![]], false),
            spec(0, vec![vec![]], false),
        ],
        &[(None, 0), (None, 2)],
        0,
        0,
    );
    let report = audit_index(&store, meta).unwrap();
    assert_eq!(report.node_count, 2);
    assert_eq!(report.live_count, 1);
    assert_eq!(report.initializing_count, 1);
    assert_eq!(report.orphan_entry_count, 1);
    assert_eq!(report.tombstoned_count, 0);
}

#[test]
fn audit_negative_matrix() {
    let (store, meta, _) = build_with(Metric::L2, &[spec(0, vec![vec![]], true)], 0, 0, |meta| {
        vec![(Some(meta), 0)]
    });
    rejected(&store, meta, "audit f");

    let (store, meta, _) = build(&[spec(0, vec![vec![]], true)], &[(None, 5)], 0, 0);
    rejected(&store, meta, "audit a");

    let (store, meta, _) = build(
        &[spec(0, vec![vec![5]], true), spec(0, vec![vec![]], true)],
        &[(None, 0), (None, 1)],
        0,
        0,
    );
    rejected(&store, meta, "audit a");

    let (store, meta, _) = build(
        &[
            spec(1, vec![vec![], vec![1]], true),
            spec(0, vec![vec![]], true),
        ],
        &[(None, 0), (None, 1)],
        0,
        1,
    );
    rejected(&store, meta, "audit b");

    let (store, meta, _) = build(
        &[spec(0, vec![vec![]], true), spec(0, vec![vec![]], true)],
        &[(None, 0), (None, 1)],
        5,
        0,
    );
    rejected(&store, meta, "audit c");

    let (store, meta, _) = build(&[spec(0, vec![vec![]], true)], &[(None, 0)], 0, 3);
    rejected(&store, meta, "audit c");

    let (store, meta, _) = build(&[spec(0, vec![vec![]], true)], &[(None, 0), (None, 0)], 0, 0);
    rejected(&store, meta, "audit d/e");

    let (store, meta, _) = build(
        &[
            spec(0, vec![vec![2, 1]], true),
            spec(0, vec![vec![]], true),
            spec(0, vec![vec![]], true),
        ],
        &[(None, 0), (None, 1), (None, 2)],
        0,
        0,
    );
    rejected(&store, meta, "strictly ascending");

    let (store, meta, _) = build(&[spec(0, vec![vec![0]], true)], &[(None, 0)], 0, 0);
    rejected(&store, meta, "self-loop");
}

#[test]
fn audit_rejects_nonfinite_stored_vector() {
    let (mut store, meta, node) = build(&[spec(0, vec![vec![]], true)], &[(None, 0)], 0, 0);
    edit(&mut store, node, |page| {
        let (off, _) = read_lp(page, 0).unwrap();
        let at = off as usize + 3 * 4;
        page[at..at + 4].copy_from_slice(&f32::NAN.to_bits().to_le_bytes());
    });
    rejected(&store, meta, "non-finite");
}

#[test]
fn audit_rejects_cosine_zero_stored_vector() {
    let (mut store, mut log, index) = fresh(Metric::Cosine);
    let node = node_page(&mut store, &mut log);
    edit(&mut store, node, |page| {
        let slot = append_node(page, 0, 0, GEO, &fill(0.0)).unwrap();
        publish_live(page, slot, DIM).unwrap();
    });
    edit(&mut store, index.dir_head(), |page| {
        dir_append(page, 0, node, 0).unwrap();
    });
    edit(&mut store, index.meta_page_id(), |page| apply_meta(page, 0, 0));
    rejected(&store, index.meta_page_id(), "all-zero");
}

#[test]
fn audit_counts_hidden_high_level_nodes() {
    let (store, meta, _) = build(
        &[
            spec(0, vec![vec![1]], true),
            spec(1, vec![vec![0], vec![]], false),
        ],
        &[(None, 0), (None, 1)],
        0,
        0,
    );
    let report = audit_index(&store, meta).unwrap();
    assert_eq!(report.node_count, 2);
    assert_eq!(report.hidden_high_level_count, 1);
    assert_eq!(report.initializing_count, 1);
    assert_eq!(report.live_count, 1);
    assert_eq!(report.edge_count, 2);
}

#[test]
fn audit_orphan_scope_is_referenced_pages_only() {
    let (mut store, mut log, index) = fresh(Metric::L2);
    let a = node_page(&mut store, &mut log);
    let b = node_page(&mut store, &mut log);
    edit(&mut store, a, |page| {
        let slot = append_node(page, 0, 0, GEO, &fill(1.0)).unwrap();
        publish_live(page, slot, DIM).unwrap();
    });
    edit(&mut store, b, |page| {
        append_node(page, 1, 0, GEO, &fill(2.0)).unwrap();
    });
    edit(&mut store, index.dir_head(), |page| {
        dir_append(page, 0, a, 0).unwrap();
    });
    edit(&mut store, index.meta_page_id(), |page| apply_meta(page, 0, 0));
    let report = audit_index(&store, index.meta_page_id()).unwrap();
    assert_eq!(report.node_count, 1);
    assert_eq!(report.orphan_entry_count, 0);
}

#[test]
fn audit_rejects_tombstoned_but_not_live() {
    let (mut store, meta, node) = build(&[spec(0, vec![vec![]], false)], &[(None, 0)], 0, 0);
    edit(&mut store, node, |page| {
        apply_tombstone(page, 0, DIM).unwrap();
    });
    rejected(&store, meta, "tombstoned but not LIVE");
}
