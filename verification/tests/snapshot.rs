//! Graphs in memory, saved and loaded.

use pg_am_hnsw::encoding::{
    max_body_size, max_memory_estimate, max_records_size, SnapshotHeader, CRC32_SIZE,
    EMPTY_GRAPH_ENTRY_POINT, SNAPSHOT_HEADER_SIZE,
};
use pg_am_hnsw::snapshot::{
    after_open, body_len, check_budget, check_regular, load, load_with_budget, no_temp_name,
    plan_load, read_cap, save, LoadBudget, OpenOutcomeKind, SaveStep, SaveStream, PREFIX_SIZE,
};
use pg_am_hnsw::{Hnsw, HnswError, HnswParams, Metric, NodeId};

fn bits(v: &[f32]) -> Vec<u32> {
    v.iter().map(|x| x.to_bits()).collect()
}

fn ids(v: &[u32]) -> Vec<NodeId> {
    v.iter().map(|x| NodeId(*x)).collect()
}

fn sample() -> Hnsw {
    Hnsw::from_parts(
        2,
        Metric::L2,
        HnswParams::default(),
        Some(NodeId(2)),
        1,
        bits(&[0.0, 0.0, 1.0, 0.0, 0.5, 1.0]),
        vec![0, 0, 1],
        vec![
            vec![ids(&[1, 2])],
            vec![ids(&[0, 2])],
            vec![ids(&[0, 1]), vec![]],
        ],
    )
}

fn empty() -> Hnsw {
    Hnsw::from_parts(
        2,
        Metric::L2,
        HnswParams::default(),
        None,
        0,
        vec![],
        vec![],
        vec![],
    )
}

fn assert_same(a: &Hnsw, b: &Hnsw) {
    assert_eq!(a.dim(), b.dim());
    assert_eq!(a.entry_point(), b.entry_point());
    assert_eq!(a.max_level(), b.max_level());
    assert_eq!(a.node_count(), b.node_count());
    for i in 0..a.node_count() {
        let id = NodeId(i as u32);
        assert_eq!(a.level(id), b.level(id));
        assert_eq!(a.vector(id), b.vector(id));
        assert_eq!(a.node_adjacency(id), b.node_adjacency(id));
    }
}

#[test]
fn length_helpers_never_underflow() {
    const PREFIX: u64 = (CRC32_SIZE + SNAPSHOT_HEADER_SIZE) as u64;
    assert_eq!(body_len(0), 0);
    assert_eq!(body_len(PREFIX - 1), 0);
    assert_eq!(body_len(PREFIX), 0);
    assert_eq!(body_len(PREFIX + 1), 1);
    assert_eq!(body_len(u64::MAX), u64::MAX - PREFIX);
    assert_eq!(read_cap(0, 0), 1);
    assert_eq!(read_cap(10, 1_000), 11);
    assert_eq!(read_cap(1_000, 10), PREFIX + 10 + 1);
    assert_eq!(read_cap(u64::MAX, 100), PREFIX + 100 + 1);
    assert_eq!(read_cap(u64::MAX, u64::MAX), u64::MAX);
    assert_eq!(read_cap(0, 0).saturating_sub(PREFIX), 0);
    assert_eq!(read_cap(u64::MAX, 100).saturating_sub(PREFIX), 101);
}

#[test]
fn budget_below_prefix_fails_before_any_read() {
    let budget = LoadBudget {
        max_file_bytes: 10,
        ..LoadBudget::unlimited()
    };
    let err = check_budget(&budget).unwrap_err();
    assert!(matches!(err, HnswError::InvalidArgument(_)));
    assert!(err.to_string().contains("budget"), "{}", err.to_string());
    let err = load_with_budget(false, 0, &[], Metric::L2, 64, budget).unwrap_err();
    assert!(
        matches!(err, HnswError::InvalidArgument(_)),
        "expected InvalidArgument, got: {}",
        err.to_string()
    );
    assert!(err.to_string().contains("budget"), "{}", err.to_string());
}

#[test]
fn a_saved_graph_loads_back_read_only() {
    for graph in [sample(), empty()] {
        let bytes = save(&graph).unwrap();
        let loaded = load(&bytes, Metric::L2, 64).unwrap();
        assert_same(&graph, &loaded);
        assert_eq!(loaded.params(), graph.params());
        assert!(loaded.is_read_only());
        assert_eq!(save(&loaded).unwrap(), bytes);
    }
}

#[test]
fn streaming_gives_the_same_file() {
    let graph = sample();
    let whole = save(&graph).unwrap();
    let (mut stream, mut body) = SaveStream::start(&graph).unwrap();
    assert_eq!(body.len(), SNAPSHOT_HEADER_SIZE);
    while let Some(chunk) = stream.next_chunk().unwrap() {
        body.extend_from_slice(&chunk);
    }
    let crc = stream.finish().unwrap();
    assert_eq!(whole[..CRC32_SIZE], crc.to_le_bytes());
    assert_eq!(whole[CRC32_SIZE..], body[..]);
    assert_eq!(crc, crc32fast::hash(&body));
}

#[test]
fn a_graph_that_cannot_be_loaded_is_not_saved() {
    let graph = Hnsw::from_parts(
        2,
        Metric::L2,
        HnswParams::default(),
        Some(NodeId(0)),
        0,
        bits(&[0.0, 0.0, 1.0, 0.0]),
        vec![0, 0],
        vec![vec![ids(&[1, 1])], vec![ids(&[0])]],
    );
    assert!(matches!(save(&graph), Err(HnswError::Corrupted(_))));
}

#[test]
fn load_checks_come_in_order() {
    let bytes = save(&sample()).unwrap();
    let len = bytes.len() as u64;
    let free = LoadBudget::unlimited();

    let err = check_regular(false).unwrap_err();
    assert!(matches!(err, HnswError::InvalidArgument(_)));
    let err = load_with_budget(false, len, &bytes, Metric::L2, 64, free).unwrap_err();
    assert!(err.to_string().contains("regular file"), "{}", err.to_string());

    let err = load(&bytes[..PREFIX_SIZE - 1], Metric::L2, 64).unwrap_err();
    assert!(matches!(err, HnswError::Corrupted(_)));
    assert!(err.to_string().contains("too short"), "{}", err.to_string());

    let mut bad = bytes.clone();
    bad[CRC32_SIZE] ^= 1;
    let err = load(&bad, Metric::L2, 64).unwrap_err();
    assert!(err.to_string().contains("bad magic"), "{}", err.to_string());

    let small = LoadBudget {
        max_file_bytes: len - 1,
        ..free
    };
    let err = load_with_budget(true, len, &bytes, Metric::L2, 64, small).unwrap_err();
    assert!(matches!(err, HnswError::InvalidArgument(_)));

    let tight = LoadBudget {
        max_memory_bytes: 100,
        ..free
    };
    let err = load_with_budget(true, len, &bytes, Metric::L2, 64, tight).unwrap_err();
    assert!(matches!(err, HnswError::InvalidArgument(_)));
    assert!(err.to_string().contains("memory"), "{}", err.to_string());

    let err = load(&bytes, Metric::L2, 15).unwrap_err();
    assert!(matches!(err, HnswError::InvalidParams(_)));

    let err = plan_load(&free, PREFIX_SIZE as u64 + 1, &bytes[..PREFIX_SIZE], 64).unwrap_err();
    assert!(matches!(err, HnswError::Corrupted(_)));
    let err = plan_load(&free, 1 << 40, &bytes[..PREFIX_SIZE], 64).unwrap_err();
    assert!(matches!(err, HnswError::Corrupted(_)));
    let plan = plan_load(&free, len, &bytes[..PREFIX_SIZE], 64).unwrap();
    assert_eq!(plan.remaining, max_records_size(&plan.header) + 1);

    let mut rotten = bytes.clone();
    let last = rotten.len() - 1;
    rotten[last] ^= 1;
    assert!(matches!(
        load(&rotten, Metric::L2, 64),
        Err(HnswError::ChecksumMismatch { .. })
    ));

    let mut long = bytes.clone();
    long.push(0);
    assert!(load(&long, Metric::L2, 64).is_err());
}

#[test]
fn a_cosine_graph_holds_no_zero_vector() {
    let graph = sample();
    let bytes = save(&graph).unwrap();
    load(&bytes, Metric::InnerProduct, 64).unwrap();
    let r = load(&bytes, Metric::Cosine, 64);
    assert!(r.is_err());
}

#[test]
fn size_bounds_of_a_header() {
    let h = SnapshotHeader {
        dim: 2,
        m: 16,
        m_max0: 32,
        ef_construction: 200,
        node_count: 3,
        entry_point: 2,
        max_level: 1,
    };
    let record = 2 + 8 + 1 + (2 + 4 * 32) + 63 * (2 + 4 * 16);
    assert_eq!(max_records_size(&h), 3 * record);
    assert_eq!(max_body_size(&h), 25 + 3 * record);
    assert!(max_memory_estimate(&h) > 0);
    let none = SnapshotHeader {
        node_count: 0,
        entry_point: EMPTY_GRAPH_ENTRY_POINT,
        max_level: 0,
        ..h
    };
    assert_eq!(max_records_size(&none), 0);
}

#[test]
fn a_saved_graph_loads_under_its_own_metric() {
    for metric in [Metric::L2, Metric::InnerProduct, Metric::Cosine] {
        let graph = Hnsw::from_parts(
            2,
            metric,
            HnswParams::default(),
            Some(NodeId(1)),
            0,
            bits(&[0.0, 1.0, 1.0, 0.0]),
            vec![0, 0],
            vec![vec![ids(&[1])], vec![ids(&[0])]],
        );
        let bytes = save(&graph).unwrap();
        let back = load(&bytes, metric, 16).unwrap();
        assert_same(&graph, &back);
        assert_eq!(back.metric(), metric);
    }
    let err = load(&save(&sample()).unwrap(), Metric::Cosine, 64).unwrap_err();
    assert!(err.to_string().contains("node 0"), "{}", err.to_string());
}

#[test]
fn a_loaded_graph_takes_no_insertions() {
    let mut graph = load(&save(&sample()).unwrap(), Metric::L2, 64).unwrap();
    assert!(graph.is_read_only());
    let r = graph.insert(&bits(&[1.0, 2.0]));
    assert!(matches!(r, Err(HnswError::InvalidOperation(_))));
    assert_same(&graph, &sample());
}

#[test]
fn temporary_names_are_tried_within_a_bound() {
    assert_eq!(after_open(1, OpenOutcomeKind::Created), SaveStep::Stream);
    assert_eq!(after_open(1024, OpenOutcomeKind::Created), SaveStep::Stream);
    assert_eq!(after_open(1, OpenOutcomeKind::Failed), SaveStep::Fail);
    assert_eq!(after_open(1, OpenOutcomeKind::Taken), SaveStep::Retry);
    assert_eq!(after_open(1023, OpenOutcomeKind::Taken), SaveStep::Retry);
    assert_eq!(after_open(1024, OpenOutcomeKind::Taken), SaveStep::GiveUp);
    assert_eq!(
        no_temp_name().to_string(),
        "invalid operation: no available temporary snapshot name after 1024 attempts — possible \
         tampering or stale .tmp-* pileup"
    );
}
