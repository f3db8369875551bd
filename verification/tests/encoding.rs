//! The snapshot byte stream.

use pg_am_hnsw::encoding::{
    decode_node_record, decode_snapshot_body, encode_node_record, encode_snapshot_body,
    max_body_size, max_records_size, params_from_header, unwrap_crc32, wrap_crc32, BodyEncoder,
    NodeRecord, SnapshotHeader, CRC32_SIZE, EMPTY_GRAPH_ENTRY_POINT, SNAPSHOT_HEADER_SIZE,
};
use pg_am_hnsw::{HnswError, NodeId};

fn bits(v: &[f32]) -> Vec<u32> {
    v.iter().map(|x| x.to_bits()).collect()
}

fn sample_header() -> SnapshotHeader {
    SnapshotHeader {
        dim: 2,
        m: 16,
        m_max0: 32,
        ef_construction: 200,
        node_count: 3,
        entry_point: 2,
        max_level: 1,
    }
}

fn sample_nodes() -> Vec<NodeRecord> {
    vec![
        NodeRecord {
            vector: bits(&[0.0, 0.0]),
            neighbors: vec![vec![NodeId(1), NodeId(2)]],
        },
        NodeRecord {
            vector: bits(&[1.0, 0.0]),
            neighbors: vec![vec![NodeId(0), NodeId(2)]],
        },
        NodeRecord {
            vector: bits(&[0.5, 1.0]),
            neighbors: vec![vec![NodeId(0), NodeId(1)], vec![]],
        },
    ]
}

fn sample_body() -> Vec<u8> {
    encode_snapshot_body(&sample_header(), &sample_nodes()).unwrap()
}

#[test]
fn max_records_size_is_header_exclusive() {
    let h = sample_header();
    assert_eq!(
        max_records_size(&h),
        max_body_size(&h) - SNAPSHOT_HEADER_SIZE as u64
    );
    let mut empty = h;
    empty.node_count = 0;
    empty.entry_point = u32::MAX;
    empty.max_level = 0;
    assert_eq!(max_records_size(&empty), 0);
}

fn raw_body(header: &SnapshotHeader, nodes: &[NodeRecord]) -> Vec<u8> {
    let mut out = Vec::new();
    out.extend_from_slice(&header.encode());
    for rec in nodes {
        encode_node_record(&mut out, header.dim, &rec.vector, &rec.neighbors).unwrap();
    }
    out
}

fn assert_corrupted(err: &HnswError, needle: &str) {
    assert!(
        matches!(err, HnswError::Corrupted(_)),
        "unexpected variant: {}", err.to_string()
    );
    let msg = err.to_string();
    assert!(msg.contains(needle), "unexpected message: {msg}");
}

#[test]
fn header_round_trip() {
    let h = sample_header();
    assert_eq!(SnapshotHeader::decode(&h.encode()).unwrap(), h);
}

#[test]
fn node_record_round_trip() {
    let rec = &sample_nodes()[2];
    let mut buf = Vec::new();
    encode_node_record(&mut buf, 2, &rec.vector, &rec.neighbors).unwrap();
    let (decoded, consumed) = decode_node_record(&buf, 2).unwrap();
    assert_eq!(&decoded, rec);
    assert_eq!(consumed, buf.len());
}

#[test]
fn body_round_trip_with_crc() {
    let (header, nodes) = (sample_header(), sample_nodes());
    let body = encode_snapshot_body(&header, &nodes).unwrap();
    let wrapped = wrap_crc32(&body);
    let data = decode_snapshot_body(unwrap_crc32(&wrapped).unwrap()).unwrap();
    assert_eq!(data.header, header);
    assert_eq!(data.nodes, nodes);
}

#[test]
fn body_encoder_matches_one_shot_and_checks_counts() {
    let (header, nodes) = (sample_header(), sample_nodes());
    let levels: Vec<u8> = nodes
        .iter()
        .map(|r| (r.neighbors.len() - 1) as u8)
        .collect();
    let mut enc = BodyEncoder::new(header, levels.clone(), Vec::new()).unwrap();
    for rec in &nodes {
        enc.push_record(&rec.vector, &rec.neighbors).unwrap();
    }
    let (crc, body) = enc.finish().unwrap();
    assert_eq!(body, encode_snapshot_body(&header, &nodes).unwrap());
    assert_eq!(crc, crc32fast::hash(&body));
    assert_eq!(wrap_crc32(&body)[..CRC32_SIZE], crc.to_le_bytes());

    let enc = BodyEncoder::new(header, levels.clone(), Vec::new()).unwrap();
    assert!(matches!(enc.finish(), Err(HnswError::Corrupted(_))));
    let mut enc = BodyEncoder::new(header, levels, Vec::new()).unwrap();
    for rec in &nodes {
        enc.push_record(&rec.vector, &rec.neighbors).unwrap();
    }
    assert!(matches!(
        enc.push_record(&nodes[0].vector, &nodes[0].neighbors),
        Err(HnswError::Corrupted(_))
    ));
    assert!(matches!(
        BodyEncoder::new(header, vec![0], Vec::new()),
        Err(HnswError::Corrupted(_))
    ));
}

#[test]
fn body_encoder_rejects_summary_record_disagreement() {
    let (header, nodes) = (sample_header(), sample_nodes());
    let mut levels: Vec<u8> = nodes
        .iter()
        .map(|r| (r.neighbors.len() - 1) as u8)
        .collect();
    levels[0] = 1;
    let mut enc = BodyEncoder::new(header, levels, Vec::new()).unwrap();
    let err = enc
        .push_record(&nodes[0].vector, &nodes[0].neighbors)
        .unwrap_err();
    assert!(
        matches!(err, HnswError::Corrupted(_))
            && err
                .to_string()
                .contains("disagrees with the levels summary"),
        "unexpected error: {}", err.to_string()
    );
}

#[test]
fn empty_graph_round_trip() {
    let header = SnapshotHeader {
        node_count: 0,
        entry_point: EMPTY_GRAPH_ENTRY_POINT,
        max_level: 0,
        ..sample_header()
    };
    let body = encode_snapshot_body(&header, &[]).unwrap();
    let data = decode_snapshot_body(&body).unwrap();
    assert_eq!(data.header, header);
    assert!(data.nodes.is_empty());
}

#[test]
fn params_from_header_restores_construction_params() {
    let p = params_from_header(&sample_header(), 64).unwrap();
    assert_eq!((p.m(), p.m_max0(), p.ef_construction()), (16, 32, 200));
    assert_eq!(p.ef_search_default(), 64);
}

#[test]
fn rejects_huge_node_count_with_short_body() {
    let header = SnapshotHeader {
        node_count: u32::MAX,
        entry_point: 0,
        max_level: 0,
        ..sample_header()
    };
    let body = header.encode().to_vec();
    let wrapped = wrap_crc32(&body);
    assert_eq!(wrapped.len(), CRC32_SIZE + SNAPSHOT_HEADER_SIZE);
    let err = decode_snapshot_body(unwrap_crc32(&wrapped).unwrap()).unwrap_err();
    assert!(matches!(err, HnswError::Corrupted(_)), "unexpected: {}", err.to_string());
    let msg = err.to_string();
    assert!(msg.contains("node_count"), "unexpected: {msg}");
}

#[test]
fn params_from_header_supports_m_above_64() {
    let header = SnapshotHeader {
        m: 100,
        m_max0: 200,
        ef_construction: 200,
        node_count: 0,
        entry_point: EMPTY_GRAPH_ENTRY_POINT,
        max_level: 0,
        ..sample_header()
    };
    let body = encode_snapshot_body(&header, &[]).unwrap();
    let data = decode_snapshot_body(&body).unwrap();
    let p = params_from_header(&data.header, 100).unwrap();
    assert_eq!(
        (
            p.m(),
            p.m_max0(),
            p.ef_construction(),
            p.ef_search_default()
        ),
        (100, 200, 200, 100)
    );
    let err = params_from_header(&data.header, 64).unwrap_err();
    assert!(
        matches!(err, HnswError::InvalidParams(_)),
        "unexpected: {}", err.to_string()
    );
}

#[test]
fn rejects_bad_magic() {
    let mut body = sample_body();
    body[0] ^= 0xff;
    assert_corrupted(&decode_snapshot_body(&body).unwrap_err(), "bad magic");
}

#[test]
fn rejects_unknown_format_version() {
    let mut body = sample_body();
    body[4..6].copy_from_slice(&99u16.to_le_bytes());
    assert_corrupted(&decode_snapshot_body(&body).unwrap_err(), "format_version");
}

#[test]
fn rejects_truncated_header() {
    let body = sample_body();
    assert_corrupted(
        &decode_snapshot_body(&body[..SNAPSHOT_HEADER_SIZE - 1]).unwrap_err(),
        "truncated",
    );
}

#[test]
fn rejects_dim_zero_in_header() {
    let mut body = sample_body();
    body[6..8].copy_from_slice(&0u16.to_le_bytes());
    assert_corrupted(&decode_snapshot_body(&body).unwrap_err(), "dim = 0");
}

#[test]
fn rejects_m_below_two_in_header() {
    let mut body = sample_body();
    body[8..10].copy_from_slice(&1u16.to_le_bytes());
    assert_corrupted(&decode_snapshot_body(&body).unwrap_err(), "M = 1 < 2");
}

#[test]
fn rejects_ef_construction_below_m_in_header() {
    let mut body = sample_body();
    body[12..16].copy_from_slice(&4u32.to_le_bytes());
    assert_corrupted(&decode_snapshot_body(&body).unwrap_err(), "ef_construction");
}

#[test]
fn rejects_m_max0_below_m_in_header() {
    let mut body = sample_body();
    body[10..12].copy_from_slice(&8u16.to_le_bytes());
    assert_corrupted(
        &decode_snapshot_body(&body).unwrap_err(),
        "M_max0 = 8 < M = 16",
    );
    let mut body = sample_body();
    body[10..12].copy_from_slice(&0u16.to_le_bytes());
    assert_corrupted(&decode_snapshot_body(&body).unwrap_err(), "M_max0 = 0");
}

#[test]
fn rejects_entry_point_out_of_range() {
    let mut body = sample_body();
    body[20..24].copy_from_slice(&3u32.to_le_bytes());
    assert_corrupted(&decode_snapshot_body(&body).unwrap_err(), "entry_point");
}

#[test]
fn rejects_empty_graph_without_sentinel() {
    let mut body = encode_snapshot_body(
        &SnapshotHeader {
            node_count: 0,
            entry_point: EMPTY_GRAPH_ENTRY_POINT,
            max_level: 0,
            ..sample_header()
        },
        &[],
    )
    .unwrap();
    body[20..24].copy_from_slice(&0u32.to_le_bytes());
    assert_corrupted(&decode_snapshot_body(&body).unwrap_err(), "sentinel");
}

#[test]
fn rejects_empty_graph_with_nonzero_max_level() {
    let mut body = encode_snapshot_body(
        &SnapshotHeader {
            node_count: 0,
            entry_point: EMPTY_GRAPH_ENTRY_POINT,
            max_level: 0,
            ..sample_header()
        },
        &[],
    )
    .unwrap();
    body[24] = 3;
    assert_corrupted(&decode_snapshot_body(&body).unwrap_err(), "max_level");
}

#[test]
fn rejects_max_level_mismatch_with_entry_node() {
    let mut body = sample_body();
    body[24] = 0;
    assert_corrupted(&decode_snapshot_body(&body).unwrap_err(), "max_level");
}

#[test]
fn rejects_node_above_max_level() {
    let mut nodes = sample_nodes();
    nodes[0].neighbors.push(vec![NodeId(2)]);
    nodes[0].neighbors.push(vec![NodeId(2)]);
    let body = raw_body(&sample_header(), &nodes);
    assert_corrupted(
        &decode_snapshot_body(&body).unwrap_err(),
        "exceeds max_level",
    );
    assert_corrupted(
        &encode_snapshot_body(&sample_header(), &nodes).unwrap_err(),
        "exceeds max_level",
    );
}

#[test]
fn rejects_nonzero_flags() {
    let mut body = sample_body();
    body[25] = 1;
    assert_corrupted(&decode_snapshot_body(&body).unwrap_err(), "flags");
}

#[test]
fn rejects_nonzero_reserved() {
    let mut body = sample_body();
    body[26] = 1;
    assert_corrupted(&decode_snapshot_body(&body).unwrap_err(), "reserved");
}

#[test]
fn rejects_nan_vector_component() {
    let mut body = sample_body();
    body[27..31].copy_from_slice(&f32::NAN.to_le_bytes());
    assert_corrupted(&decode_snapshot_body(&body).unwrap_err(), "non-finite");
}

#[test]
fn rejects_inf_vector_component() {
    let mut body = sample_body();
    body[27..31].copy_from_slice(&f32::INFINITY.to_le_bytes());
    assert_corrupted(&decode_snapshot_body(&body).unwrap_err(), "non-finite");
    let mut body = sample_body();
    body[27..31].copy_from_slice(&f32::NEG_INFINITY.to_le_bytes());
    assert_corrupted(&decode_snapshot_body(&body).unwrap_err(), "non-finite");
}

#[test]
fn rejects_level_count_zero() {
    let mut body = sample_body();
    body[35] = 0;
    assert_corrupted(&decode_snapshot_body(&body).unwrap_err(), "level_count = 0");
}

#[test]
fn rejects_neighbor_id_out_of_range() {
    let mut body = sample_body();
    body[38..42].copy_from_slice(&99u32.to_le_bytes());
    assert_corrupted(&decode_snapshot_body(&body).unwrap_err(), "does not exist");
}

#[test]
fn rejects_edge_to_node_without_that_level() {
    let header = SnapshotHeader {
        node_count: 2,
        entry_point: 1,
        max_level: 1,
        ..sample_header()
    };
    let nodes = vec![
        NodeRecord {
            vector: bits(&[0.0, 0.0]),
            neighbors: vec![vec![]],
        },
        NodeRecord {
            vector: bits(&[1.0, 1.0]),
            neighbors: vec![vec![], vec![NodeId(0)]],
        },
    ];
    let body = raw_body(&header, &nodes);
    let err = decode_snapshot_body(&body).unwrap_err();
    assert!(matches!(err, HnswError::Corrupted(_)), "unexpected: {}", err.to_string());
    assert_corrupted(&err, "has no level");
    assert_corrupted(
        &encode_snapshot_body(&header, &nodes).unwrap_err(),
        "has no level",
    );
}

#[test]
fn rejects_malformed_adjacency() {
    let header = sample_header();
    let case = |neighbors0: Vec<NodeId>| {
        let mut nodes = sample_nodes();
        nodes[0].neighbors[0] = neighbors0;
        nodes
    };
    let nodes = case(vec![NodeId(1), NodeId(1)]);
    assert_corrupted(
        &decode_snapshot_body(&raw_body(&header, &nodes)).unwrap_err(),
        "not strictly ascending",
    );
    assert_corrupted(
        &encode_snapshot_body(&header, &nodes).unwrap_err(),
        "not strictly ascending",
    );
    let nodes = case(vec![NodeId(2), NodeId(1)]);
    assert_corrupted(
        &decode_snapshot_body(&raw_body(&header, &nodes)).unwrap_err(),
        "not strictly ascending",
    );
    let nodes = case(vec![NodeId(0), NodeId(1)]);
    assert_corrupted(
        &decode_snapshot_body(&raw_body(&header, &nodes)).unwrap_err(),
        "self-loop",
    );
    {
        let mut ns = sample_nodes();
        ns[0].neighbors[0] = (1..=33u32).map(NodeId).collect();
        let header = SnapshotHeader {
            node_count: 34,
            ..sample_header()
        };
        while ns.len() < 34 {
            ns.push(NodeRecord {
                vector: bits(&[0.0, 0.0]),
                neighbors: vec![vec![]],
            });
        }
        assert_corrupted(
            &decode_snapshot_body(&raw_body(&header, &ns)).unwrap_err(),
            "exceeds m_max",
        );
        assert_corrupted(
            &encode_snapshot_body(&header, &ns).unwrap_err(),
            "exceeds m_max",
        );
    }
}

#[test]
fn encode_rejects_unloadable_header() {
    let bad_entry = SnapshotHeader {
        node_count: 0,
        entry_point: 7,
        max_level: 3,
        ..sample_header()
    };
    assert!(encode_snapshot_body(&bad_entry, &[]).is_err());
    let bad_params = SnapshotHeader {
        m: 1,
        ..sample_header()
    };
    assert!(matches!(
        encode_snapshot_body(&bad_params, &sample_nodes()).unwrap_err(),
        HnswError::Corrupted(_)
    ));
}

#[test]
fn rejects_truncated_node_record() {
    let body = sample_body();
    assert_corrupted(
        &decode_snapshot_body(&body[..body.len() - 1]).unwrap_err(),
        "truncated",
    );
}

#[test]
fn rejects_trailing_bytes() {
    let mut body = sample_body();
    body.push(0);
    assert_corrupted(&decode_snapshot_body(&body).unwrap_err(), "trailing");
}

#[test]
fn rejects_crc_mismatch() {
    let mut wrapped = wrap_crc32(&sample_body());
    let last = wrapped.len() - 1;
    wrapped[last] ^= 0x01;
    assert!(matches!(
        unwrap_crc32(&wrapped),
        Err(HnswError::ChecksumMismatch { .. })
    ));
}

#[test]
fn rejects_crc_mismatch_in_prefix_itself() {
    let mut wrapped = wrap_crc32(&sample_body());
    wrapped[0] ^= 0x01;
    assert!(matches!(
        unwrap_crc32(&wrapped),
        Err(HnswError::ChecksumMismatch { .. })
    ));
}

#[test]
fn rejects_too_short_for_crc() {
    assert_corrupted(&unwrap_crc32(&[1, 2, 3]).unwrap_err(), "CRC32");
}

#[test]
fn encode_rejects_node_count_mismatch() {
    assert!(matches!(
        encode_snapshot_body(&sample_header(), &sample_nodes()[..2]),
        Err(HnswError::Corrupted(_))
    ));
}

#[test]
fn encode_rejects_dim_mismatch() {
    let mut buf = Vec::new();
    assert!(matches!(
        encode_node_record(&mut buf, 3, &bits(&[1.0, 2.0]), &[vec![]]),
        Err(HnswError::InvalidArgument(_))
    ));
}

#[test]
fn encode_node_record_enforces_the_level_count_cap() {
    let mut buf = Vec::new();
    let err = encode_node_record(&mut buf, 2, &bits(&[1.0, 0.0]), &vec![Vec::new(); 65]).unwrap_err();
    assert!(
        matches!(err, HnswError::InvalidArgument(_)),
        "unexpected variant: {}", err.to_string()
    );
    assert!(
        err.to_string().contains("level_count"),
        "unexpected message: {}", err.to_string()
    );
    let mut buf = Vec::new();
    encode_node_record(&mut buf, 2, &bits(&[1.0, 0.0]), &vec![Vec::new(); 64]).unwrap();
}

#[test]
fn encode_node_record_rejects_non_finite_components() {
    for bad in [f32::NAN, f32::INFINITY, f32::NEG_INFINITY] {
        let mut buf = Vec::new();
        let err = encode_node_record(&mut buf, 2, &bits(&[bad, 0.0]), &[vec![]]).unwrap_err();
        assert!(
            matches!(err, HnswError::InvalidArgument(_)),
            "unexpected variant: {}", err.to_string()
        );
        assert!(
            err.to_string().contains("non-finite"),
            "unexpected message: {}", err.to_string()
        );
    }
    let mut buf = Vec::new();
    encode_node_record(&mut buf, 2, &bits(&[-0.0, 1.0]), &[vec![]]).unwrap();
}

#[test]
fn a_list_that_is_too_long_is_found_in_its_turn() {
    let wide: Vec<NodeId> = vec![NodeId(1); 65536];
    let mut buf = vec![9u8];
    let err = encode_node_record(
        &mut buf,
        1,
        &bits(&[1.0]),
        &[vec![NodeId(7)], wide.clone(), vec![]],
    )
    .unwrap_err();
    assert_eq!(
        err.to_string(),
        "invalid argument: level 1 has 65536 neighbors, does not fit u16"
    );
    let mut expected = vec![9u8, 0, 0];
    expected.extend_from_slice(&1.0f32.to_le_bytes());
    expected.extend_from_slice(&[3, 1, 0, 7, 0, 0, 0]);
    assert_eq!(buf, expected);

    let mut buf = vec![9u8];
    assert!(encode_node_record(&mut buf, 2, &bits(&[1.0]), &[wide]).is_err());
    assert_eq!(buf, [9]);
}

#[test]
fn no_body_begins_another() {
    let body = sample_body();
    decode_snapshot_body(&body).unwrap();
    for end in 0..body.len() {
        assert!(decode_snapshot_body(&body[..end]).is_err());
    }
    let mut long = body.clone();
    long.push(0);
    assert!(decode_snapshot_body(&long).is_err());
}
