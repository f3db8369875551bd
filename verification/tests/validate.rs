//! The checks that a record passes before it is applied.

use pg_am_hnsw::validate::{
    validate_node_init, validate_set_neighbors, validate_state_dim, MetaView,
};
use pg_am_hnsw::{HnswError, Metric};

fn bits(v: &[f32]) -> Vec<u32> {
    v.iter().map(|x| x.to_bits()).collect()
}

const DIM: u16 = 4;
const M: u16 = 4;
const M_MAX0: u16 = 8;

fn meta() -> MetaView {
    MetaView {
        dim: DIM,
        m: M,
        m_max0: M_MAX0,
        metric: Metric::L2,
    }
}

#[test]
fn node_init_accepts_and_rejects() {
    let m = meta();
    validate_node_init(&m, DIM, 2, &bits(&[1.0, 2.0, 3.0, 4.0])).unwrap();
    assert!(validate_node_init(&m, 8, 0, &bits(&[1.0; 8])).is_err());
    assert!(validate_node_init(&m, DIM, 99, &bits(&[1.0; 4])).is_err());
    assert!(validate_node_init(&m, DIM, 0, &bits(&[1.0, f32::NAN, 3.0, 4.0])).is_err());
    assert!(validate_node_init(&m, DIM, 0, &bits(&[1.0; 3])).is_err());
    assert_eq!(m.l_max(), 26);
    validate_node_init(&m, DIM, 26, &bits(&[1.0; 4])).unwrap();
    assert!(validate_node_init(&m, DIM, 27, &bits(&[1.0; 4])).is_err());
    let m2 = MetaView { m: 2, ..meta() };
    assert_eq!(m2.l_max(), 53);
    validate_node_init(&m2, DIM, 53, &bits(&[1.0; 4])).unwrap();
    assert!(validate_node_init(&m2, DIM, 54, &bits(&[1.0; 4])).is_err());
    let cosine_meta = MetaView {
        metric: Metric::Cosine,
        ..meta()
    };
    assert!(matches!(
        validate_node_init(&cosine_meta, DIM, 0, &bits(&[0.0; 4])),
        Err(HnswError::ZeroVector)
    ));
    validate_node_init(&cosine_meta, DIM, 0, &bits(&[1.0; 4])).unwrap();
    validate_node_init(&m, DIM, 0, &bits(&[0.0; 4])).unwrap();
}

#[test]
fn set_neighbors_accepts_and_rejects() {
    let m = meta();
    validate_set_neighbors(&m, 7, 0, 3, &[1, 5, 9], 0).unwrap();
    assert!(validate_set_neighbors(&m, 7, 0, 2, &[1, 5, 9], 0).is_err());
    assert!(validate_set_neighbors(&m, 7, 0, 9, &[1, 2, 3, 4, 5, 6, 7, 8, 9], 0).is_err());
    assert!(validate_set_neighbors(&m, 7, 1, 5, &[1, 2, 3, 4, 5], 2).is_err());
    assert!(validate_set_neighbors(&m, 7, 3, 1, &[1], 2).is_err());
    assert!(validate_set_neighbors(&m, 7, 0, 2, &[5, 1], 0).is_err());
    assert!(validate_set_neighbors(&m, 7, 0, 2, &[5, 5], 0).is_err());
    assert!(validate_set_neighbors(&m, 7, 0, 2, &[1, 7], 0).is_err());
}

#[test]
fn state_dim_gate_accepts_and_rejects() {
    let m = meta();
    validate_state_dim(&m, DIM, "PublishLive").unwrap();
    validate_state_dim(&m, DIM, "NodeTombstone").unwrap();
    for what in ["PublishLive", "NodeTombstone"] {
        let err = validate_state_dim(&m, DIM + 1, what).unwrap_err();
        assert!(err.to_string().contains(what), "{}", err.to_string());
        assert!(err.to_string().contains("before apply"), "{}", err.to_string());
    }
}
