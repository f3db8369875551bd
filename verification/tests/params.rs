//! Construction parameters and node identities.

use pg_am_hnsw::{HnswError, HnswParams, NodeId};

#[test]
fn defaults_are_the_frozen_selection() {
    let p = HnswParams::default();
    assert_eq!(p.m(), 16);
    assert_eq!(p.m_max0(), 32);
    assert_eq!(p.ef_construction(), 200);
    assert_eq!(p.ef_search_default(), 64);
}

#[test]
fn rejects_m_below_two() {
    assert!(HnswParams::new(1, 2, 200, 64).is_err());
    assert!(HnswParams::new(0, 0, 200, 64).is_err());
}

#[test]
fn rejects_m_max0_below_m() {
    assert!(matches!(
        HnswParams::new(16, 0, 200, 64),
        Err(HnswError::InvalidParams(_))
    ));
    assert!(matches!(
        HnswParams::new(16, 15, 200, 64),
        Err(HnswError::InvalidParams(_))
    ));
    assert!(HnswParams::new(16, 16, 200, 64).is_ok());
}

#[test]
fn rejects_ef_construction_below_m() {
    assert!(HnswParams::new(16, 32, 15, 64).is_err());
    assert!(HnswParams::new(16, 32, 16, 64).is_ok());
}

#[test]
fn rejects_ef_search_default_below_m() {
    let err = HnswParams::new(16, 32, 200, 15).unwrap_err().to_string();
    assert!(
        err.contains("ef_search_default"),
        "unexpected message: {err}"
    );
    assert!(HnswParams::new(16, 32, 200, 16).is_ok());
}

#[test]
fn node_id_sentinel_and_index() {
    assert_eq!(NodeId::invalid().0, u32::MAX);
    assert_eq!(NodeId(7).index(), 7);
    assert!(NodeId::invalid() > NodeId(u32::MAX - 1));
}

#[test]
fn each_parameter_message_names_the_values() {
    assert!(HnswParams::new(1, 2, 200, 64)
        .unwrap_err()
        .to_string()
        .contains("1"));
    let text = HnswParams::new(16, 15, 200, 64).unwrap_err().to_string();
    assert!(text.contains("15") && text.contains("16"), "{text}");
    let text = HnswParams::new(16, 32, 9, 64).unwrap_err().to_string();
    assert!(text.contains("ef_construction") && text.contains("9"), "{text}");
}
